//! Conversion of extracted Xcode log lines into the Swift compile database.
use vstd::prelude::*;

use crate::compile_db::{CompileDb, SwiftCompileUnit, UnitView, units_view};
use crate::path::{join_path, join_spec};
use crate::shell::{shell_split, shlex_words, words_view};
use crate::text::{
    chars_of, ends_with, has_prefix, has_suffix, owned, starts_with, string_of_range,
    string_views, trim, trim_chars,
};

verus! {

/// A line that opens a Swift section of the build log.
pub open spec fn is_header(l: Seq<char>) -> bool {
    starts_with(l, "CompileSwiftSources "@) || starts_with(l, "SwiftDriver "@) || starts_with(
        l,
        "SwiftDriver\\ Compilation "@,
    )
}

/// A header of a Swift driver section.
pub open spec fn is_driver_header(l: Seq<char>) -> bool {
    starts_with(l, "SwiftDriver "@) || starts_with(l, "SwiftDriver\\ Compilation "@)
}

/// The `swiftc` command wrapped by a driver launcher line, if the line is one.
/// (The launcher names hold no space, so the text after their ` -- ` is the text
/// after the first ` -- ` of the line.)
pub open spec fn driver_command(cmd: Seq<char>) -> Option<Seq<char>> {
    if starts_with(cmd, "builtin-Swift-Compilation -- "@) {
        Some(cmd.skip("builtin-Swift-Compilation -- "@.len() as int))
    } else if starts_with(cmd, "builtin-SwiftDriver -- "@) {
        Some(cmd.skip("builtin-SwiftDriver -- "@.len() as int))
    } else {
        None
    }
}

/// The text after `cd ` on the first (trimmed) line of a section that has it.
pub open spec fn cd_arg(sec: Seq<Seq<char>>) -> Option<Seq<char>>
    decreases sec.len(),
{
    if sec.len() == 0 {
        None
    } else if starts_with(trim(sec[0]), "cd "@) {
        Some(trim(sec[0]).skip("cd "@.len() as int))
    } else {
        cd_arg(sec.drop_first())
    }
}

/// The directory a section's command ran in: the first word of its `cd` line,
/// else the process's current directory `cwd`.
pub open spec fn directory_from_words(words: Option<Seq<Seq<char>>>, cwd: Seq<char>) -> Seq<
    char,
> {
    match words {
        Some(w) => if w.len() > 0 {
            w[0]
        } else {
            cwd
        },
        None => cwd,
    }
}

pub open spec fn section_directory(sec: Seq<Seq<char>>, cwd: Seq<char>) -> Seq<char> {
    match cd_arg(sec) {
        Some(raw) => directory_from_words(shlex_words(raw), cwd),
        None => cwd,
    }
}

/// Source files and `.SwiftFileList` references among the words of a command,
/// each joined onto `base`.
pub open spec fn extract_spec(words: Seq<Seq<char>>, base: Seq<char>) -> (
    Seq<Seq<char>>,
    Seq<Seq<char>>,
)
    decreases words.len(),
{
    if words.len() == 0 {
        (Seq::empty(), Seq::empty())
    } else {
        let (f, l) = extract_spec(words.drop_last(), base);
        let a = words.last();
        if a.len() > 0 && a[0] == '@' && ends_with(a.drop_first(), ".SwiftFileList"@) {
            (f, l.push(join_spec(base, a.drop_first())))
        } else if ends_with(a, ".swift"@) {
            (f.push(join_spec(base, a)), l)
        } else if ends_with(a, ".SwiftFileList"@) {
            (f, l.push(join_spec(base, a)))
        } else {
            (f, l)
        }
    }
}

pub open spec fn words_or_empty(w: Option<Seq<Seq<char>>>) -> Seq<Seq<char>> {
    match w {
        Some(v) => v,
        None => Seq::empty(),
    }
}

/// The unit a section describes, if it is a usable Swift section.
pub open spec fn section_spec(sec: Seq<Seq<char>>, cwd: Seq<char>) -> Option<UnitView> {
    if sec.len() == 0 {
        None
    } else {
        let header = sec[0];
        let cmd0 = trim(sec.last());
        let command = if is_driver_header(header) {
            driver_command(cmd0)
        } else if starts_with(header, "CompileSwiftSources "@) {
            Some(cmd0)
        } else {
            None
        };
        match command {
            None => None,
            Some(c) => {
                let dir = section_directory(sec, cwd);
                let (files, lists) = extract_spec(words_or_empty(shlex_words(c)), dir);
                Some(UnitView { directory: dir, command: c, files: files, file_lists: lists })
            },
        }
    }
}

/// The index of the first empty line at or after `j` (or the number of lines).
pub open spec fn section_end(lines: Seq<Seq<char>>, j: int) -> int
    decreases lines.len() - j,
{
    if j >= lines.len() || lines[j].len() == 0 {
        j
    } else {
        section_end(lines, j + 1)
    }
}

/// The units found in `lines` from line `i` on: each header line opens a section
/// that runs to the next empty line.
pub open spec fn parse_from(lines: Seq<Seq<char>>, i: int, cwd: Seq<char>) -> Seq<UnitView>
    decreases lines.len() + 1 - i,
{
    if i < 0 || i >= lines.len() {
        Seq::empty()
    } else if !is_header(lines[i]) {
        parse_from(lines, i + 1, cwd)
    } else {
        let e = section_end(lines, i);
        proof {
            lemma_section_end(lines, i);
        }
        if e <= i {
            Seq::empty()
        } else {
            let rest = parse_from(lines, e + 1, cwd);
            match section_spec(lines.subrange(i, e), cwd) {
                Some(u) => seq![u] + rest,
                None => rest,
            }
        }
    }
}

pub proof fn lemma_section_end(lines: Seq<Seq<char>>, j: int)
    requires
        0 <= j,
    ensures
        j <= section_end(lines, j),
        section_end(lines, j) <= lines.len() || section_end(lines, j) == j,
        section_end(lines, j) < lines.len() ==> lines[section_end(lines, j)].len() == 0,
    decreases lines.len() - j,
{
    if !(j >= lines.len() || lines[j].len() == 0) {
        lemma_section_end(lines, j + 1);
    }
}

/// The directory, given the split words of the `cd` line's argument.
pub fn directory_from_cd_words(words: Option<Vec<String>>, cwd: &str) -> (out: String)
    ensures
        out@ == directory_from_words(words_view(words), cwd@),
{
    match words {
        Some(w) => if w.len() > 0 {
            w[0].clone()
        } else {
            owned(cwd)
        },
        None => owned(cwd),
    }
}

/// Sources and file lists among command words, joined onto `base`.
pub fn files_from_words(words: &Vec<String>, base: &str) -> (out: (Vec<String>, Vec<String>))
    ensures
        (string_views(out.0@), string_views(out.1@)) == extract_spec(string_views(words@), base@),
{
    let ghost wv = string_views(words@);
    let swift = chars_of(".swift");
    let list = chars_of(".SwiftFileList");
    let mut files: Vec<String> = Vec::new();
    let mut lists: Vec<String> = Vec::new();
    let mut i: usize = 0;
    while i < words.len()
        invariant
            i <= words@.len(),
            wv == string_views(words@),
            swift@ == ".swift"@,
            list@ == ".SwiftFileList"@,
            (string_views(files@), string_views(lists@)) == extract_spec(wv.take(i as int), base@),
        decreases words@.len() - i,
    {
        assert(wv.take(i + 1).drop_last() =~= wv.take(i as int));
        assert(wv.take(i + 1).last() == words@[i as int]@);
        let a = chars_of(words[i].as_str());
        let ghost fb = files@;
        let ghost lb = lists@;
        if a.len() > 0 && a[0] == '@' {
            let rest = string_of_range(a.as_slice(), 1, a.len());
            let rc = chars_of(rest.as_str());
            assert(rc@ =~= a@.drop_first());
            if has_suffix(rc.as_slice(), list.as_slice()) {
                lists.push(join_path(base, rest.as_str()));
                assert(string_views(lists@) =~= string_views(lb).push(
                    join_spec(base@, a@.drop_first()),
                ));
                i = i + 1;
                continue ;
            }
        }
        if has_suffix(a.as_slice(), swift.as_slice()) {
            files.push(join_path(base, words[i].as_str()));
            assert(string_views(files@) =~= string_views(fb).push(join_spec(base@, a@)));
        } else if has_suffix(a.as_slice(), list.as_slice()) {
            lists.push(join_path(base, words[i].as_str()));
            assert(string_views(lists@) =~= string_views(lb).push(join_spec(base@, a@)));
        }
        i = i + 1;
    }
    assert(wv.take(words@.len() as int) =~= wv);
    (files, lists)
}

/// Collect Swift sources and `@...SwiftFileList` references from a compiler command.
pub fn extract_files(command: &str, base: &str) -> (out: (Vec<String>, Vec<String>))
    ensures
        (string_views(out.0@), string_views(out.1@)) == extract_spec(
            words_or_empty(shlex_words(command@)),
            base@,
        ),
{
    let words = match shell_split(command) {
        Some(w) => w,
        None => Vec::new(),
    };
    assert(string_views(words@) =~= words_or_empty(shlex_words(command@)));
    files_from_words(&words, base)
}

/// The argument of the first `cd` line among `lines[start..end]`.
fn find_cd_arg(lines: &[String], start: usize, end: usize) -> (out: Option<String>)
    requires
        start <= end <= lines@.len(),
    ensures
        match (out, cd_arg(string_views(lines@).subrange(start as int, end as int))) {
            (None, None) => true,
            (Some(a), Some(b)) => a@ == b,
            _ => false,
        },
{
    let ghost all = string_views(lines@);
    let cd = chars_of("cd ");
    let mut j: usize = start;
    while j < end
        invariant
            start <= j <= end <= lines@.len(),
            all == string_views(lines@),
            cd@ == "cd "@,
            cd_arg(all.subrange(start as int, end as int)) == cd_arg(
                all.subrange(j as int, end as int),
            ),
        decreases end - j,
    {
        let ghost sec = all.subrange(j as int, end as int);
        assert(sec[0] == lines@[j as int]@);
        assert(sec.drop_first() =~= all.subrange(j + 1, end as int));
        let lc = chars_of(lines[j].as_str());
        let t = trim_chars(lc.as_slice());
        if has_prefix(t.as_slice(), cd.as_slice()) {
            return Some(string_of_range(t.as_slice(), cd.len(), t.len()));
        }
        j = j + 1;
    }
    None
}

/// Parse one Swift build section `lines[start..end]`, preferring the full driver
/// command when available.
pub fn parse_swift_section(lines: &[String], start: usize, end: usize, cwd: &str) -> (out: Option<
    SwiftCompileUnit,
>)
    requires
        start <= end <= lines@.len(),
    ensures
        match (out, section_spec(string_views(lines@).subrange(start as int, end as int), cwd@)) {
            (None, None) => true,
            (Some(u), Some(v)) => u.view() == v,
            _ => false,
        },
{
    let ghost sec = string_views(lines@).subrange(start as int, end as int);
    if start == end {
        return None;
    }
    assert(sec[0] == lines@[start as int]@);
    assert(sec.last() == lines@[end - 1]@);
    let header = chars_of(lines[start].as_str());
    let last = chars_of(lines[end - 1].as_str());
    let cmd0 = trim_chars(last.as_slice());
    let p_driver = chars_of("SwiftDriver ");
    let p_driver_comp = chars_of("SwiftDriver\\ Compilation ");
    let p_compile = chars_of("CompileSwiftSources ");
    let p_swift_comp = chars_of("builtin-Swift-Compilation -- ");
    let p_swift_driver = chars_of("builtin-SwiftDriver -- ");
    let command: String;
    if has_prefix(header.as_slice(), p_driver.as_slice()) || has_prefix(
        header.as_slice(),
        p_driver_comp.as_slice(),
    ) {
        if has_prefix(cmd0.as_slice(), p_swift_comp.as_slice()) {
            command = string_of_range(cmd0.as_slice(), p_swift_comp.len(), cmd0.len());
        } else if has_prefix(cmd0.as_slice(), p_swift_driver.as_slice()) {
            command = string_of_range(cmd0.as_slice(), p_swift_driver.len(), cmd0.len());
        } else {
            return None;
        }
    } else if !has_prefix(header.as_slice(), p_compile.as_slice()) {
        return None;
    } else {
        command = string_of_range(cmd0.as_slice(), 0, cmd0.len());
        assert(command@ =~= cmd0@);
    }
    let directory = match find_cd_arg(lines, start, end) {
        Some(raw) => directory_from_cd_words(shell_split(raw.as_str()), cwd),
        None => owned(cwd),
    };
    let (files, file_lists) = extract_files(command.as_str(), directory.as_str());
    Some(SwiftCompileUnit { directory, command, files, file_lists })
}

/// Convert extracted Xcode log lines into the Swift compile database. `cwd` is the
/// current directory, used for sections that name none.
pub fn parse_compile_db(lines: &[String], cwd: &str) -> (out: CompileDb)
    ensures
        out.version == 1,
        units_view(out.swift_units@) == parse_from(string_views(lines@), 0, cwd@),
{
    let ghost all = string_views(lines@);
    let mut units: Vec<SwiftCompileUnit> = Vec::new();
    let mut i: usize = 0;
    while i < lines.len()
        invariant
            i <= lines@.len(),
            all == string_views(lines@),
            units_view(units@) + parse_from(all, i as int, cwd@) == parse_from(all, 0, cwd@),
        decreases lines@.len() - i,
    {
        assert(all[i as int] == lines@[i as int]@);
        let line = chars_of(lines[i].as_str());
        let p_compile = chars_of("CompileSwiftSources ");
        let p_driver = chars_of("SwiftDriver ");
        let p_driver_comp = chars_of("SwiftDriver\\ Compilation ");
        if !has_prefix(line.as_slice(), p_compile.as_slice()) && !has_prefix(
            line.as_slice(),
            p_driver.as_slice(),
        ) && !has_prefix(line.as_slice(), p_driver_comp.as_slice()) {
            i = i + 1;
            continue ;
        }
        let start = i;
        while i < lines.len() && !lines[i].as_str().is_empty()
            invariant
                start <= i <= lines@.len(),
                all == string_views(lines@),
                section_end(all, start as int) == section_end(all, i as int),
            decreases lines@.len() - i,
        {
            proof {
                assert(all[i as int] == lines@[i as int]@);
                assert(lines@[i as int]@.len() != 0) by {
                    if lines@[i as int]@.len() == 0 {
                        assert(lines@[i as int]@ =~= Seq::<char>::empty());
                    }
                }
            }
            i = i + 1;
        }
        proof {
            if i < lines@.len() {
                assert(all[i as int] == lines@[i as int]@);
                assert(lines@[i as int]@.len() == 0);
            }
            assert(section_end(all, i as int) == i);
            reveal_strlit("CompileSwiftSources ");
            reveal_strlit("SwiftDriver ");
            reveal_strlit("SwiftDriver\\ Compilation ");
            assert(all[start as int].len() > 0);
            assert(i > start);
        }
        let ghost before = units_view(units@);
        proof {
            assert(is_header(all[start as int]));
            let rest = parse_from(all, i + 1, cwd@);
            assert(parse_from(all, start as int, cwd@) == match section_spec(
                all.subrange(start as int, i as int),
                cwd@,
            ) {
                Some(u) => seq![u] + rest,
                None => rest,
            });
            if i == lines@.len() {
                assert(parse_from(all, i + 1, cwd@) == Seq::<UnitView>::empty());
                assert(parse_from(all, i as int, cwd@) == Seq::<UnitView>::empty());
            }
        }
        match parse_swift_section(lines, start, i, cwd) {
            Some(unit) => {
                units.push(unit);
                assert(units_view(units@) =~= before.push(unit.view()));
            },
            None => {},
        }
        i = if i < lines.len() {
            i + 1
        } else {
            i
        };
    }
    assert(parse_from(all, i as int, cwd@) =~= Seq::<UnitView>::empty());
    CompileDb::new(units)
}

/// With an empty line at or after `j` in `a`, the section from `j` ends in `a`
/// whatever follows it.
proof fn lemma_section_end_prefix(a: Seq<Seq<char>>, b: Seq<Seq<char>>, j: int, z: int)
    requires
        0 <= j <= z < a.len(),
        a[z].len() == 0,
    ensures
        section_end(a + b, j) == section_end(a, j),
        section_end(a, j) <= z,
    decreases z - j,
{
    assert((a + b)[j] == a[j]);
    if a[j].len() != 0 {
        lemma_section_end_prefix(a, b, j + 1, z);
    }
}

proof fn lemma_section_end_shift(p: Seq<Seq<char>>, b: Seq<Seq<char>>, k: int)
    requires
        0 <= k,
    ensures
        section_end(p + b, p.len() + k) == p.len() + section_end(b, k),
    decreases b.len() - k,
{
    if k < b.len() {
        assert((p + b)[p.len() + k] == b[k]);
        if b[k].len() != 0 {
            lemma_section_end_shift(p, b, k + 1);
        }
    }
}

/// The units found after a prefix are those of what follows it.
proof fn lemma_parse_shift(p: Seq<Seq<char>>, b: Seq<Seq<char>>, k: int, cwd: Seq<char>)
    requires
        0 <= k,
    ensures
        parse_from(p + b, p.len() + k, cwd) == parse_from(b, k, cwd),
    decreases b.len() + 1 - k,
{
    let d = p + b;
    let i = p.len() + k;
    if k < b.len() {
        assert(d[i] == b[k]);
        if !is_header(b[k]) {
            lemma_parse_shift(p, b, k + 1, cwd);
        } else {
            lemma_section_end_shift(p, b, k);
            lemma_section_end(b, k);
            let e = section_end(b, k);
            if e > k {
                assert(d.subrange(i, p.len() + e) =~= b.subrange(k, e));
                lemma_parse_shift(p, b, e + 1, cwd);
            }
        }
    }
}

proof fn lemma_parse_concat_from(a: Seq<Seq<char>>, b: Seq<Seq<char>>, i: int, cwd: Seq<char>)
    requires
        0 <= i <= a.len(),
        a.len() == 0 || a.last().len() == 0,
    ensures
        parse_from(a + b, i, cwd) == parse_from(a, i, cwd) + parse_from(b, 0, cwd),
    decreases a.len() - i,
{
    let d = a + b;
    if i == a.len() {
        lemma_parse_shift(a, b, 0, cwd);
        assert(parse_from(a, i, cwd) + parse_from(b, 0, cwd) =~= parse_from(b, 0, cwd));
    } else {
        assert(d[i] == a[i]);
        if !is_header(a[i]) {
            lemma_parse_concat_from(a, b, i + 1, cwd);
        } else {
            lemma_section_end_prefix(a, b, i, a.len() - 1);
            lemma_section_end(a, i);
            let e = section_end(a, i);
            assert(a[i].len() > 0) by {
                reveal_strlit("CompileSwiftSources ");
                reveal_strlit("SwiftDriver ");
                reveal_strlit("SwiftDriver\\ Compilation ");
            }
            assert(e > i);
            assert(d.subrange(i, e) =~= a.subrange(i, e));
            lemma_parse_concat_from(a, b, e + 1, cwd);
            match section_spec(a.subrange(i, e), cwd) {
                Some(u) => {
                    assert(seq![u] + parse_from(a, e + 1, cwd) + parse_from(b, 0, cwd) =~= seq![u]
                        + (parse_from(a, e + 1, cwd) + parse_from(b, 0, cwd)));
                },
                None => {},
            }
        }
    }
}

/// A log made of two parts joined after an empty line parses as the two parts'
/// units, joined.
pub proof fn lemma_parse_of_concat(a: Seq<Seq<char>>, b: Seq<Seq<char>>, cwd: Seq<char>)
    requires
        a.len() == 0 || a.last().len() == 0,
    ensures
        parse_from(a + b, 0, cwd) == parse_from(a, 0, cwd) + parse_from(b, 0, cwd),
{
    lemma_parse_concat_from(a, b, 0, cwd);
}

/// A Swift driver section runs the `swiftc` command behind its launcher: when
/// the (trimmed) last line is `builtin-Swift-Compilation -- ` or
/// `builtin-SwiftDriver -- ` followed by `c`, the section's unit has command `c`.
pub proof fn lemma_driver_command_drops_launcher(
    sec: Seq<Seq<char>>,
    cwd: Seq<char>,
    launcher: Seq<char>,
    c: Seq<char>,
)
    requires
        sec.len() > 0,
        starts_with(sec[0], "SwiftDriver "@) || starts_with(sec[0], "SwiftDriver\\ Compilation "@),
        launcher == "builtin-Swift-Compilation -- "@ || launcher == "builtin-SwiftDriver -- "@,
        trim(sec.last()) == launcher + c,
    ensures
        section_spec(sec, cwd) matches Some(u) && u.command == c,
{
    reveal_strlit("builtin-Swift-Compilation -- ");
    reveal_strlit("builtin-SwiftDriver -- ");
    let l = launcher + c;
    assert(l.take(launcher.len() as int) =~= launcher);
    assert(l.skip(launcher.len() as int) =~= c);
    if launcher == "builtin-SwiftDriver -- "@ {
        assert(l[13] == 'D');
        assert("builtin-Swift-Compilation -- "@[13] == '-');
        assert(!starts_with(l, "builtin-Swift-Compilation -- "@)) by {
            if starts_with(l, "builtin-Swift-Compilation -- "@) {
                assert(l.take(29)[13] == l[13]);
            }
        }
    }
}

} // verus!
