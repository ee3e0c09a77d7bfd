//! The Swift compile database and the per-file compiler-argument query.
use vstd::prelude::*;

use crate::shell::{shell_split, shlex_words, words_view};
use crate::text::{
    ascii_lower, chars_of, is_newline, lowercase_of, owned, split_by, split_chars, string_of, string_of_range,
    string_views, to_lowercase, trim, trim_chars, vviews,
};

verus! {

/// One Swift compiler invocation plus the files it covers.
#[derive(Debug, Clone)]
pub struct SwiftCompileUnit {
    pub directory: String,
    pub command: String,
    pub files: Vec<String>,
    pub file_lists: Vec<String>,
}

/// On-disk compile metadata consumed by the BSP server.
#[derive(Debug, Clone)]
pub struct CompileDb {
    pub version: u32,
    pub swift_units: Vec<SwiftCompileUnit>,
}

/// The mathematical form of a `SwiftCompileUnit`.
pub struct UnitView {
    pub directory: Seq<char>,
    pub command: Seq<char>,
    pub files: Seq<Seq<char>>,
    pub file_lists: Seq<Seq<char>>,
}

pub open spec fn units_view(v: Seq<SwiftCompileUnit>) -> Seq<UnitView> {
    v.map_values(|u: SwiftCompileUnit| u.view())
}

impl SwiftCompileUnit {
    pub open spec fn view(&self) -> UnitView {
        UnitView {
            directory: self.directory@,
            command: self.command@,
            files: string_views(self.files@),
            file_lists: string_views(self.file_lists@),
        }
    }

    /// A copy of the unit.
    pub fn duplicate(&self) -> (out: SwiftCompileUnit)
        ensures
            out.directory@ == self.directory@,
            out.command@ == self.command@,
            out.files@ == self.files@,
            out.file_lists@ == self.file_lists@,
    {
        SwiftCompileUnit {
            directory: self.directory.clone(),
            command: self.command.clone(),
            files: self.files.clone(),
            file_lists: self.file_lists.clone(),
        }
    }
}

impl CompileDb {
    /// A database of format version 1 holding `swift_units`.
    pub fn new(swift_units: Vec<SwiftCompileUnit>) -> (db: Self)
        ensures
            db.version == 1,
            db.swift_units == swift_units,
    {
        CompileDb { version: 1, swift_units }
    }
}

/// One element of a filtered argument list: a plain argument, or the path of an
/// argument file whose entries stand in its place.
#[derive(Debug, Clone)]
pub enum ArgPiece {
    Arg(String),
    Expand(String),
}

/// The mathematical form of an `ArgPiece`.
pub enum PieceView {
    Arg(Seq<char>),
    Expand(Seq<char>),
}

impl ArgPiece {
    pub open spec fn view(&self) -> PieceView {
        match self {
            ArgPiece::Arg(a) => PieceView::Arg(a@),
            ArgPiece::Expand(p) => PieceView::Expand(p@),
        }
    }
}

pub open spec fn pieces_view(v: Seq<ArgPiece>) -> Seq<PieceView> {
    v.map_values(|p: ArgPiece| p.view())
}

/// What `filter_arguments` does to an argument list: drop the flags that break
/// sourcekit-lsp (with the value of `-emit-localized-strings-path`), and replace
/// `-filelist PATH` and `@PATH` by a reference to the argument file `PATH`.
pub open spec fn filter_spec(args: Seq<Seq<char>>) -> Seq<PieceView>
    decreases args.len(),
{
    if args.len() == 0 {
        Seq::empty()
    } else {
        let a = args[0];
        let rest = args.drop_first();
        if a == "-emit-localized-strings-path"@ {
            if rest.len() == 0 {
                Seq::empty()
            } else {
                filter_spec(rest.drop_first())
            }
        } else if a == "-use-frontend-parseable-output"@ || a == "-emit-localized-strings"@ {
            filter_spec(rest)
        } else if a == "-filelist"@ {
            if rest.len() == 0 {
                Seq::empty()
            } else {
                seq![PieceView::Expand(rest[0])] + filter_spec(rest.drop_first())
            }
        } else if a.len() > 0 && a[0] == '@' {
            seq![PieceView::Expand(a.drop_first())] + filter_spec(rest)
        } else {
            seq![PieceView::Arg(a)] + filter_spec(rest)
        }
    }
}

/// Filter a compiler argument list for sourcekit-lsp (see `filter_spec`).
pub fn filter_arguments(args: Vec<String>) -> (out: Vec<ArgPiece>)
    ensures
        pieces_view(out@) == filter_spec(string_views(args@)),
{
    let ghost all = string_views(args@);
    let lit_path = owned("-emit-localized-strings-path");
    let lit_parseable = owned("-use-frontend-parseable-output");
    let lit_strings = owned("-emit-localized-strings");
    let lit_filelist = owned("-filelist");
    let mut out: Vec<ArgPiece> = Vec::new();
    let mut i: usize = 0;
    assert(all.skip(0) =~= all);
    assert(pieces_view(out@) =~= Seq::<PieceView>::empty());
    while i < args.len()
        invariant
            i <= args@.len(),
            all == string_views(args@),
            lit_path@ == "-emit-localized-strings-path"@,
            lit_parseable@ == "-use-frontend-parseable-output"@,
            lit_strings@ == "-emit-localized-strings"@,
            lit_filelist@ == "-filelist"@,
            pieces_view(out@) + filter_spec(all.skip(i as int)) == filter_spec(all),
        decreases args@.len() - i,
    {
        let ghost rest = all.skip(i as int);
        assert(rest[0] == args@[i as int]@);
        assert(rest.drop_first() =~= all.skip(i + 1));
        let ghost old_out = pieces_view(out@);
        let arg = &args[i];
        if *arg == lit_path {
            if i + 1 < args.len() {
                assert(rest.drop_first().drop_first() =~= all.skip(i + 2));
                i = i + 2;
            } else {
                assert(all.skip(i + 1).len() == 0);
                i = i + 1;
                assert(all.skip(i as int) =~= Seq::<Seq<char>>::empty());
            }
        } else if *arg == lit_parseable || *arg == lit_strings {
            i = i + 1;
        } else if *arg == lit_filelist {
            if i + 1 < args.len() {
                let p = args[i + 1].clone();
                out.push(ArgPiece::Expand(p));
                assert(pieces_view(out@) =~= old_out.push(PieceView::Expand(rest[1])));
                assert(rest.drop_first().drop_first() =~= all.skip(i + 2));
                assert(seq![PieceView::Expand(rest[1])] + filter_spec(all.skip(i + 2))
                    =~= filter_spec(rest));
                assert(old_out + filter_spec(rest) =~= pieces_view(out@) + filter_spec(
                    all.skip(i + 2),
                ));
                i = i + 2;
            } else {
                i = i + 1;
                assert(all.skip(i as int) =~= Seq::<Seq<char>>::empty());
            }
        } else {
            let cs = chars_of(arg.as_str());
            if cs.len() > 0 && cs[0] == '@' {
                let p = string_of_range(cs.as_slice(), 1, cs.len());
                assert(p@ =~= rest[0].drop_first());
                out.push(ArgPiece::Expand(p));
                assert(pieces_view(out@) =~= old_out.push(PieceView::Expand(p@)));
                assert(old_out + filter_spec(rest) =~= pieces_view(out@) + filter_spec(
                    all.skip(i + 1),
                ));
            } else {
                let a = arg.clone();
                out.push(ArgPiece::Arg(a));
                assert(pieces_view(out@) =~= old_out.push(PieceView::Arg(rest[0])));
                assert(old_out + filter_spec(rest) =~= pieces_view(out@) + filter_spec(
                    all.skip(i + 1),
                ));
            }
            i = i + 1;
        }
    }
    assert(all.skip(i as int) =~= Seq::<Seq<char>>::empty());
    assert(pieces_view(out@) + Seq::<PieceView>::empty() =~= pieces_view(out@));
    out
}

/// The arguments of a logged command: its words without the first one (the
/// compiler path), filtered; no words at all where the words cannot be split.
pub open spec fn command_pieces(words: Option<Seq<Seq<char>>>) -> Seq<PieceView> {
    match words {
        Some(w) => if w.len() > 0 {
            filter_spec(w.drop_first())
        } else {
            filter_spec(w)
        },
        None => filter_spec(Seq::empty()),
    }
}

/// The filtered arguments of a command, given the command's split words.
pub fn pieces_from_words(words: Option<Vec<String>>) -> (out: Vec<ArgPiece>)
    ensures
        pieces_view(out@) == command_pieces(words_view(words)),
{
    let mut args = match words {
        Some(w) => w,
        None => Vec::new(),
    };
    if args.len() > 0 {
        let ghost before = args@;
        args.remove(0);
        assert(string_views(args@) =~= string_views(before).drop_first());
    }
    filter_arguments(args)
}

/// Convert a logged compiler command into sourcekit-lsp-friendly arguments.
pub fn command_to_arguments(command: &str) -> (out: Vec<ArgPiece>)
    ensures
        pieces_view(out@) == command_pieces(shlex_words(command@)),
{
    let words = shell_split(command);
    pieces_from_words(words)
}

/// The entries of an argument file: its shell words where it splits, else its
/// trimmed non-empty lines.
pub open spec fn args_file_spec(content: Seq<char>) -> Seq<Seq<char>> {
    match shlex_words(content) {
        Some(w) => w,
        None => nonempty_trimmed(split_by(content, |c: char| is_newline(c))),
    }
}

/// The trimmed forms of `lines` that are not empty.
pub open spec fn nonempty_trimmed(lines: Seq<Seq<char>>) -> Seq<Seq<char>>
    decreases lines.len(),
{
    if lines.len() == 0 {
        Seq::empty()
    } else {
        let init = nonempty_trimmed(lines.drop_last());
        if trim(lines.last()).len() > 0 {
            init.push(trim(lines.last()))
        } else {
            init
        }
    }
}

/// The lines case of an argument file: trimmed, non-empty lines.
pub fn line_entries(content: &str) -> (out: Vec<String>)
    ensures
        string_views(out@) == nonempty_trimmed(split_by(content@, |c: char| is_newline(c))),
{
    let cs = chars_of(content);
    let lines = split_chars(cs.as_slice(), 0);
    let ghost all = vviews(lines@);
    let mut out: Vec<String> = Vec::new();
    let mut i: usize = 0;
    while i < lines.len()
        invariant
            i <= lines@.len(),
            all == vviews(lines@),
            string_views(out@) == nonempty_trimmed(all.take(i as int)),
        decreases lines@.len() - i,
    {
        assert(all.take(i + 1).drop_last() =~= all.take(i as int));
        assert(all.take(i + 1).last() == lines@[i as int]@);
        let t = trim_chars(lines[i].as_slice());
        if t.len() > 0 {
            let ghost before = out@;
            out.push(string_of(t.as_slice()));
            assert(string_views(out@) =~= string_views(before).push(t@));
        }
        i = i + 1;
    }
    assert(all.take(lines@.len() as int) =~= all);
    out
}

/// Parse the content of an argument file (`.SwiftFileList` or a response file).
pub fn args_file_entries(content: &str) -> (out: Vec<String>)
    ensures
        string_views(out@) == args_file_spec(content@),
{
    match shell_split(content) {
        Some(w) => w,
        None => line_entries(content),
    }
}

/// The argument list that the pieces stand for, where `expansions[j]` holds the
/// entries of the argument file of piece `j` (no entries where it is missing).
pub open spec fn expand_spec(pieces: Seq<PieceView>, expansions: Seq<Seq<Seq<char>>>) -> Seq<
    Seq<char>,
>
    decreases pieces.len(),
{
    if pieces.len() == 0 {
        Seq::empty()
    } else {
        let j = pieces.len() - 1;
        let init = expand_spec(pieces.drop_last(), expansions);
        match pieces.last() {
            PieceView::Arg(a) => init.push(a),
            PieceView::Expand(_) => if j < expansions.len() {
                init + expansions[j]
            } else {
                init
            },
        }
    }
}

pub open spec fn expansions_view(e: Seq<Vec<String>>) -> Seq<Seq<Seq<char>>> {
    e.map_values(|v: Vec<String>| string_views(v@))
}

/// Replace each argument-file reference by the entries read from that file.
pub fn expand_arguments(pieces: &Vec<ArgPiece>, expansions: &Vec<Vec<String>>) -> (out: Vec<
    String,
>)
    ensures
        string_views(out@) == expand_spec(pieces_view(pieces@), expansions_view(expansions@)),
{
    let ghost pv = pieces_view(pieces@);
    let ghost ev = expansions_view(expansions@);
    let mut out: Vec<String> = Vec::new();
    let mut i: usize = 0;
    while i < pieces.len()
        invariant
            i <= pieces@.len(),
            pv == pieces_view(pieces@),
            ev == expansions_view(expansions@),
            string_views(out@) == expand_spec(pv.take(i as int), ev),
        decreases pieces@.len() - i,
    {
        assert(pv.take(i + 1).drop_last() =~= pv.take(i as int));
        assert(pv.take(i + 1).last() == pieces@[i as int].view());
        match &pieces[i] {
            ArgPiece::Arg(a) => {
                let ghost before = out@;
                out.push(a.clone());
                assert(string_views(out@) =~= string_views(before).push(a@));
            },
            ArgPiece::Expand(_) => {
                if i < expansions.len() {
                    let e = &expansions[i];
                    let mut k: usize = 0;
                    let ghost base = string_views(out@);
                    while k < e.len()
                        invariant
                            k <= e@.len(),
                            string_views(out@) == base + string_views(e@).take(k as int),
                        decreases e@.len() - k,
                    {
                        let ghost before = out@;
                        out.push(e[k].clone());
                        assert(string_views(out@) =~= string_views(before).push(e@[k as int]@));
                        assert(string_views(e@).take(k + 1) =~= string_views(e@).take(
                            k as int,
                        ).push(e@[k as int]@));
                        k = k + 1;
                    }
                    assert(string_views(e@).take(e@.len() as int) =~= string_views(e@));
                    assert(ev[i as int] == string_views(e@));
                }
            },
        }
        i = i + 1;
    }
    assert(pv.take(pieces@.len() as int) =~= pv);
    out
}

/// The value after the first `-working-directory` flag that has one.
pub open spec fn working_dir_flag(flags: Seq<Seq<char>>) -> Option<Seq<char>>
    decreases flags.len(),
{
    if flags.len() < 2 {
        None
    } else if flags[0] == "-working-directory"@ {
        Some(flags[1])
    } else {
        working_dir_flag(flags.drop_first())
    }
}

/// The working directory of a query: the `-working-directory` value, else the
/// unit's directory.
pub open spec fn workdir_spec(flags: Seq<Seq<char>>, directory: Seq<char>) -> Seq<char> {
    match working_dir_flag(flags) {
        Some(d) => d,
        None => directory,
    }
}

/// The working directory for a compiler invocation with `flags`, run from `directory`.
pub fn working_directory(flags: &Vec<String>, directory: &str) -> (out: String)
    ensures
        out@ == workdir_spec(string_views(flags@), directory@),
{
    let ghost fv = string_views(flags@);
    let lit = owned("-working-directory");
    let mut i: usize = 0;
    assert(fv.skip(0) =~= fv);
    while flags.len() >= 2 && i < flags.len() - 1
        invariant
            i <= flags@.len(),
            fv == string_views(flags@),
            lit@ == "-working-directory"@,
            working_dir_flag(fv) == working_dir_flag(fv.skip(i as int)),
        decreases flags@.len() - i,
    {
        let ghost rest = fv.skip(i as int);
        assert(rest[0] == flags@[i as int]@);
        assert(rest[1] == flags@[i + 1]@);
        if flags[i] == lit {
            return flags[i + 1].clone();
        }
        assert(rest.drop_first() =~= fv.skip(i + 1));
        i = i + 1;
    }
    assert(fv.skip(i as int).len() < 2);
    owned(directory)
}

/// The normalized lookup key of a path that has already been resolved on disk:
/// its lowercase form, so that lookups ignore case as case-insensitive file
/// systems do.
pub fn normalize_for_lookup(resolved_path: &str) -> (out: String)
    ensures
        out@ == lowercase_of(resolved_path@),
        (forall|i: int| 0 <= i < resolved_path@.len() ==> (#[trigger] resolved_path@[i]) < '\u{80}')
            ==> out@ == resolved_path@.map_values(|c: char| ascii_lower(c)),
{
    to_lowercase(resolved_path)
}

/// The lookup keys of resolved paths, in order: each path's key.
pub fn lookup_keys(resolved: &Vec<String>) -> (out: Vec<String>)
    ensures
        out@.len() == resolved@.len(),
        forall|i: int| 0 <= i < resolved@.len() ==> (#[trigger] out@[i])@ == lowercase_of(resolved@[i]@),
{
    let mut out: Vec<String> = Vec::new();
    let mut i: usize = 0;
    while i < resolved.len()
        invariant
            i <= resolved@.len(),
            out@.len() == i,
            forall|k: int| 0 <= k < i ==> (#[trigger] out@[k])@ == lowercase_of(resolved@[k]@),
        decreases resolved@.len() - i,
    {
        out.push(normalize_for_lookup(resolved[i].as_str()));
        i = i + 1;
    }
    out
}

/// The lookup data of a unit: the keys of its inline files followed by those of
/// the entries of its file lists (all resolved on disk), and the entries read
/// for each argument-file reference of its command.
pub fn unit_lookup(
    files: &Vec<String>,
    list_entries: &Vec<String>,
    expansions: Vec<Vec<String>>,
) -> (out: UnitLookup)
    ensures
        string_views(out.keys@) == files@.map_values(|f: String| lowercase_of(f@)) + list_entries@.map_values(
            |f: String| lowercase_of(f@),
        ),
        out.expansions@ == expansions@,
{
    let mut keys = lookup_keys(files);
    let mut more = lookup_keys(list_entries);
    let ghost a = keys@;
    let ghost b = more@;
    keys.append(&mut more);
    assert(string_views(keys@) =~= files@.map_values(|f: String| lowercase_of(f@)) + list_entries@.map_values(
        |f: String| lowercase_of(f@),
    ));
    UnitLookup { keys, expansions }
}

/// The lookup data of one unit: the keys of the files it covers (inline and
/// through file lists) and, for each argument-file reference of its command, the
/// entries read from that file.
#[derive(Debug, Clone)]
pub struct UnitLookup {
    pub keys: Vec<String>,
    pub expansions: Vec<Vec<String>>,
}

/// The index of the last unit (among the first `n`) whose keys hold `key`: later
/// units take precedence, as inserting them later into the file index does.
pub open spec fn last_unit_with(keys: Seq<Seq<Seq<char>>>, key: Seq<char>, n: int) -> Option<int>
    decreases n,
{
    if n <= 0 {
        None
    } else if keys[n - 1].contains(key) {
        Some(n - 1)
    } else {
        last_unit_with(keys, key, n - 1)
    }
}

pub open spec fn lookup_keys_view(l: Seq<UnitLookup>) -> Seq<Seq<Seq<char>>> {
    l.map_values(|u: UnitLookup| string_views(u.keys@))
}

/// The flags and working directory that a query answers for unit `i`.
pub open spec fn unit_answer(
    unit: SwiftCompileUnit,
    expansions: Seq<Seq<Seq<char>>>,
) -> (Seq<Seq<char>>, Seq<char>) {
    let flags = expand_spec(command_pieces(shlex_words(unit.command@)), expansions);
    (flags, workdir_spec(flags, unit.directory@))
}

/// What a query answers: the arguments and working directory of the last unit
/// that covers the file, or nothing.
pub open spec fn query_spec(
    units: Seq<SwiftCompileUnit>,
    lookups: Seq<UnitLookup>,
    key: Seq<char>,
) -> Option<(Seq<Seq<char>>, Seq<char>)> {
    let n = if units.len() < lookups.len() {
        units.len() as int
    } else {
        lookups.len() as int
    };
    match last_unit_with(lookup_keys_view(lookups), key, n) {
        None => None,
        Some(i) => Some(
            unit_answer(units[i], expansions_view(lookups[i].expansions@)),
        ),
    }
}

/// Whether a string vector holds `key`.
fn contains_key(keys: &Vec<String>, key: &String) -> (r: bool)
    ensures
        r == string_views(keys@).contains(key@),
{
    let mut i: usize = 0;
    while i < keys.len()
        invariant
            i <= keys@.len(),
            forall|j: int| 0 <= j < i ==> keys@[j]@ != key@,
        decreases keys@.len() - i,
    {
        if keys[i] == *key {
            assert(string_views(keys@)[i as int] == key@);
            return true;
        }
        i = i + 1;
    }
    assert forall|j: int| 0 <= j < string_views(keys@).len() implies string_views(keys@)[j]
        != key@ by {
        assert(string_views(keys@)[j] == keys@[j]@);
    }
    false
}

impl CompileDb {
    /// Look up compiler arguments for a source file. `lookups[i]` holds the lookup
    /// data of unit `i` and `key` the lookup key of the file.
    pub fn query(&self, lookups: &Vec<UnitLookup>, key: &String) -> (out: Option<
        (Vec<String>, String),
    >)
        ensures
            match (out, query_spec(self.swift_units@, lookups@, key@)) {
                (None, None) => true,
                (Some((f, w)), Some((sf, sw))) => string_views(f@) == sf && w@ == sw,
                _ => false,
            },
    {
        let n = if self.swift_units.len() < lookups.len() {
            self.swift_units.len()
        } else {
            lookups.len()
        };
        let ghost keys = lookup_keys_view(lookups@);
        let mut i: usize = n;
        while i > 0
            invariant
                i <= n <= lookups@.len(),
                n <= self.swift_units@.len(),
                n == self.swift_units@.len() || n == lookups@.len(),
                keys == lookup_keys_view(lookups@),
                last_unit_with(keys, key@, n as int) == last_unit_with(keys, key@, i as int),
            decreases i,
        {
            assert(keys[i - 1] == string_views(lookups@[i - 1].keys@));
            if contains_key(&lookups[i - 1].keys, key) {
                let unit = &self.swift_units[i - 1];
                let pieces = command_to_arguments(unit.command.as_str());
                let flags = expand_arguments(&pieces, &lookups[i - 1].expansions);
                let workdir = working_directory(&flags, unit.directory.as_str());
                proof {
                    assert(keys[i - 1].contains(key@));
                    assert(last_unit_with(keys, key@, i as int) == Some(i - 1));
                    let ua = unit_answer(
                        self.swift_units@[i - 1],
                        expansions_view(lookups@[i - 1].expansions@),
                    );
                    let sn = if self.swift_units@.len() < lookups@.len() {
                        self.swift_units@.len() as int
                    } else {
                        lookups@.len() as int
                    };
                    assert(sn == n as int);
                    assert(last_unit_with(keys, key@, sn) == Some(i - 1));
                    assert(query_spec(self.swift_units@, lookups@, key@) == Some(ua));
                    assert(string_views(flags@) == ua.0);
                    assert(workdir@ == ua.1);
                }
                return Some((flags, workdir));
            }
            i = i - 1;
        }
        None
    }
}

} // verus!
