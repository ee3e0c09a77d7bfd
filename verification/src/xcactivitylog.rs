//! Decoding of Xcode `.xcactivitylog` payloads (after decompression): the string
//! tokens of the SLF0 format and the Swift compile lines among them.
use vstd::prelude::*;

use crate::parser::is_header;
use crate::path::{components, components_of, join_path, join_spec, paths_equal};
use crate::text::{
    chars_of, has_prefix, is_line_break, split_by, split_chars, string_of, utf8_lossy,
    utf8_lossy_decode, vviews, string_views,
};

verus! {

/// Errors of the activity-log decoder.
#[derive(Debug, Clone, Copy, PartialEq, Eq, Structural)]
pub enum LogError {
    /// The data does not begin with the `SLF0` magic.
    NotActivityLog,
    /// No activity log was found for the build.
    NoLogFound,
}

/// The bytes that end the prefix of an SLF0 token.
pub open spec fn is_marker(b: u8) -> bool {
    b == 0x22 || b == 0x2d || b == 0x23 || b == 0x5e || b == 0x28 || b == 0x25 || b == 0x40 || b
        == 0x2a
}

/// Markers whose prefix is a byte length: `"` (a string), `%` and `*`.
pub open spec fn is_length_marker(b: u8) -> bool {
    b == 0x22 || b == 0x25 || b == 0x2a
}

/// Length of the UTF-8 encoding of a `White_Space` character at the start of `s`
/// (0 if none).
pub open spec fn ws_prefix_len(s: Seq<u8>) -> nat {
    if s.len() >= 1 && ((9 <= s[0] && s[0] <= 13) || s[0] == 32) {
        1
    } else if s.len() >= 2 && s[0] == 0xc2 && (s[1] == 0x85 || s[1] == 0xa0) {
        2
    } else if s.len() >= 3 && ws3(s[0], s[1], s[2]) {
        3
    } else {
        0
    }
}

/// Length of the UTF-8 encoding of a `White_Space` character at the end of `s`.
pub open spec fn ws_suffix_len(s: Seq<u8>) -> nat {
    let n = s.len() as int;
    if n >= 1 && ((9 <= s[n - 1] && s[n - 1] <= 13) || s[n - 1] == 32) {
        1
    } else if n >= 2 && s[n - 2] == 0xc2 && (s[n - 1] == 0x85 || s[n - 1] == 0xa0) {
        2
    } else if n >= 3 && ws3(s[n - 3], s[n - 2], s[n - 1]) {
        3
    } else {
        0
    }
}

/// The three-byte encodings of U+1680, U+2000..U+200A, U+2028, U+2029, U+202F,
/// U+205F and U+3000.
pub open spec fn ws3(a: u8, b: u8, c: u8) -> bool {
    ||| (a == 0xe1 && b == 0x9a && c == 0x80)
    ||| (a == 0xe2 && b == 0x80 && ((0x80 <= c && c <= 0x8a) || c == 0xa8 || c == 0xa9 || c
        == 0xaf))
    ||| (a == 0xe2 && b == 0x81 && c == 0x9f)
    ||| (a == 0xe3 && b == 0x80 && c == 0x80)
}

/// `s` without leading whitespace encodings.
pub open spec fn strip_lead(s: Seq<u8>) -> Seq<u8>
    decreases s.len(),
{
    let k = ws_prefix_len(s);
    if k > 0 && k <= s.len() {
        strip_lead(s.skip(k as int))
    } else {
        s
    }
}

/// `s` without trailing whitespace encodings.
pub open spec fn strip_trail(s: Seq<u8>) -> Seq<u8>
    decreases s.len(),
{
    let k = ws_suffix_len(s);
    if k > 0 && k <= s.len() {
        strip_trail(s.take(s.len() - k))
    } else {
        s
    }
}

pub open spec fn is_digit(b: u8) -> bool {
    0x30 <= b && b <= 0x39
}

/// The value of a string of decimal digits.
pub open spec fn digits_value(d: Seq<u8>) -> nat
    decreases d.len(),
{
    if d.len() == 0 {
        0
    } else {
        digits_value(d.drop_last()) * 10 + (d.last() - 0x30) as nat
    }
}

/// The digits part of a number: the text after an optional leading `+`.
pub open spec fn unsigned_digits(t: Seq<u8>) -> Seq<u8> {
    if t.len() > 0 && t[0] == 0x2b {
        t.drop_first()
    } else {
        t
    }
}

/// Every byte of `d` is a decimal digit.
pub open spec fn all_digits(d: Seq<u8>) -> bool {
    forall|i: int| 0 <= i < d.len() ==> is_digit(#[trigger] d[i])
}

/// What `usize::from_str` accepts: an optional `+` and then one or more digits,
/// of a value that fits in `usize`.
pub open spec fn usize_from_str(t: Seq<u8>) -> Option<nat> {
    let d = unsigned_digits(t);
    if d.len() > 0 && all_digits(d) && digits_value(d) <= usize::MAX {
        Some(digits_value(d))
    } else {
        None
    }
}

/// The length that a token prefix gives: the prefix as UTF-8, trimmed of
/// whitespace, read as a `usize`.
pub open spec fn parse_number_spec(prefix: Seq<u8>) -> Option<nat> {
    usize_from_str(strip_trail(strip_lead(prefix)))
}

/// The index of the first marker at or after `pos` (or `data.len()`).
pub open spec fn next_marker(data: Seq<u8>, pos: int) -> int
    decreases data.len() - pos,
{
    if pos >= data.len() || is_marker(data[pos]) {
        pos
    } else {
        next_marker(data, pos + 1)
    }
}

pub proof fn lemma_next_marker(data: Seq<u8>, pos: int)
    requires
        0 <= pos <= data.len(),
    ensures
        pos <= next_marker(data, pos) <= data.len(),
        next_marker(data, pos) < data.len() ==> is_marker(data[next_marker(data, pos)]),
        forall|j: int| pos <= j < next_marker(data, pos) ==> !is_marker(#[trigger] data[j]),
    decreases data.len() - pos,
{
    if !(pos >= data.len() || is_marker(data[pos])) {
        lemma_next_marker(data, pos + 1);
    }
}

/// The string payloads of the SLF0 token stream from `pos` on. Walking stops at
/// the first length that cannot be read or that runs past the end (a truncated log).
pub open spec fn tokens_from(data: Seq<u8>, pos: int) -> Seq<Seq<u8>>
    decreases data.len() - pos,
{
    if pos < 0 || pos >= data.len() {
        Seq::empty()
    } else {
        let m = next_marker(data, pos);
        proof {
            lemma_next_marker(data, pos);
        }
        if m >= data.len() {
            Seq::empty()
        } else if is_length_marker(data[m]) {
            match parse_number_spec(data.subrange(pos, m)) {
                None => Seq::empty(),
                Some(n) => {
                    let start = m + 1;
                    let end = start + n;
                    if end > data.len() {
                        Seq::empty()
                    } else {
                        let rest = tokens_from(data, end);
                        if data[m] == 0x22 {
                            seq![data.subrange(start, end)] + rest
                        } else {
                            rest
                        }
                    }
                },
            }
        } else {
            tokens_from(data, m + 1)
        }
    }
}

fn ws_prefix_len_exec(data: &[u8], from: usize, to: usize) -> (k: usize)
    requires
        from <= to <= data@.len(),
    ensures
        k == ws_prefix_len(data@.subrange(from as int, to as int)),
{
    let ghost s = data@.subrange(from as int, to as int);
    let n = to - from;
    if n >= 1 && ((9 <= data[from] && data[from] <= 13) || data[from] == 32) {
        assert(s[0] == data@[from as int]);
        1
    } else if n >= 2 && data[from] == 0xc2 && (data[from + 1] == 0x85 || data[from + 1] == 0xa0) {
        assert(s[0] == data@[from as int] && s[1] == data@[from + 1]);
        2
    } else if n >= 3 && ws3_exec(data[from], data[from + 1], data[from + 2]) {
        assert(s[0] == data@[from as int] && s[1] == data@[from + 1] && s[2] == data@[from + 2]);
        3
    } else {
        proof {
            if n >= 1 {
                assert(s[0] == data@[from as int]);
            }
            if n >= 2 {
                assert(s[1] == data@[from + 1]);
            }
            if n >= 3 {
                assert(s[2] == data@[from + 2]);
            }
        }
        0
    }
}

fn ws_suffix_len_exec(data: &[u8], from: usize, to: usize) -> (k: usize)
    requires
        from <= to <= data@.len(),
    ensures
        k == ws_suffix_len(data@.subrange(from as int, to as int)),
{
    let ghost s = data@.subrange(from as int, to as int);
    let n = to - from;
    proof {
        if n >= 1 {
            assert(s[n - 1] == data@[to - 1]);
        }
        if n >= 2 {
            assert(s[n - 2] == data@[to - 2]);
        }
        if n >= 3 {
            assert(s[n - 3] == data@[to - 3]);
        }
    }
    if n >= 1 && ((9 <= data[to - 1] && data[to - 1] <= 13) || data[to - 1] == 32) {
        1
    } else if n >= 2 && data[to - 2] == 0xc2 && (data[to - 1] == 0x85 || data[to - 1] == 0xa0) {
        2
    } else if n >= 3 && ws3_exec(data[to - 3], data[to - 2], data[to - 1]) {
        3
    } else {
        0
    }
}

fn ws3_exec(a: u8, b: u8, c: u8) -> (r: bool)
    ensures
        r == ws3(a, b, c),
{
    (a == 0xe1 && b == 0x9a && c == 0x80) || (a == 0xe2 && b == 0x80 && ((0x80 <= c && c <= 0x8a)
        || c == 0xa8 || c == 0xa9 || c == 0xaf)) || (a == 0xe2 && b == 0x81 && c == 0x9f) || (a
        == 0xe3 && b == 0x80 && c == 0x80)
}

proof fn lemma_digits_value_monotone(d: Seq<u8>, j: int)
    requires
        0 <= j <= d.len(),
    ensures
        digits_value(d.take(j)) <= digits_value(d),
    decreases d.len() - j,
{
    if j < d.len() {
        lemma_digits_value_monotone(d, j + 1);
        assert(d.take(j + 1).drop_last() =~= d.take(j));
        let v = digits_value(d.take(j));
        assert(v * 10 >= v) by (nonlinear_arith);
    } else {
        assert(d.take(j) =~= d);
    }
}

/// Read the length prefix `data[from..to]` of a token (see `parse_number_spec`).
pub fn parse_number(data: &[u8], from: usize, to: usize) -> (out: Option<usize>)
    requires
        from <= to <= data@.len(),
    ensures
        match (out, parse_number_spec(data@.subrange(from as int, to as int))) {
            (Some(n), Some(m)) => n == m,
            (None, None) => true,
            _ => false,
        },
{
    let ghost s = data@.subrange(from as int, to as int);
    let mut a = from;
    while ws_prefix_len_exec(data, a, to) > 0
        invariant
            from <= a <= to <= data@.len(),
            strip_lead(s) == strip_lead(data@.subrange(a as int, to as int)),
        decreases to - a,
    {
        let k = ws_prefix_len_exec(data, a, to);
        assert(data@.subrange(a as int, to as int).skip(k as int) =~= data@.subrange(
            a + k,
            to as int,
        ));
        a = a + k;
    }
    let ghost s1 = data@.subrange(a as int, to as int);
    assert(strip_lead(s) == s1);
    let mut b = to;
    while ws_suffix_len_exec(data, a, b) > 0
        invariant
            a <= b <= to,
            to <= data@.len(),
            s1 == data@.subrange(a as int, to as int),
            strip_trail(s1) == strip_trail(data@.subrange(a as int, b as int)),
        decreases b - a,
    {
        let k = ws_suffix_len_exec(data, a, b);
        assert(data@.subrange(a as int, b as int).take(b - a - k) =~= data@.subrange(
            a as int,
            b - k,
        ));
        b = b - k;
    }
    let ghost t = data@.subrange(a as int, b as int);
    assert(strip_trail(s1) == t);
    assert(parse_number_spec(s) == usize_from_str(t));
    let mut d0 = a;
    if a < b && data[a] == 0x2b {
        d0 = a + 1;
    }
    let ghost d = data@.subrange(d0 as int, b as int);
    proof {
        if a < b && data@[a as int] == 0x2b {
            assert(t[0] == 0x2b);
            assert(t.drop_first() =~= d);
        } else {
            assert(t =~= d);
        }
    }
    if d0 >= b {
        return None;
    }
    let mut v: usize = 0;
    let mut i = d0;
    while i < b
        invariant
            d0 <= i <= b <= data@.len(),
            d == data@.subrange(d0 as int, b as int),
            parse_number_spec(s) == usize_from_str(t),
            s == data@.subrange(from as int, to as int),
            unsigned_digits(t) == d,
            d.len() > 0,
            forall|j: int| 0 <= j < i - d0 ==> is_digit(#[trigger] d[j]),
            v == digits_value(d.take(i - d0)),
        decreases b - i,
    {
        let c = data[i];
        assert(d[i - d0] == c);
        if c < 0x30 || c > 0x39 {
            proof {
                lemma_not_digit(t, d, i - d0);
            }
            return None;
        }
        assert(d.take(i - d0 + 1).drop_last() =~= d.take(i - d0));
        let digit = (c - 0x30) as usize;
        if v > (usize::MAX - digit) / 10 {
            proof {
                assert(v * 10 + digit > usize::MAX) by (nonlinear_arith)
                    requires
                        v > (usize::MAX - digit) / 10,
                        digit <= 9,
                ;
                lemma_digits_value_monotone(d, i - d0 + 1);
            }
            return None;
        }
        assert(v * 10 + digit <= usize::MAX) by (nonlinear_arith)
            requires
                v <= (usize::MAX - digit) / 10,
                digit <= 9,
        ;
        v = v * 10 + digit;
        i = i + 1;
    }
    assert(d.take(b - d0) =~= d);
    Some(v)
}

proof fn lemma_not_digit(t: Seq<u8>, d: Seq<u8>, k: int)
    requires
        unsigned_digits(t) == d,
        0 <= k < d.len(),
        !is_digit(d[k]),
    ensures
        usize_from_str(t) is None,
{
    assert(!all_digits(d));
}

fn is_marker_exec(b: u8) -> (r: bool)
    ensures
        r == is_marker(b),
{
    b == 0x22 || b == 0x2d || b == 0x23 || b == 0x5e || b == 0x28 || b == 0x25 || b == 0x40 || b
        == 0x2a
}

pub open spec fn bytes_views(v: Seq<Vec<u8>>) -> Seq<Seq<u8>> {
    v.map_values(|x: Vec<u8>| x@)
}

/// Walk the SLF0 token stream of `data` and collect the raw string payloads.
fn token_payloads(data: &[u8]) -> (out: Vec<Vec<u8>>)
    ensures
        bytes_views(out@) == tokens_from(data@, 0),
{
    let mut tokens: Vec<Vec<u8>> = Vec::new();
    let mut pos: usize = 0;
    let mut stop = false;
    while pos < data.len() && !stop
        invariant
            pos <= data@.len(),
            bytes_views(tokens@) + tokens_from(data@, pos as int) == tokens_from(data@, 0),
            stop ==> tokens_from(data@, pos as int) == Seq::<Seq<u8>>::empty(),
        decreases data@.len() - pos, if stop { 0int } else { 1int },
    {
        let mut m = pos;
        while m < data.len() && !is_marker_exec(data[m])
            invariant
                pos <= m <= data@.len(),
                next_marker(data@, pos as int) == next_marker(data@, m as int),
            decreases data@.len() - m,
        {
            m = m + 1;
        }
        assert(next_marker(data@, m as int) == m);
        proof {
            lemma_next_marker(data@, pos as int);
        }
        if m >= data.len() {
            stop = true;
        } else {
            let marker = data[m];
            if marker == 0x22 || marker == 0x25 || marker == 0x2a {
                match parse_number(data, pos, m) {
                    None => {
                        stop = true;
                    },
                    Some(n) => {
                        let start = m + 1;
                        if n > data.len() - start {
                            stop = true;
                        } else {
                            let end = start + n;
                            if marker == 0x22 {
                                let mut tok: Vec<u8> = Vec::new();
                                let mut k = start;
                                while k < end
                                    invariant
                                        start <= k <= end <= data@.len(),
                                        tok@ == data@.subrange(start as int, k as int),
                                    decreases end - k,
                                {
                                    tok.push(data[k]);
                                    assert(data@.subrange(start as int, k as int).push(
                                        data@[k as int],
                                    ) =~= data@.subrange(start as int, k + 1));
                                    k = k + 1;
                                }
                                let ghost before = tokens@;
                                tokens.push(tok);
                                assert(bytes_views(tokens@) =~= bytes_views(before).push(
                                    data@.subrange(start as int, end as int),
                                ));
                            }
                            pos = end;
                        }
                    },
                }
            } else {
                pos = m + 1;
            }
        }
    }
    assert(tokens_from(data@, pos as int) =~= Seq::<Seq<u8>>::empty());
    assert(bytes_views(tokens@) + Seq::<Seq<u8>>::empty() =~= bytes_views(tokens@));
    tokens
}

pub open spec fn decoded_tokens(tokens: Seq<Seq<u8>>) -> Seq<Seq<char>> {
    tokens.map_values(|t: Seq<u8>| utf8_lossy_decode(t))
}

/// Walk the SLF0 token stream of `data` and collect the string payloads, decoded
/// as UTF-8 with invalid sequences replaced.
pub fn string_tokens(data: &[u8]) -> (out: Vec<String>)
    ensures
        string_views(out@) == decoded_tokens(tokens_from(data@, 0)),
{
    let raw = token_payloads(data);
    let ghost want = decoded_tokens(bytes_views(raw@));
    let mut out: Vec<String> = Vec::new();
    let mut i: usize = 0;
    while i < raw.len()
        invariant
            i <= raw@.len(),
            want == decoded_tokens(bytes_views(raw@)),
            string_views(out@) == want.take(i as int),
        decreases raw@.len() - i,
    {
        let ghost before = out@;
        let t = utf8_lossy(raw[i].as_slice());
        assert(t@ == want[i as int]);
        out.push(t);
        assert(string_views(out@) =~= string_views(before).push(t@));
        assert(want.take(i + 1) =~= want.take(i as int).push(want[i as int]));
        i = i + 1;
    }
    assert(want.take(raw@.len() as int) =~= want);
    out
}

/// The pieces of `pieces` that are not empty.
pub open spec fn nonempty_pieces(pieces: Seq<Seq<char>>) -> Seq<Seq<char>>
    decreases pieces.len(),
{
    if pieces.len() == 0 {
        Seq::empty()
    } else {
        let init = nonempty_pieces(pieces.drop_last());
        if pieces.last().len() > 0 {
            init.push(pieces.last())
        } else {
            init
        }
    }
}

/// The compile lines of the string tokens: for each Swift section token, its
/// non-empty `\r`/`\n`-separated lines followed by one empty line.
pub open spec fn compile_lines_spec(tokens: Seq<Seq<char>>) -> Seq<Seq<char>>
    decreases tokens.len(),
{
    if tokens.len() == 0 {
        Seq::empty()
    } else {
        let init = compile_lines_spec(tokens.drop_last());
        let t = tokens.last();
        if is_header(t) {
            init + nonempty_pieces(split_by(t, |c: char| is_line_break(c))) + seq![
                Seq::<char>::empty(),
            ]
        } else {
            init
        }
    }
}

/// The magic that opens an SLF0 activity log.
pub open spec fn has_slf0_magic(data: Seq<u8>) -> bool {
    data.len() >= 4 && data[0] == 0x53 && data[1] == 0x4c && data[2] == 0x46 && data[3] == 0x30
}

/// Extract the log lines relevant to Swift compilation from the decompressed
/// content of an `.xcactivitylog` file.
pub fn extract_compile_lines(data: &[u8]) -> (out: Result<Vec<String>, LogError>)
    ensures
        match out {
            Ok(lines) => has_slf0_magic(data@) && lines@.map_values(|s: String| s@)
                == compile_lines_spec(decoded_tokens(tokens_from(data@.skip(4), 0))),
            Err(_) => !has_slf0_magic(data@),
        },
{
    if data.len() < 4 || data[0] != 0x53 || data[1] != 0x4c || data[2] != 0x46 || data[3] != 0x30 {
        return Err(LogError::NotActivityLog);
    }
    let mut body: Vec<u8> = Vec::new();
    let mut k: usize = 4;
    while k < data.len()
        invariant
            4 <= k <= data@.len(),
            body@ == data@.subrange(4, k as int),
        decreases data@.len() - k,
    {
        body.push(data[k]);
        assert(data@.subrange(4, k as int).push(data@[k as int]) =~= data@.subrange(4, k + 1));
        k = k + 1;
    }
    assert(body@ =~= data@.skip(4));
    let raw = string_tokens(body.as_slice());
    let ghost toks = string_views(raw@);
    let p_compile = chars_of("CompileSwiftSources ");
    let p_driver = chars_of("SwiftDriver ");
    let p_driver_comp = chars_of("SwiftDriver\\ Compilation ");
    let mut lines: Vec<String> = Vec::new();
    let mut i: usize = 0;
    while i < raw.len()
        invariant
            i <= raw@.len(),
            toks == string_views(raw@),
            p_compile@ == "CompileSwiftSources "@,
            p_driver@ == "SwiftDriver "@,
            p_driver_comp@ == "SwiftDriver\\ Compilation "@,
            lines@.map_values(|s: String| s@) == compile_lines_spec(toks.take(i as int)),
        decreases raw@.len() - i,
    {
        assert(toks.take(i + 1).drop_last() =~= toks.take(i as int));
        let cs = chars_of(raw[i].as_str());
        assert(toks.take(i + 1).last() == cs@);
        if has_prefix(cs.as_slice(), p_compile.as_slice()) || has_prefix(
            cs.as_slice(),
            p_driver.as_slice(),
        ) || has_prefix(cs.as_slice(), p_driver_comp.as_slice()) {
            let pieces = split_chars(cs.as_slice(), 1);
            let ghost pv = vviews(pieces@);
            let ghost base = lines@.map_values(|s: String| s@);
            let mut j: usize = 0;
            while j < pieces.len()
                invariant
                    j <= pieces@.len(),
                    pv == vviews(pieces@),
                    lines@.map_values(|s: String| s@) == base + nonempty_pieces(
                        pv.take(j as int),
                    ),
                decreases pieces@.len() - j,
            {
                assert(pv.take(j + 1).drop_last() =~= pv.take(j as int));
                if pieces[j].len() > 0 {
                    let ghost before = lines@;
                    lines.push(string_of(pieces[j].as_slice()));
                    assert(lines@.map_values(|s: String| s@) =~= before.map_values(
                        |s: String| s@,
                    ).push(pv[j as int]));
                }
                j = j + 1;
            }
            assert(pv.take(pieces@.len() as int) =~= pv);
            let ghost before = lines@;
            lines.push(String::new());
            assert(lines@.map_values(|s: String| s@) =~= before.map_values(|s: String| s@).push(
                Seq::<char>::empty(),
            ));
        }
        i = i + 1;
    }
    assert(toks.take(raw@.len() as int) =~= toks);
    Ok(lines)
}


/// One log of the build log store's manifest, as far as the search reads it.
/// `sort_key` orders entries as their `timeStoppedRecording` values do.
#[derive(Debug, Clone)]
pub struct ManifestLog {
    pub scheme_name: Option<String>,
    pub file_name: Option<String>,
    pub sort_key: u64,
}

/// One file of the build log directory: its path, its size and its modification
/// time (nanoseconds since the epoch).
#[derive(Debug, Clone)]
pub struct LogFile {
    pub path: String,
    pub len: u64,
    pub modified: i128,
}

/// A candidate log with the key it is ordered by.
#[derive(Debug, Clone)]
pub struct Keyed {
    pub key: i128,
    pub path: String,
}

pub open spec fn keyed_view(v: Seq<Keyed>) -> Seq<(int, Seq<char>)> {
    v.map_values(|k: Keyed| (k.key as int, k.path@))
}

/// `sorted` with `x` placed after every entry whose key is at least `x`'s.
pub open spec fn insert_desc(sorted: Seq<(int, Seq<char>)>, x: (int, Seq<char>)) -> Seq<
    (int, Seq<char>),
>
    decreases sorted.len(),
{
    if sorted.len() == 0 {
        seq![x]
    } else if sorted[0].0 >= x.0 {
        seq![sorted[0]] + insert_desc(sorted.drop_first(), x)
    } else {
        seq![x] + sorted
    }
}

/// Stable sort by descending key: later entries go after earlier ones of equal key.
pub open spec fn sort_desc(s: Seq<(int, Seq<char>)>) -> Seq<(int, Seq<char>)>
    decreases s.len(),
{
    if s.len() == 0 {
        Seq::empty()
    } else {
        insert_desc(sort_desc(s.drop_last()), s.last())
    }
}

pub open spec fn is_sorted_desc(s: Seq<(int, Seq<char>)>) -> bool {
    forall|i: int, j: int| 0 <= i < j < s.len() ==> #[trigger] s[i].0 >= #[trigger] s[j].0
}

/// The position where `insert_desc` puts `x`.
pub open spec fn insert_pos(sorted: Seq<(int, Seq<char>)>, key: int) -> int
    decreases sorted.len(),
{
    if sorted.len() == 0 {
        0
    } else if sorted[0].0 >= key {
        1 + insert_pos(sorted.drop_first(), key)
    } else {
        0
    }
}

proof fn lemma_insert_desc(sorted: Seq<(int, Seq<char>)>, x: (int, Seq<char>))
    ensures
        0 <= insert_pos(sorted, x.0) <= sorted.len(),
        insert_desc(sorted, x) == sorted.take(insert_pos(sorted, x.0)).push(x) + sorted.skip(
            insert_pos(sorted, x.0),
        ),
        forall|i: int| 0 <= i < insert_pos(sorted, x.0) ==> sorted[i].0 >= x.0,
        insert_pos(sorted, x.0) < sorted.len() ==> sorted[insert_pos(sorted, x.0)].0 < x.0,
        is_sorted_desc(sorted) ==> is_sorted_desc(insert_desc(sorted, x)),
    decreases sorted.len(),
{
    let p = insert_pos(sorted, x.0);
    if sorted.len() == 0 {
        assert(insert_desc(sorted, x) =~= sorted.take(0).push(x) + sorted.skip(0));
    } else if sorted[0].0 >= x.0 {
        let rest = sorted.drop_first();
        lemma_insert_desc(rest, x);
        assert(insert_desc(sorted, x) =~= sorted.take(p).push(x) + sorted.skip(p));
        assert forall|i: int| 0 <= i < p implies sorted[i].0 >= x.0 by {
            if i > 0 {
                assert(sorted[i] == rest[i - 1]);
            }
        }
        if p < sorted.len() {
            assert(sorted[p] == rest[p - 1]);
        }
        if is_sorted_desc(sorted) {
            assert forall|i: int, j: int| 0 <= i < j < rest.len() implies #[trigger] rest[i].0 >= #[trigger] rest[j].0 by {
                assert(rest[i] == sorted[i + 1] && rest[j] == sorted[j + 1]);
            }
            let r = insert_desc(sorted, x);
            let ri = insert_desc(rest, x);
            assert forall|i: int, j: int| 0 <= i < j < r.len() implies #[trigger] r[i].0 >= #[trigger] r[j].0 by {
                if i > 0 {
                    assert(r[i] == ri[i - 1] && r[j] == ri[j - 1]);
                } else {
                    assert(r[j] == ri[j - 1]);
                    let k = j - 1;
                    if k < p - 1 {
                        assert(ri[k] == rest[k]);
                        assert(rest[k] == sorted[k + 1]);
                    } else if k == p - 1 {
                        assert(ri[k] == x);
                    } else {
                        assert(ri[k] == rest[k - 1]);
                        assert(rest[k - 1] == sorted[k]);
                    }
                }
            }
        }
    } else {
        assert(insert_desc(sorted, x) =~= sorted.take(0).push(x) + sorted.skip(0));
        if is_sorted_desc(sorted) {
            let r = insert_desc(sorted, x);
            assert forall|i: int, j: int| 0 <= i < j < r.len() implies #[trigger] r[i].0 >= #[trigger] r[j].0 by {
                assert(r[j] == sorted[j - 1]);
                if i > 0 {
                    assert(r[i] == sorted[i - 1]);
                } else {
                    assert(sorted[0].0 >= sorted[j - 1].0 || j - 1 == 0);
                }
            }
        }
    }
}

/// The stable descending sort is sorted.
pub proof fn lemma_sort_desc_sorted(s: Seq<(int, Seq<char>)>)
    ensures
        is_sorted_desc(sort_desc(s)),
        sort_desc(s).len() == s.len(),
    decreases s.len(),
{
    if s.len() > 0 {
        lemma_sort_desc_sorted(s.drop_last());
        lemma_insert_desc(sort_desc(s.drop_last()), s.last());
    }
}

/// Sort candidates by descending key, keeping the order of equal keys.
pub fn sort_candidates(v: Vec<Keyed>) -> (out: Vec<Keyed>)
    ensures
        keyed_view(out@) == sort_desc(keyed_view(v@)),
        is_sorted_desc(keyed_view(out@)),
{
    let ghost kv = keyed_view(v@);
    let mut out: Vec<Keyed> = Vec::new();
    let mut i: usize = 0;
    let mut v = v;
    let ghost orig = v@;
    while i < v.len()
        invariant
            i <= v@.len(),
            v@ == orig,
            kv == keyed_view(orig),
            keyed_view(out@) == sort_desc(kv.take(i as int)),
        decreases v@.len() - i,
    {
        assert(kv.take(i + 1).drop_last() =~= kv.take(i as int));
        assert(kv.take(i + 1).last() == (v@[i as int].key as int, v@[i as int].path@));
        let x = Keyed { key: v[i].key, path: v[i].path.clone() };
        let ghost sorted = keyed_view(out@);
        proof {
            lemma_insert_desc(sorted, (x.key as int, x.path@));
        }
        let mut p: usize = 0;
        assert(sorted.skip(0) =~= sorted);
        while p < out.len() && out[p].key >= x.key
            invariant
                p <= out@.len(),
                sorted == keyed_view(out@),
                insert_pos(sorted, x.key as int) == p + insert_pos(sorted.skip(p as int), x.key as int),
            decreases out@.len() - p,
        {
            assert(sorted.skip(p as int)[0] == sorted[p as int]);
            assert(sorted.skip(p as int).drop_first() =~= sorted.skip(p + 1));
            p = p + 1;
        }
        proof {
            if p < out@.len() {
                assert(sorted.skip(p as int)[0] == sorted[p as int]);
            }
            assert(insert_pos(sorted.skip(p as int), x.key as int) == 0);
        }
        let ghost xv = (x.key as int, x.path@);
        out.insert(p, x);
        assert(keyed_view(out@) =~= sorted.take(p as int).push(xv) + sorted.skip(p as int));
        i = i + 1;
    }
    assert(kv.take(v@.len() as int) =~= kv);
    proof {
        lemma_sort_desc_sorted(kv);
    }
    out
}

/// The manifest's logs for `scheme` (all logs without one), each with its path in
/// `log_dir`; logs without a file name are skipped.
pub open spec fn manifest_spec(
    log_dir: Seq<char>,
    logs: Seq<ManifestLog>,
    scheme: Option<Seq<char>>,
) -> Seq<(int, Seq<char>)>
    decreases logs.len(),
{
    if logs.len() == 0 {
        Seq::empty()
    } else {
        let init = manifest_spec(log_dir, logs.drop_last(), scheme);
        let l = logs.last();
        let wanted = match scheme {
            Some(s) => match l.scheme_name {
                Some(n) => n@ == s,
                None => false,
            },
            None => true,
        };
        if wanted && l.file_name is Some {
            init.push((l.sort_key as int, join_spec(log_dir, l.file_name->0@)))
        } else {
            init
        }
    }
}

pub open spec fn opt_str_view(o: Option<&str>) -> Option<Seq<char>> {
    match o {
        Some(s) => Some(s@),
        None => None,
    }
}

/// The manifest candidates, in manifest order.
pub fn manifest_candidates(log_dir: &str, logs: &Vec<ManifestLog>, scheme: Option<&str>) -> (out:
    Vec<Keyed>)
    ensures
        keyed_view(out@) == manifest_spec(log_dir@, logs@, opt_str_view(scheme)),
{
    let mut out: Vec<Keyed> = Vec::new();
    let mut i: usize = 0;
    while i < logs.len()
        invariant
            i <= logs@.len(),
            keyed_view(out@) == manifest_spec(log_dir@, logs@.take(i as int), opt_str_view(scheme)),
        decreases logs@.len() - i,
    {
        assert(logs@.take(i + 1).drop_last() =~= logs@.take(i as int));
        assert(logs@.take(i + 1).last() == logs@[i as int]);
        let l = &logs[i];
        let wanted = match scheme {
            Some(s) => match &l.scheme_name {
                Some(n) => crate::text::str_eq(n.as_str(), s),
                None => false,
            },
            None => true,
        };
        if wanted {
            match &l.file_name {
                Some(f) => {
                    let ghost before = out@;
                    out.push(Keyed { key: l.sort_key as i128, path: join_path(log_dir, f.as_str()) });
                    assert(keyed_view(out@) =~= keyed_view(before).push(
                        (l.sort_key as int, join_spec(log_dir@, f@)),
                    ));
                },
                None => {},
            }
        }
        i = i + 1;
    }
    assert(logs@.take(logs@.len() as int) =~= logs@);
    out
}

/// The path has the extension `.xcactivitylog`: its last component ends in it
/// after at least one other character.
pub open spec fn is_activity_log(path: Seq<char>) -> bool {
    let c = components(path);
    c.len() > 0 && crate::text::ends_with(c.last(), ".xcactivitylog"@) && c.last().len()
        > ".xcactivitylog"@.len()
}

/// The non-empty activity logs among the directory's files.
pub open spec fn dir_spec(files: Seq<LogFile>) -> Seq<(int, Seq<char>)>
    decreases files.len(),
{
    if files.len() == 0 {
        Seq::empty()
    } else {
        let init = dir_spec(files.drop_last());
        let f = files.last();
        if is_activity_log(f.path@) && f.len != 0 {
            init.push((f.modified as int, f.path@))
        } else {
            init
        }
    }
}

fn is_activity_log_exec(path: &str) -> (r: bool)
    ensures
        r == is_activity_log(path@),
{
    let pc = chars_of(path);
    let c = components_of(pc.as_slice());
    let ext = chars_of(".xcactivitylog");
    if c.len() == 0 {
        return false;
    }
    let last = &c[c.len() - 1];
    assert(crate::text::vviews(c@).last() == last@);
    crate::text::has_suffix(last.as_slice(), ext.as_slice()) && last.len() > ext.len()
}

/// The directory candidates, in directory order.
pub fn dir_candidates(files: &Vec<LogFile>) -> (out: Vec<Keyed>)
    ensures
        keyed_view(out@) == dir_spec(files@),
{
    let mut out: Vec<Keyed> = Vec::new();
    let mut i: usize = 0;
    while i < files.len()
        invariant
            i <= files@.len(),
            keyed_view(out@) == dir_spec(files@.take(i as int)),
        decreases files@.len() - i,
    {
        assert(files@.take(i + 1).drop_last() =~= files@.take(i as int));
        assert(files@.take(i + 1).last() == files@[i as int]);
        let f = &files[i];
        if is_activity_log_exec(f.path.as_str()) && f.len != 0 {
            let ghost before = out@;
            out.push(Keyed { key: f.modified, path: f.path.clone() });
            assert(keyed_view(out@) =~= keyed_view(before).push((f.modified as int, f.path@)));
        }
        i = i + 1;
    }
    assert(files@.take(files@.len() as int) =~= files@);
    out
}

/// The paths without repeats (equal as paths), first occurrences kept.
pub open spec fn dedup_paths(s: Seq<Seq<char>>) -> Seq<Seq<char>>
    decreases s.len(),
{
    if s.len() == 0 {
        Seq::empty()
    } else {
        let init = dedup_paths(s.drop_last());
        if exists|j: int| 0 <= j < init.len() && components(#[trigger] init[j]) == components(
            s.last(),
        ) {
            init
        } else {
            init.push(s.last())
        }
    }
}

pub open spec fn unique_paths(s: Seq<Seq<char>>) -> bool {
    forall|i: int, j: int|
        0 <= i < j < s.len() ==> components(#[trigger] s[i]) != components(#[trigger] s[j])
}

/// The ordered candidate paths: the manifest's logs by descending stop time,
/// then the directory's logs by descending modification time, each path once.
pub open spec fn candidates_spec(
    log_dir: Seq<char>,
    manifest: Option<Seq<ManifestLog>>,
    scheme: Option<Seq<char>>,
    files: Seq<LogFile>,
) -> Seq<Seq<char>> {
    let m = match manifest {
        Some(logs) => sort_desc(manifest_spec(log_dir, logs, scheme)),
        None => Seq::empty(),
    };
    let d = sort_desc(dir_spec(files));
    dedup_paths(paths_of(m + d))
}

/// The paths of keyed candidates.
pub open spec fn paths_of(s: Seq<(int, Seq<char>)>) -> Seq<Seq<char>> {
    s.map_values(|k: (int, Seq<char>)| k.1)
}

pub open spec fn manifest_view(m: Option<Vec<ManifestLog>>) -> Option<Seq<ManifestLog>> {
    match m {
        Some(v) => Some(v@),
        None => None,
    }
}

/// Candidate activity logs ordered from most to least promising: the manifest's
/// order first (when the log store has a manifest), then recent non-empty files
/// of the log directory. Fails when there is none.
pub fn candidate_log_paths(
    log_dir: &str,
    manifest: Option<Vec<ManifestLog>>,
    scheme: Option<&str>,
    files: &Vec<LogFile>,
) -> (out: Result<Vec<String>, LogError>)
    ensures
        match out {
            Ok(paths) => {
                &&& paths@.map_values(|s: String| s@) == candidates_spec(
                    log_dir@,
                    manifest_view(manifest),
                    opt_str_view(scheme),
                    files@,
                )
                &&& paths@.len() > 0
                &&& unique_paths(paths@.map_values(|s: String| s@))
            },
            Err(e) => e is NoLogFound && candidates_spec(
                log_dir@,
                manifest_view(manifest),
                opt_str_view(scheme),
                files@,
            ).len() == 0,
        },
{
    let ghost mv = manifest_view(manifest);
    let mut all: Vec<Keyed> = match manifest {
        Some(logs) => sort_candidates(manifest_candidates(log_dir, &logs, scheme)),
        None => {
            let e: Vec<Keyed> = Vec::new();
            assert(keyed_view(e@) =~= Seq::<(int, Seq<char>)>::empty());
            e
        },
    };
    assert(keyed_view(all@) == match mv {
        Some(logs) => sort_desc(manifest_spec(log_dir@, logs, opt_str_view(scheme))),
        None => Seq::<(int, Seq<char>)>::empty(),
    });
    let d = sort_candidates(dir_candidates(files));
    let ghost m_part = keyed_view(all@);
    let ghost d_part = keyed_view(d@);
    let mut k: usize = 0;
    while k < d.len()
        invariant
            k <= d@.len(),
            d_part == keyed_view(d@),
            keyed_view(all@) == m_part + d_part.take(k as int),
        decreases d@.len() - k,
    {
        let ghost before = all@;
        all.push(Keyed { key: d[k].key, path: d[k].path.clone() });
        assert(keyed_view(all@) =~= keyed_view(before).push(d_part[k as int]));
        assert(m_part + d_part.take(k + 1) =~= (m_part + d_part.take(k as int)).push(
            d_part[k as int],
        ));
        k = k + 1;
    }
    assert(d_part.take(d@.len() as int) =~= d_part);
    let ghost paths = paths_of(m_part + d_part);
    assert(dedup_paths(paths) == candidates_spec(log_dir@, mv, opt_str_view(scheme), files@));
    let mut unique: Vec<String> = Vec::new();
    let mut i: usize = 0;
    while i < all.len()
        invariant
            i <= all@.len(),
            paths == paths_of(keyed_view(all@)),
            unique@.map_values(|s: String| s@) == dedup_paths(paths.take(i as int)),
            unique_paths(unique@.map_values(|s: String| s@)),
        decreases all@.len() - i,
    {
        assert(paths.take(i + 1).drop_last() =~= paths.take(i as int));
        assert(paths.take(i + 1).last() == all@[i as int].path@);
        let ghost uv = unique@.map_values(|s: String| s@);
        let mut found = false;
        let mut j: usize = 0;
        while j < unique.len()
            invariant
                j <= unique@.len(),
                uv == unique@.map_values(|s: String| s@),
                i < all@.len(),
                found == exists|t: int|
                    0 <= t < j && components(#[trigger] uv[t]) == components(all@[i as int].path@),
            decreases unique@.len() - j,
        {
            if paths_equal(unique[j].as_str(), all[i].path.as_str()) {
                found = true;
            }
            assert(uv[j as int] == unique@[j as int]@);
            j = j + 1;
        }
        if !found {
            let ghost before = unique@;
            unique.push(all[i].path.clone());
            assert(unique@.map_values(|s: String| s@) =~= uv.push(all@[i as int].path@));
            assert forall|a: int, b: int| 0 <= a < b < uv.push(all@[i as int].path@).len() implies components(
                #[trigger] uv.push(all@[i as int].path@)[a],
            ) != components(#[trigger] uv.push(all@[i as int].path@)[b]) by {
                if b == uv.len() {
                    assert(uv.push(all@[i as int].path@)[a] == uv[a]);
                }
            }
        }
        i = i + 1;
    }
    assert(paths.take(all@.len() as int) =~= paths);
    if unique.len() == 0 {
        return Err(LogError::NoLogFound);
    }
    Ok(unique)
}

/// `a` from `pos` on is a run of whole tokens: each is a readable length, a
/// length marker and that many payload bytes, or bytes ending in a marker that
/// takes no payload.
pub open spec fn whole_tokens_from(a: Seq<u8>, pos: int) -> bool
    decreases a.len() - pos,
{
    if pos < 0 || pos > a.len() {
        false
    } else if pos == a.len() {
        true
    } else {
        let m = next_marker(a, pos);
        proof {
            lemma_next_marker(a, pos);
        }
        if m >= a.len() {
            false
        } else if is_length_marker(a[m]) {
            match parse_number_spec(a.subrange(pos, m)) {
                None => false,
                Some(n) => m + 1 + n <= a.len() && whole_tokens_from(a, m + 1 + n),
            }
        } else {
            whole_tokens_from(a, m + 1)
        }
    }
}

proof fn lemma_next_marker_prefix(a: Seq<u8>, b: Seq<u8>, pos: int)
    requires
        0 <= pos <= a.len(),
        next_marker(a, pos) < a.len(),
    ensures
        next_marker(a + b, pos) == next_marker(a, pos),
    decreases a.len() - pos,
{
    if !is_marker(a[pos]) {
        lemma_next_marker_prefix(a, b, pos + 1);
    }
}

proof fn lemma_next_marker_shift(p: Seq<u8>, b: Seq<u8>, k: int)
    requires
        0 <= k <= b.len(),
    ensures
        next_marker(p + b, p.len() + k) == p.len() + next_marker(b, k),
    decreases b.len() - k,
{
    if k < b.len() {
        assert((p + b)[p.len() + k] == b[k]);
        if !is_marker(b[k]) {
            lemma_next_marker_shift(p, b, k + 1);
        }
    }
}

/// Tokens read after a prefix are the tokens of what follows it.
proof fn lemma_tokens_shift(p: Seq<u8>, b: Seq<u8>, k: int)
    requires
        0 <= k,
    ensures
        tokens_from(p + b, p.len() + k) == tokens_from(b, k),
    decreases b.len() - k,
{
    let d = p + b;
    let pos = p.len() + k;
    if k < b.len() {
        lemma_next_marker_shift(p, b, k);
        lemma_next_marker(b, k);
        lemma_next_marker(d, pos);
        let mb = next_marker(b, k);
        let m = pos - k + mb;
        assert(m == next_marker(d, pos));
        if mb < b.len() {
            assert(d[m] == b[mb]);
            assert(d.subrange(pos, m) =~= b.subrange(k, mb));
            if is_length_marker(b[mb]) {
                match parse_number_spec(b.subrange(k, mb)) {
                    None => {},
                    Some(n) => {
                        if mb + 1 + n <= b.len() {
                            assert(d.subrange(m + 1, m + 1 + n) =~= b.subrange(mb + 1, mb + 1 + n));
                            lemma_tokens_shift(p, b, mb + 1 + n);
                        }
                    },
                }
            } else {
                lemma_tokens_shift(p, b, mb + 1);
            }
        }
    }
}

proof fn lemma_tokens_concat_from(a: Seq<u8>, b: Seq<u8>, pos: int)
    requires
        whole_tokens_from(a, pos),
    ensures
        tokens_from(a + b, pos) == tokens_from(a, pos) + tokens_from(b, 0),
    decreases a.len() - pos,
{
    let d = a + b;
    if pos == a.len() {
        lemma_tokens_shift(a, b, 0);
        assert(tokens_from(a, pos) + tokens_from(b, 0) =~= tokens_from(b, 0));
    } else {
        lemma_next_marker(a, pos);
        let m = next_marker(a, pos);
        lemma_next_marker_prefix(a, b, pos);
        assert(d[m] == a[m]);
        assert(d.subrange(pos, m) =~= a.subrange(pos, m));
        if is_length_marker(a[m]) {
            let n = parse_number_spec(a.subrange(pos, m))->0;
            assert(d.subrange(m + 1, m + 1 + n) =~= a.subrange(m + 1, m + 1 + n));
            lemma_tokens_concat_from(a, b, m + 1 + n);
            if a[m] == 0x22 {
                assert(seq![a.subrange(m + 1, m + 1 + n)] + tokens_from(a, m + 1 + n) + tokens_from(
                    b,
                    0,
                ) =~= seq![a.subrange(m + 1, m + 1 + n)] + (tokens_from(a, m + 1 + n)
                    + tokens_from(b, 0)));
            }
        } else {
            lemma_tokens_concat_from(a, b, m + 1);
        }
    }
}

/// Whole tokens followed by any bytes: the tokens of the joined bytes are those
/// of the whole tokens followed by those of the rest, as read and as decoded.
pub proof fn lemma_tokens_of_concat(a: Seq<u8>, b: Seq<u8>)
    requires
        whole_tokens_from(a, 0),
    ensures
        tokens_from(a + b, 0) == tokens_from(a, 0) + tokens_from(b, 0),
        decoded_tokens(tokens_from(a + b, 0)) == decoded_tokens(tokens_from(a, 0)) + decoded_tokens(
            tokens_from(b, 0),
        ),
{
    lemma_tokens_concat_from(a, b, 0);
    assert(decoded_tokens(tokens_from(a + b, 0)) =~= decoded_tokens(tokens_from(a, 0))
        + decoded_tokens(tokens_from(b, 0)));
}

/// Which tokens give compile lines: a token that begins with
/// `CompileSwiftSources `, `SwiftDriver ` or `SwiftDriver\ Compilation ` adds
/// its non-empty lines (split at `\r` and `\n`) followed by one empty line; any
/// other token adds nothing.
pub proof fn lemma_compile_lines_of_token(ts: Seq<Seq<char>>, t: Seq<char>)
    ensures
        (crate::text::starts_with(t, "CompileSwiftSources "@) || crate::text::starts_with(
            t,
            "SwiftDriver "@,
        ) || crate::text::starts_with(t, "SwiftDriver\\ Compilation "@)) ==> compile_lines_spec(
            ts.push(t),
        ) == compile_lines_spec(ts) + nonempty_pieces(
            split_by(t, |c: char| c == '\r' || c == '\n'),
        ) + seq![Seq::<char>::empty()],
        !(crate::text::starts_with(t, "CompileSwiftSources "@) || crate::text::starts_with(
            t,
            "SwiftDriver "@,
        ) || crate::text::starts_with(t, "SwiftDriver\\ Compilation "@)) ==> compile_lines_spec(
            ts.push(t),
        ) == compile_lines_spec(ts),
{
    assert(ts.push(t).drop_last() =~= ts);
    assert((|c: char| c == '\r' || c == '\n') =~= (|c: char| is_line_break(c)));
}

/// The pieces of a token between `\r` and `\n` characters.
pub open spec fn line_pieces(t: Seq<char>) -> Seq<Seq<char>> {
    split_by(t, |c: char| is_line_break(c))
}

/// The lines of a token are free of line breaks, and none is empty.
pub proof fn lemma_compile_line_pieces(t: Seq<char>)
    ensures
        forall|i: int|
            0 <= i < nonempty_pieces(line_pieces(t)).len() ==> (#[trigger] nonempty_pieces(
                line_pieces(t),
            )[i]).len() > 0 && !nonempty_pieces(line_pieces(t))[i].contains('\r')
                && !nonempty_pieces(line_pieces(t))[i].contains('\n'),
{
    let ps = line_pieces(t);
    lemma_pieces_free(t);
    lemma_nonempty_pieces_sub(ps);
    let np = nonempty_pieces(ps);
    assert forall|i: int| 0 <= i < np.len() implies (#[trigger] np[i]).len() > 0 && !np[i].contains(
        '\r',
    ) && !np[i].contains('\n') by {
        let j = choose|j: int| 0 <= j < ps.len() && ps[j] == np[i];
        assert(!ps[j].contains('\r') && !ps[j].contains('\n'));
    }
}

proof fn lemma_pieces_free(t: Seq<char>)
    ensures
        forall|i: int|
            0 <= i < line_pieces(t).len() ==> !(#[trigger] line_pieces(t)[i]).contains('\r')
                && !line_pieces(t)[i].contains('\n'),
    decreases t.len(),
{
    let sep = |c: char| is_line_break(c);
    if t.len() > 0 {
        lemma_pieces_free(t.drop_last());
        crate::text::lemma_split_by_nonempty(t.drop_last(), sep);
        let init = line_pieces(t.drop_last());
        let cur = line_pieces(t);
        if !sep(t.last()) {
            assert forall|i: int| 0 <= i < cur.len() implies !(#[trigger] cur[i]).contains('\r')
                && !cur[i].contains('\n') by {
                if i < cur.len() - 1 {
                    assert(cur[i] == init[i]);
                } else {
                    let l = init.last().push(t.last());
                    assert(cur[i] == l);
                    if l.contains('\r') {
                        let k = choose|k: int| 0 <= k < l.len() && l[k] == '\r';
                        if k < l.len() - 1 {
                            assert(init.last()[k] == '\r');
                            assert(init[init.len() - 1].contains('\r'));
                        }
                    }
                    if l.contains('\n') {
                        let k = choose|k: int| 0 <= k < l.len() && l[k] == '\n';
                        if k < l.len() - 1 {
                            assert(init.last()[k] == '\n');
                            assert(init[init.len() - 1].contains('\n'));
                        }
                    }
                }
            }
        } else {
            assert forall|i: int| 0 <= i < cur.len() implies !(#[trigger] cur[i]).contains('\r')
                && !cur[i].contains('\n') by {
                if i < cur.len() - 1 {
                    assert(cur[i] == init[i]);
                } else {
                    assert(cur[i] =~= Seq::<char>::empty());
                }
            }
        }
    }
}

proof fn lemma_nonempty_pieces_sub(ps: Seq<Seq<char>>)
    ensures
        forall|i: int|
            0 <= i < nonempty_pieces(ps).len() ==> (#[trigger] nonempty_pieces(ps)[i]).len() > 0
                && exists|j: int| 0 <= j < ps.len() && ps[j] == nonempty_pieces(ps)[i],
    decreases ps.len(),
{
    if ps.len() > 0 {
        lemma_nonempty_pieces_sub(ps.drop_last());
        let init = nonempty_pieces(ps.drop_last());
        let cur = nonempty_pieces(ps);
        assert forall|i: int| 0 <= i < cur.len() implies (#[trigger] cur[i]).len() > 0 && exists|
            j: int,
        | 0 <= j < ps.len() && ps[j] == cur[i] by {
            if i < init.len() {
                assert(cur[i] == init[i]);
                let j = choose|j: int| 0 <= j < ps.drop_last().len() && ps.drop_last()[j] == init[i];
                assert(ps[j] == ps.drop_last()[j]);
            } else {
                assert(cur[i] == ps.last());
                assert(ps[ps.len() - 1] == ps.last());
            }
        }
    }
}

proof fn lemma_insert_members(st: Seq<(int, Seq<char>)>, x: (int, Seq<char>))
    ensures
        insert_desc(st, x).len() == st.len() + 1,
        forall|i: int|
            0 <= i < st.len() + 1 ==> insert_desc(st, x)[i] == x || exists|j: int|
                0 <= j < st.len() && st[j] == #[trigger] insert_desc(st, x)[i],
        forall|j: int|
            0 <= j < st.len() ==> exists|i: int|
                0 <= i < st.len() + 1 && insert_desc(st, x)[i] == #[trigger] st[j],
        exists|i: int| 0 <= i < st.len() + 1 && insert_desc(st, x)[i] == x,
{
    lemma_insert_desc(st, x);
    let p = insert_pos(st, x.0);
    let r = insert_desc(st, x);
    assert(r[p] == x);
    assert forall|i: int| 0 <= i < st.len() + 1 implies r[i] == x || exists|j: int|
        0 <= j < st.len() && st[j] == #[trigger] r[i] by {
        if i < p {
            assert(r[i] == st[i]);
        } else if i > p {
            assert(r[i] == st[i - 1]);
        }
    }
    assert forall|j: int| 0 <= j < st.len() implies exists|i: int|
        0 <= i < st.len() + 1 && r[i] == #[trigger] st[j] by {
        if j < p {
            assert(r[j] == st[j]);
        } else {
            assert(r[j + 1] == st[j]);
        }
    }
}

proof fn lemma_sort_desc_members(s: Seq<(int, Seq<char>)>)
    ensures
        sort_desc(s).len() == s.len(),
        forall|i: int|
            0 <= i < s.len() ==> exists|j: int| 0 <= j < s.len() && s[j] == #[trigger] sort_desc(s)[i],
        forall|j: int|
            0 <= j < s.len() ==> exists|i: int| 0 <= i < s.len() && sort_desc(s)[i] == #[trigger] s[j],
    decreases s.len(),
{
    if s.len() > 0 {
        let init = s.drop_last();
        lemma_sort_desc_members(init);
        let st = sort_desc(init);
        lemma_insert_members(st, s.last());
        let r = sort_desc(s);
        assert(r == insert_desc(st, s.last()));
        assert forall|i: int| 0 <= i < s.len() implies exists|j: int|
            0 <= j < s.len() && s[j] == #[trigger] r[i] by {
            if r[i] == s.last() {
                assert(s[s.len() - 1] == r[i]);
            } else {
                let q = choose|q: int| 0 <= q < st.len() && st[q] == #[trigger] insert_desc(st, s.last())[i];
                let j = choose|j: int| 0 <= j < init.len() && init[j] == #[trigger] sort_desc(init)[q];
                assert(s[j] == init[j]);
            }
        }
        assert forall|j: int| 0 <= j < s.len() implies exists|i: int|
            0 <= i < s.len() && r[i] == #[trigger] s[j] by {
            if j == s.len() - 1 {
                let i = choose|i: int| 0 <= i < st.len() + 1 && insert_desc(st, s.last())[i] == s.last();
            } else {
                assert(init[j] == s[j]);
                let q = choose|q: int| 0 <= q < init.len() && sort_desc(init)[q] == #[trigger] init[j];
                let i = choose|i: int| 0 <= i < st.len() + 1 && insert_desc(st, s.last())[i] == #[trigger] st[q];
            }
        }
    }
}

/// `idx` picks `xs` out of `ys` in order: `xs[i] == ys[idx[i]]` at strictly
/// increasing positions.
pub open spec fn picks_from(idx: Seq<int>, xs: Seq<Seq<char>>, ys: Seq<Seq<char>>) -> bool {
    &&& idx.len() == xs.len()
    &&& forall|i: int| 0 <= i < idx.len() ==> 0 <= #[trigger] idx[i] < ys.len() && xs[i] == ys[idx[i]]
    &&& forall|i: int, j: int| 0 <= i < j < idx.len() ==> #[trigger] idx[i] < #[trigger] idx[j]
}

/// Paths are the same path (equal components).
pub open spec fn same_path(a: Seq<char>, b: Seq<char>) -> bool {
    components(a) == components(b)
}

#[verifier::spinoff_prover]
#[verifier::rlimit(80)]
proof fn lemma_dedup_members(s: Seq<Seq<char>>)
    ensures
        forall|i: int|
            0 <= i < dedup_paths(s).len() ==> exists|j: int|
                0 <= j < s.len() && s[j] == #[trigger] dedup_paths(s)[i],
        forall|j: int|
            0 <= j < s.len() ==> exists|i: int|
                0 <= i < dedup_paths(s).len() && same_path(dedup_paths(s)[i], #[trigger] s[j]),
    decreases s.len(),
{
    if s.len() > 0 {
        let init = s.drop_last();
        lemma_dedup_members(init);
        let di = dedup_paths(init);
        let d = dedup_paths(s);
        assert forall|i: int| 0 <= i < d.len() implies exists|j: int|
            0 <= j < s.len() && s[j] == #[trigger] d[i] by {
            if i < di.len() {
                assert(d[i] == di[i]);
                let j = choose|j: int| 0 <= j < init.len() && init[j] == di[i];
                assert(s[j] == init[j]);
            } else {
                assert(d[i] == s.last());
                assert(s[s.len() - 1] == s.last());
            }
        }
        assert forall|j: int| 0 <= j < s.len() implies exists|i: int|
            0 <= i < d.len() && same_path(d[i], #[trigger] s[j]) by {
            if j < init.len() {
                assert(s[j] == init[j]);
                let i = choose|i: int| 0 <= i < di.len() && same_path(di[i], #[trigger] init[j]);
                assert(d[i] == di[i]);
            } else {
                if exists|q: int| 0 <= q < di.len() && components(#[trigger] di[q]) == components(s.last()) {
                    let q = choose|q: int| 0 <= q < di.len() && components(#[trigger] di[q]) == components(s.last());
                    assert(d[q] == di[q]);
                } else {
                    assert(d[di.len() as int] == s.last());
                }
            }
        }
    }
}

/// Deduplicating `a + b` keeps the deduplicated `a` in front, then paths of `b`
/// that differ (as paths) from every path of `a`.
#[verifier::spinoff_prover]
#[verifier::rlimit(80)]
proof fn lemma_dedup_concat(a: Seq<Seq<char>>, b: Seq<Seq<char>>)
    ensures
        dedup_paths(a + b).len() >= dedup_paths(a).len(),
        dedup_paths(a + b).take(dedup_paths(a).len() as int) == dedup_paths(a),
        forall|i: int|
            dedup_paths(a).len() <= i < dedup_paths(a + b).len() ==> exists|k: int|
                0 <= k < b.len() && b[k] == #[trigger] dedup_paths(a + b)[i],
        forall|i: int, j: int|
            dedup_paths(a).len() <= i < dedup_paths(a + b).len() && 0 <= j < a.len() ==> !same_path(
                #[trigger] dedup_paths(a + b)[i],
                #[trigger] a[j],
            ),
        exists|idx: Seq<int>| picks_from(idx, dedup_paths(a + b).skip(dedup_paths(a).len() as int), b),
    decreases b.len(),
{
    let da = dedup_paths(a);
    if b.len() == 0 {
        assert(a + b =~= a);
        assert(da.take(da.len() as int) =~= da);
        assert(picks_from(Seq::<int>::empty(), dedup_paths(a + b).skip(da.len() as int), b));
    } else {
        let bi = b.drop_last();
        assert((a + b).drop_last() =~= a + bi);
        assert((a + b).last() == b.last());
        lemma_dedup_concat(a, bi);
        lemma_dedup_members(a);
        let init = dedup_paths(a + bi);
        let d = dedup_paths(a + b);
        let idx0 = choose|idx: Seq<int>| picks_from(idx, init.skip(da.len() as int), bi);
        if exists|j: int| 0 <= j < init.len() && components(#[trigger] init[j]) == components(b.last()) {
            assert(d == init);
            assert forall|i: int| da.len() <= i < d.len() implies exists|k: int|
                0 <= k < b.len() && b[k] == #[trigger] d[i] by {
                let k = choose|k: int| 0 <= k < bi.len() && bi[k] == init[i];
                assert(b[k] == bi[k]);
            }
            assert(picks_from(idx0, d.skip(da.len() as int), b)) by {
                assert forall|i: int| 0 <= i < idx0.len() implies 0 <= #[trigger] idx0[i] < b.len()
                    && d.skip(da.len() as int)[i] == b[idx0[i]] by {
                    assert(bi[idx0[i]] == b[idx0[i]]);
                }
            }
        } else {
            assert(d == init.push(b.last()));
            assert(d.take(da.len() as int) =~= init.take(da.len() as int));
            assert forall|i: int| da.len() <= i < d.len() implies exists|k: int|
                0 <= k < b.len() && b[k] == #[trigger] d[i] by {
                if i < init.len() {
                    assert(d[i] == init[i]);
                    let k = choose|k: int| 0 <= k < bi.len() && bi[k] == init[i];
                    assert(b[k] == bi[k]);
                } else {
                    assert(b[b.len() - 1] == d[i]);
                }
            }
            let idx1 = idx0.push(bi.len() as int);
            assert(picks_from(idx1, d.skip(da.len() as int), b)) by {
                let xs = d.skip(da.len() as int);
                assert(xs =~= init.skip(da.len() as int).push(b.last()));
                assert forall|i: int| 0 <= i < idx1.len() implies 0 <= #[trigger] idx1[i] < b.len()
                    && xs[i] == b[idx1[i]] by {
                    if i < idx0.len() {
                        assert(idx1[i] == idx0[i]);
                        assert(bi[idx0[i]] == b[idx0[i]]);
                    }
                }
            }
            assert forall|i: int, j: int| da.len() <= i < d.len() && 0 <= j < a.len() implies !same_path(
                #[trigger] d[i],
                #[trigger] a[j],
            ) by {
                if i < init.len() {
                    assert(d[i] == init[i]);
                } else {
                    assert(d[i] == b.last());
                    if same_path(d[i], a[j]) {
                        let q = choose|q: int| 0 <= q < da.len() && same_path(da[q], #[trigger] a[j]);
                        assert(init[q] == da[q]);
                        assert(components(init[q]) == components(b.last()));
                    }
                }
            }
        }
    }
}

/// The manifest's logs come first: the leading candidates are the manifest's
/// logs for the scheme, each once, ordered by descending stop time; every later
/// candidate is a log file of the directory that is no manifest log, and these
/// follow the directory's logs ordered by descending modification time.
pub proof fn lemma_manifest_logs_first(
    log_dir: Seq<char>,
    logs: Seq<ManifestLog>,
    scheme: Option<Seq<char>>,
    files: Seq<LogFile>,
)
    ensures
        ({
            let ms = manifest_spec(log_dir, logs, scheme);
            let out = candidates_spec(log_dir, Some(logs), scheme, files);
            exists|k: int, srt: Seq<(int, Seq<char>)>, t: Seq<(int, Seq<char>)>, idx: Seq<int>|
                {
                    &&& 0 <= k <= out.len()
                    &&& is_sorted_desc(t)
                    &&& forall|x: (int, Seq<char>)| t.contains(x) <==> dir_spec(files).contains(x)
                    &&& picks_from(idx, out.skip(k), paths_of(t))
                    &&& is_sorted_desc(srt)
                    &&& forall|x: (int, Seq<char>)| srt.contains(x) <==> ms.contains(x)
                    &&& out.take(k) == dedup_paths(paths_of(srt))
                    &&& forall|i: int|
                        k <= i < out.len() ==> paths_of(dir_spec(files)).contains(#[trigger] out[i])
                    &&& forall|i: int, j: int|
                        k <= i < out.len() && 0 <= j < ms.len() ==> components(#[trigger] out[i])
                            != components(#[trigger] ms[j].1)
                }
        }),
{
    let ms = manifest_spec(log_dir, logs, scheme);
    let out = candidates_spec(log_dir, Some(logs), scheme, files);
    let dsp = dir_spec(files);
    let srt = sort_desc(ms);
    let ds = sort_desc(dsp);
    let a = paths_of(srt);
    let b = paths_of(ds);
    lemma_sort_desc_sorted(ms);
    lemma_sort_desc_members(ms);
    lemma_sort_desc_members(dsp);
    assert(paths_of(srt + ds) =~= a + b);
    lemma_dedup_concat(a, b);
    let k = dedup_paths(a).len() as int;
    assert(out.take(k) == dedup_paths(a));
    lemma_sort_desc_sorted(dsp);
    let idx = choose|idx: Seq<int>| picks_from(idx, dedup_paths(a + b).skip(k), b);
    assert forall|x: (int, Seq<char>)| ds.contains(x) <==> dsp.contains(x) by {
        if ds.contains(x) {
            let i = choose|i: int| 0 <= i < ds.len() && ds[i] == x;
            let j = choose|j: int| 0 <= j < dsp.len() && dsp[j] == #[trigger] sort_desc(dsp)[i];
        }
        if dsp.contains(x) {
            let j = choose|j: int| 0 <= j < dsp.len() && dsp[j] == x;
            let i = choose|i: int| 0 <= i < dsp.len() && sort_desc(dsp)[i] == #[trigger] dsp[j];
        }
    }
    assert forall|x: (int, Seq<char>)| srt.contains(x) <==> ms.contains(x) by {
        if srt.contains(x) {
            let i = choose|i: int| 0 <= i < srt.len() && srt[i] == x;
            let j = choose|j: int| 0 <= j < ms.len() && ms[j] == #[trigger] sort_desc(ms)[i];
        }
        if ms.contains(x) {
            let j = choose|j: int| 0 <= j < ms.len() && ms[j] == x;
            let i = choose|i: int| 0 <= i < ms.len() && sort_desc(ms)[i] == #[trigger] ms[j];
        }
    }
    assert forall|i: int| k <= i < out.len() implies paths_of(dsp).contains(#[trigger] out[i]) by {
        let q = choose|q: int| 0 <= q < b.len() && b[q] == out[i];
        let r = choose|r: int| 0 <= r < dsp.len() && dsp[r] == #[trigger] sort_desc(dsp)[q];
        assert(paths_of(dsp)[r] == out[i]);
    }
    assert forall|i: int, j: int| k <= i < out.len() && 0 <= j < ms.len() implies components(
        #[trigger] out[i],
    ) != components(#[trigger] ms[j].1) by {
        let q = choose|q: int| 0 <= q < ms.len() && sort_desc(ms)[q] == #[trigger] ms[j];
        assert(a[q] == ms[j].1);
        assert(!same_path(out[i], a[q]));
    }
}

} // verus!
