//! Character-level helpers shared by the parsers: conversions between strings and
//! character vectors, prefix tests, whitespace trimming and splitting.
use vstd::prelude::*;

verus! {

/// `s` begins with `p`.
pub open spec fn starts_with(s: Seq<char>, p: Seq<char>) -> bool {
    p.len() <= s.len() && s.take(p.len() as int) == p
}

/// `s` ends with `p`.
pub open spec fn ends_with(s: Seq<char>, p: Seq<char>) -> bool {
    p.len() <= s.len() && s.skip(s.len() - p.len()) == p
}

/// The views of a vector of character vectors.
pub open spec fn vviews(v: Seq<Vec<char>>) -> Seq<Seq<char>> {
    v.map_values(|x: Vec<char>| x@)
}

/// The views of a vector of strings.
pub open spec fn string_views(v: Seq<String>) -> Seq<Seq<char>> {
    v.map_values(|s: String| s@)
}

/// The characters of a string slice, in order.
pub fn chars_of(s: &str) -> (out: Vec<char>)
    ensures
        out@ == s@,
{
    let mut out: Vec<char> = Vec::new();
    for c in it: s.chars()
        invariant
            out@ == it.seq().take(it.index() as int),
            it.seq() == s@,
    {
        out.push(c);
    }
    out
}

/// Wraps `String::push`, which appends one character.
#[verifier::external_body]
fn push_char(s: &mut String, c: char)
    ensures
        final(s)@ == old(s)@.push(c),
{
    s.push(c);
}

/// The string made of the characters of `v`.
pub fn string_of(v: &[char]) -> (out: String)
    ensures
        out@ == v@,
{
    let mut out = String::new();
    let mut i: usize = 0;
    while i < v.len()
        invariant
            i <= v@.len(),
            out@ == v@.take(i as int),
        decreases v@.len() - i,
    {
        push_char(&mut out, v[i]);
        assert(v@.take(i as int).push(v@[i as int]) =~= v@.take(i + 1));
        i = i + 1;
    }
    assert(v@.take(v@.len() as int) =~= v@);
    out
}

/// The string made of the characters of `v[from..to]`.
pub fn string_of_range(v: &[char], from: usize, to: usize) -> (out: String)
    requires
        from <= to <= v@.len(),
    ensures
        out@ == v@.subrange(from as int, to as int),
{
    let mut out = String::new();
    let mut i: usize = from;
    while i < to
        invariant
            from <= i <= to <= v@.len(),
            out@ == v@.subrange(from as int, i as int),
        decreases to - i,
    {
        push_char(&mut out, v[i]);
        assert(v@.subrange(from as int, i as int).push(v@[i as int]) =~= v@.subrange(
            from as int,
            i + 1,
        ));
        i = i + 1;
    }
    out
}

/// The concatenation of two strings.
pub fn concat_strs(a: &str, b: &str) -> (out: String)
    ensures
        out@ == a@ + b@,
{
    let ac = chars_of(a);
    let bc = chars_of(b);
    string_of(concat_chars(ac.as_slice(), bc.as_slice()).as_slice())
}

/// Whether `c` occurs in `s`.
pub fn contains_char(s: &str, c: char) -> (r: bool)
    ensures
        r == s@.contains(c),
{
    let cs = chars_of(s);
    let mut i: usize = 0;
    while i < cs.len()
        invariant
            i <= cs@.len(),
            cs@ == s@,
            forall|j: int| 0 <= j < i ==> cs@[j] != c,
        decreases cs@.len() - i,
    {
        if cs[i] == c {
            return true;
        }
        i = i + 1;
    }
    false
}

/// An owned copy of a string slice.
pub fn owned(s: &str) -> (out: String)
    ensures
        out@ == s@,
{
    s.to_owned()
}

/// The characters `v[from..to]`.
pub fn sub_chars(v: &[char], from: usize, to: usize) -> (out: Vec<char>)
    requires
        from <= to <= v@.len(),
    ensures
        out@ == v@.subrange(from as int, to as int),
{
    let mut out: Vec<char> = Vec::new();
    let mut i: usize = from;
    while i < to
        invariant
            from <= i <= to <= v@.len(),
            out@ == v@.subrange(from as int, i as int),
        decreases to - i,
    {
        out.push(v[i]);
        assert(v@.subrange(from as int, i as int).push(v@[i as int]) =~= v@.subrange(
            from as int,
            i + 1,
        ));
        i = i + 1;
    }
    out
}

/// `a` followed by `b`.
pub fn concat_chars(a: &[char], b: &[char]) -> (out: Vec<char>)
    ensures
        out@ == a@ + b@,
{
    let mut out = sub_chars(a, 0, a.len());
    assert(out@ =~= a@);
    let mut i: usize = 0;
    while i < b.len()
        invariant
            i <= b@.len(),
            out@ == a@ + b@.take(i as int),
        decreases b@.len() - i,
    {
        out.push(b[i]);
        assert(a@ + b@.take(i + 1) =~= (a@ + b@.take(i as int)).push(b@[i as int]));
        i = i + 1;
    }
    assert(b@.take(b@.len() as int) =~= b@);
    out
}

/// Whether `s` begins with `p`.
pub fn has_prefix(s: &[char], p: &[char]) -> (r: bool)
    ensures
        r == starts_with(s@, p@),
{
    if p.len() > s.len() {
        return false;
    }
    let mut i: usize = 0;
    while i < p.len()
        invariant
            p@.len() <= s@.len(),
            i <= p@.len(),
            forall|j: int| 0 <= j < i ==> s@[j] == p@[j],
        decreases p@.len() - i,
    {
        if s[i] != p[i] {
            assert(s@.take(p@.len() as int)[i as int] != p@[i as int]);
            return false;
        }
        i = i + 1;
    }
    assert(s@.take(p@.len() as int) =~= p@);
    true
}

/// Whether `s` begins with `p`, for a string and a literal.
pub fn str_has_prefix(s: &str, p: &str) -> (r: bool)
    ensures
        r == starts_with(s@, p@),
{
    let sc = chars_of(s);
    let pc = chars_of(p);
    has_prefix(sc.as_slice(), pc.as_slice())
}

/// Whether `s` ends with `p`.
pub fn has_suffix(s: &[char], p: &[char]) -> (r: bool)
    ensures
        r == ends_with(s@, p@),
{
    if p.len() > s.len() {
        return false;
    }
    let off = s.len() - p.len();
    let mut i: usize = 0;
    while i < p.len()
        invariant
            p@.len() <= s@.len(),
            off == s@.len() - p@.len(),
            off + p@.len() == s.len(),
            i <= p@.len(),
            forall|j: int| 0 <= j < i ==> s@[off + j] == p@[j],
        decreases p@.len() - i,
    {
        assert(off + i < s@.len());
        if s[off + i] != p[i] {
            assert(s@.skip(off as int)[i as int] != p@[i as int]);
            return false;
        }
        i = i + 1;
    }
    assert(s@.skip(off as int) =~= p@);
    true
}

/// Whether two character sequences are equal.
pub fn chars_eq(a: &[char], b: &[char]) -> (r: bool)
    ensures
        r == (a@ == b@),
{
    if a.len() != b.len() {
        return false;
    }
    let r = has_prefix(a, b);
    assert(a@.take(b@.len() as int) =~= a@);
    r
}

/// Whether two strings are equal.
pub fn str_eq(a: &str, b: &str) -> (r: bool)
    ensures
        r == (a@ == b@),
{
    let ac = chars_of(a);
    let bc = chars_of(b);
    chars_eq(ac.as_slice(), bc.as_slice())
}

/// `char::is_whitespace`: the Unicode `White_Space` property.
pub open spec fn is_ws(c: char) -> bool {
    ||| ('\u{9}' <= c && c <= '\u{d}')
    ||| c == ' '
    ||| c == '\u{85}'
    ||| c == '\u{a0}'
    ||| c == '\u{1680}'
    ||| ('\u{2000}' <= c && c <= '\u{200a}')
    ||| c == '\u{2028}'
    ||| c == '\u{2029}'
    ||| c == '\u{202f}'
    ||| c == '\u{205f}'
    ||| c == '\u{3000}'
}

pub fn is_ws_exec(c: char) -> (r: bool)
    ensures
        r == is_ws(c),
{
    ('\u{9}' <= c && c <= '\u{d}') || c == ' ' || c == '\u{85}' || c == '\u{a0}' || c
        == '\u{1680}' || ('\u{2000}' <= c && c <= '\u{200a}') || c == '\u{2028}' || c
        == '\u{2029}' || c == '\u{202f}' || c == '\u{205f}' || c == '\u{3000}'
}

/// Number of leading whitespace characters of `s`.
pub open spec fn lead_ws(s: Seq<char>) -> nat
    decreases s.len(),
{
    if s.len() > 0 && is_ws(s[0]) {
        1 + lead_ws(s.drop_first())
    } else {
        0
    }
}

/// Number of trailing whitespace characters of `s`.
pub open spec fn trail_ws(s: Seq<char>) -> nat
    decreases s.len(),
{
    if s.len() > 0 && is_ws(s.last()) {
        1 + trail_ws(s.drop_last())
    } else {
        0
    }
}

/// `str::trim`: `s` without leading and trailing whitespace.
pub open spec fn trim(s: Seq<char>) -> Seq<char> {
    let t = s.skip(lead_ws(s) as int);
    t.take(t.len() - trail_ws(t))
}

proof fn lemma_lead_ws(s: Seq<char>, i: int)
    requires
        0 <= i <= s.len(),
        forall|j: int| 0 <= j < i ==> is_ws(#[trigger] s[j]),
    ensures
        lead_ws(s) == i + lead_ws(s.skip(i)),
    decreases i,
{
    if i > 0 {
        assert(s.skip(1).skip(i - 1) =~= s.skip(i));
        lemma_lead_ws(s.drop_first(), i - 1);
    } else {
        assert(s.skip(0) =~= s);
    }
}

proof fn lemma_trail_ws(s: Seq<char>, n: int)
    requires
        0 <= n <= s.len(),
        forall|j: int| s.len() - n <= j < s.len() ==> is_ws(#[trigger] s[j]),
    ensures
        trail_ws(s) == n + trail_ws(s.take(s.len() - n)),
    decreases n,
{
    if n > 0 {
        assert(s.drop_last().take(s.drop_last().len() - (n - 1)) =~= s.take(s.len() - n));
        lemma_trail_ws(s.drop_last(), n - 1);
    } else {
        assert(s.take(s.len() as int) =~= s);
    }
}

proof fn lemma_lead_ws_bound(s: Seq<char>)
    ensures
        lead_ws(s) <= s.len(),
        lead_ws(s) < s.len() ==> !is_ws(s[lead_ws(s) as int]),
        forall|j: int| 0 <= j < lead_ws(s) ==> is_ws(#[trigger] s[j]),
    decreases s.len(),
{
    if s.len() > 0 && is_ws(s[0]) {
        lemma_lead_ws_bound(s.drop_first());
        assert forall|j: int| 0 <= j < lead_ws(s) implies is_ws(#[trigger] s[j]) by {
            if j > 0 {
                assert(s[j] == s.drop_first()[j - 1]);
            }
        }
    }
}

proof fn lemma_trail_ws_bound(s: Seq<char>)
    ensures
        trail_ws(s) <= s.len(),
        trail_ws(s) < s.len() ==> !is_ws(s[s.len() - trail_ws(s) - 1]),
    decreases s.len(),
{
    if s.len() > 0 && is_ws(s.last()) {
        lemma_trail_ws_bound(s.drop_last());
    }
}

/// `str::trim` on a character slice.
pub fn trim_chars(s: &[char]) -> (out: Vec<char>)
    ensures
        out@ == trim(s@),
{
    let mut a: usize = 0;
    while a < s.len() && is_ws_exec(s[a])
        invariant
            a <= s@.len(),
            forall|j: int| 0 <= j < a ==> is_ws(#[trigger] s@[j]),
        decreases s@.len() - a,
    {
        a = a + 1;
    }
    proof {
        lemma_lead_ws(s@, a as int);
        assert(lead_ws(s@.skip(a as int)) == 0);
    }
    let mut b: usize = s.len();
    while b > a && is_ws_exec(s[b - 1])
        invariant
            a <= b <= s@.len(),
            forall|j: int| b <= j < s@.len() ==> is_ws(#[trigger] s@[j]),
        decreases b,
    {
        b = b - 1;
    }
    let ghost t = s@.skip(a as int);
    proof {
        assert forall|j: int| t.len() - (s@.len() - b) <= j < t.len() implies is_ws(
            #[trigger] t[j],
        ) by {
            assert(t[j] == s@[a + j]);
        }
        lemma_trail_ws(t, s@.len() - b);
        let u = t.take(t.len() - (s@.len() - b));
        if u.len() > 0 {
            assert(u.last() == s@[b - 1]);
        }
        assert(trail_ws(u) == 0);
    }
    let mut out: Vec<char> = Vec::new();
    let mut i: usize = a;
    while i < b
        invariant
            a <= i <= b <= s@.len(),
            out@ == s@.subrange(a as int, i as int),
        decreases b - i,
    {
        out.push(s[i]);
        assert(s@.subrange(a as int, i as int).push(s@[i as int]) =~= s@.subrange(
            a as int,
            i + 1,
        ));
        i = i + 1;
    }
    assert(out@ =~= trim(s@));
    out
}

/// Pieces of `s` between occurrences of a separator, as `str::split` yields them
/// (an empty `s` gives one empty piece).
pub open spec fn split_by(s: Seq<char>, sep: spec_fn(char) -> bool) -> Seq<Seq<char>>
    decreases s.len(),
{
    if s.len() == 0 {
        seq![Seq::<char>::empty()]
    } else {
        let init = split_by(s.drop_last(), sep);
        if sep(s.last()) {
            init.push(Seq::<char>::empty())
        } else {
            init.update(init.len() - 1, init.last().push(s.last()))
        }
    }
}

pub proof fn lemma_split_by_nonempty(s: Seq<char>, sep: spec_fn(char) -> bool)
    ensures
        split_by(s, sep).len() >= 1,
    decreases s.len(),
{
    if s.len() > 0 {
        lemma_split_by_nonempty(s.drop_last(), sep);
    }
}

/// Whether `c` is `'\n'`.
pub open spec fn is_newline(c: char) -> bool {
    c == '\n'
}

/// Whether `c` is `'\r'` or `'\n'`.
pub open spec fn is_line_break(c: char) -> bool {
    c == '\r' || c == '\n'
}

/// Whether `c` is `'/'`.
pub open spec fn is_slash(c: char) -> bool {
    c == '/'
}

/// Split a character slice at every character that the separator kind selects:
/// `0` for `'\n'`, `1` for `'\r'` or `'\n'`, `2` for `'/'`.
pub fn split_chars(s: &[char], kind: u8) -> (out: Vec<Vec<char>>)
    requires
        kind <= 2,
    ensures
        vviews(out@) == split_by(
            s@,
            if kind == 0 {
                |c: char| is_newline(c)
            } else if kind == 1 {
                |c: char| is_line_break(c)
            } else {
                |c: char| is_slash(c)
            },
        ),
{
    let ghost sep: spec_fn(char) -> bool = if kind == 0 {
        |c: char| is_newline(c)
    } else if kind == 1 {
        |c: char| is_line_break(c)
    } else {
        |c: char| is_slash(c)
    };
    let mut done: Vec<Vec<char>> = Vec::new();
    let mut cur: Vec<char> = Vec::new();
    let mut i: usize = 0;
    proof {
        assert(s@.take(0) =~= Seq::<char>::empty());
        assert(vviews(done@).push(cur@) =~= seq![Seq::<char>::empty()]);
    }
    while i < s.len()
        invariant
            i <= s@.len(),
            kind <= 2,
            sep == (if kind == 0 {
                |c: char| is_newline(c)
            } else if kind == 1 {
                |c: char| is_line_break(c)
            } else {
                |c: char| is_slash(c)
            }),
            vviews(done@).push(cur@) == split_by(s@.take(i as int), sep),
        decreases s@.len() - i,
    {
        let c = s[i];
        let is_sep = if kind == 0 {
            c == '\n'
        } else if kind == 1 {
            c == '\r' || c == '\n'
        } else {
            c == '/'
        };
        assert(is_sep == sep(c));
        let ghost prev = s@.take(i as int);
        assert(s@.take(i + 1).drop_last() =~= prev);
        assert(s@.take(i + 1).last() == c);
        if is_sep {
            let old_cur = cur;
            let ghost old_done = done@;
            cur = Vec::new();
            done.push(old_cur);
            assert(vviews(done@) =~= vviews(old_done).push(old_cur@));
            assert(vviews(done@).push(cur@) =~= split_by(prev, sep).push(Seq::<char>::empty()));
        } else {
            let ghost before = vviews(done@).push(cur@);
            cur.push(c);
            assert(vviews(done@).push(cur@) =~= before.update(
                before.len() - 1,
                before.last().push(c),
            ));
        }
        i = i + 1;
    }
    assert(s@.take(s@.len() as int) =~= s@);
    let ghost before = vviews(done@);
    let ghost old_done = done@;
    done.push(cur);
    assert(done@ == old_done.push(cur));
    assert(vviews(done@) =~= before.push(cur@));
    done
}

/// Wraps `String::from_utf8_lossy`, which decodes bytes as UTF-8 and puts
/// U+FFFD in place of each invalid sequence. The contract names the result and,
/// as the documentation gives, says that valid UTF-8 decodes as such, and that
/// bytes below 0x80 decode one for one. What an invalid sequence becomes is not
/// stated beyond the name.
#[verifier::external_body]
pub(crate) fn utf8_lossy(bytes: &[u8]) -> (out: String)
    ensures
        out@ == utf8_lossy_decode(bytes@),
        vstd::utf8::valid_utf8(bytes@) ==> out@ == vstd::utf8::decode_utf8(bytes@),
        (forall|i: int| 0 <= i < bytes@.len() ==> #[trigger] bytes@[i] < 0x80) ==> out@
            == bytes@.map_values(|b: u8| b as char),
{
    String::from_utf8_lossy(bytes).into_owned()
}

/// What `String::from_utf8_lossy` makes of a byte sequence.
pub uninterp spec fn utf8_lossy_decode(bytes: Seq<u8>) -> Seq<char>;

/// Wraps `str::to_lowercase`, which maps each character to its Unicode lowercase
/// form. The contract names the result and, as Unicode's case mapping gives, says
/// that ASCII characters map to their ASCII lowercase one for one.
#[verifier::external_body]
pub(crate) fn to_lowercase(s: &str) -> (out: String)
    ensures
        out@ == lowercase_of(s@),
        (forall|i: int| 0 <= i < s@.len() ==> (#[trigger] s@[i]) < '\u{80}') ==> out@
            == s@.map_values(|c: char| ascii_lower(c)),
{
    s.to_lowercase()
}

/// What `str::to_lowercase` makes of a string.
pub uninterp spec fn lowercase_of(s: Seq<char>) -> Seq<char>;

/// ASCII lowercase of one character.
pub open spec fn ascii_lower(c: char) -> char {
    if 'A' <= c && c <= 'Z' {
        ((c as u32) + 32) as char
    } else {
        c
    }
}

} // verus!
