//! Unix path strings: joining, components, lexical normalization and prefix
//! stripping, as `std::path` does them on Unix.
use vstd::prelude::*;

use crate::text::{
    chars_eq, chars_of, is_slash, lemma_split_by_nonempty, split_by, split_chars, string_of,
    sub_chars, vviews,
};

verus! {

/// `Path::join` on Unix: an absolute `p` replaces `base`; otherwise `p` follows
/// `base`, with a separator between them unless `base` is empty or ends in one.
pub open spec fn join_spec(base: Seq<char>, p: Seq<char>) -> Seq<char> {
    if p.len() > 0 && p[0] == '/' {
        p
    } else if base.len() > 0 && base.last() != '/' {
        base + seq!['/'] + p
    } else {
        base + p
    }
}

/// Join `p` onto `base` (see `join_spec`).
pub fn join_path(base: &str, p: &str) -> (out: String)
    ensures
        out@ == join_spec(base@, p@),
{
    let b = chars_of(base);
    let q = chars_of(p);
    if q.len() > 0 && q[0] == '/' {
        return string_of(q.as_slice());
    }
    let mut v = b;
    if v.len() > 0 && v[v.len() - 1] != '/' {
        v.push('/');
    }
    let ghost head = v@;
    let mut i: usize = 0;
    while i < q.len()
        invariant
            i <= q@.len(),
            v@ == head + q@.take(i as int),
        decreases q@.len() - i,
    {
        v.push(q[i]);
        assert(head + q@.take(i + 1) =~= (head + q@.take(i as int)).push(q@[i as int]));
        i = i + 1;
    }
    assert(q@.take(q@.len() as int) =~= q@);
    proof {
        if b@.len() > 0 && b@.last() != '/' {
            assert(head =~= b@ + seq!['/']);
        }
    }
    string_of(v.as_slice())
}


/// A body segment that is a component: not empty and not `.`.
pub open spec fn is_real(seg: Seq<char>) -> bool {
    seg.len() > 0 && seg != seq!['.']
}

/// The segments of `ps` that are components.
pub open spec fn real_segs(ps: Seq<Seq<char>>) -> Seq<Seq<char>>
    decreases ps.len(),
{
    if ps.len() == 0 {
        Seq::empty()
    } else {
        let init = real_segs(ps.drop_last());
        if is_real(ps.last()) {
            init.push(ps.last())
        } else {
            init
        }
    }
}

/// Length of the leading root (`/`) or current-directory (`.`) component.
pub open spec fn start_len(s: Seq<char>) -> int {
    if s.len() > 0 && s[0] == '/' {
        1
    } else if s == seq!['.'] || (s.len() >= 2 && s[0] == '.' && s[1] == '/') {
        1
    } else {
        0
    }
}

/// The leading component: the root `/`, a leading `.`, or none.
pub open spec fn start_comp(s: Seq<char>) -> Seq<Seq<char>> {
    if s.len() > 0 && s[0] == '/' {
        seq![seq!['/']]
    } else if start_len(s) == 1 {
        seq![seq!['.']]
    } else {
        Seq::empty()
    }
}

/// The segments of the text after the leading component, split at `/`.
pub open spec fn body_pieces(s: Seq<char>) -> Seq<Seq<char>> {
    split_by(s.skip(start_len(s)), |c: char| is_slash(c))
}

/// `Path::components` on Unix: the root or a leading `.`, then every segment that is
/// not empty or `.` (`..` included). Two paths are equal as `Path`s exactly when
/// their components are.
pub open spec fn components(s: Seq<char>) -> Seq<Seq<char>> {
    start_comp(s) + real_segs(body_pieces(s))
}

/// The segments `ps` joined with `/`.
pub open spec fn join_slash(ps: Seq<Seq<char>>) -> Seq<char>
    decreases ps.len(),
{
    if ps.len() == 0 {
        Seq::empty()
    } else if ps.len() == 1 {
        ps[0]
    } else {
        join_slash(ps.drop_last()) + seq!['/'] + ps.last()
    }
}

/// The segs segments of `ps`, as `Vec`s.
fn real_segs_exec(ps: &Vec<Vec<char>>) -> (out: Vec<Vec<char>>)
    ensures
        vviews(out@) == real_segs(vviews(ps@)),
{
    let ghost pv = vviews(ps@);
    let mut dot: Vec<char> = Vec::new();
    dot.push('.');
    assert(dot@ =~= seq!['.']);
    let mut out: Vec<Vec<char>> = Vec::new();
    let mut i: usize = 0;
    while i < ps.len()
        invariant
            i <= ps@.len(),
            pv == vviews(ps@),
            dot@ == seq!['.'],
            vviews(out@) == real_segs(pv.take(i as int)),
        decreases ps@.len() - i,
    {
        assert(pv.take(i + 1).drop_last() =~= pv.take(i as int));
        assert(pv.take(i + 1).last() == ps@[i as int]@);
        if ps[i].len() > 0 && !chars_eq(ps[i].as_slice(), dot.as_slice()) {
            let ghost before = out@;
            let c = sub_chars(ps[i].as_slice(), 0, ps[i].len());
            assert(c@ =~= ps@[i as int]@);
            out.push(c);
            assert(out@ == before.push(c));
            assert(vviews(out@) =~= vviews(before).push(ps@[i as int]@));
        }
        i = i + 1;
    }
    assert(pv.take(ps@.len() as int) =~= pv);
    out
}

fn start_len_exec(s: &[char]) -> (n: usize)
    ensures
        n == start_len(s@),
{
    if s.len() > 0 && s[0] == '/' {
        1
    } else if (s.len() == 1 && s[0] == '.') || (s.len() >= 2 && s[0] == '.' && s[1] == '/') {
        assert(s.len() == 1 ==> s@ =~= seq!['.']);
        1
    } else {
        assert(s@ != seq!['.'] || s@.len() != 1);
        0
    }
}

/// The segments of the body of `s`.
fn body_pieces_exec(s: &[char]) -> (out: Vec<Vec<char>>)
    ensures
        vviews(out@) == body_pieces(s@),
{
    let n = start_len_exec(s);
    let body = sub_chars(s, n, s.len());
    assert(body@ =~= s@.skip(n as int));
    split_chars(body.as_slice(), 2)
}

/// The components of a path (see `components`).
pub fn components_of(s: &[char]) -> (out: Vec<Vec<char>>)
    ensures
        vviews(out@) == components(s@),
{
    let pieces = body_pieces_exec(s);
    let segs = real_segs_exec(&pieces);
    let mut out: Vec<Vec<char>> = Vec::new();
    if s.len() > 0 && s[0] == '/' {
        let mut c: Vec<char> = Vec::new();
        c.push('/');
        out.push(c);
        assert(out@ == seq![c]);
    } else if start_len_exec(s) == 1 {
        let mut c: Vec<char> = Vec::new();
        c.push('.');
        out.push(c);
        assert(out@ == seq![c]);
    }
    assert(vviews(out@) =~= start_comp(s@));
    let mut i: usize = 0;
    let ghost head = vviews(out@);
    let ghost rv = vviews(segs@);
    while i < segs.len()
        invariant
            i <= segs@.len(),
            rv == vviews(segs@),
            vviews(out@) == head + rv.take(i as int),
        decreases segs@.len() - i,
    {
        let ghost before = out@;
        let c = sub_chars(segs[i].as_slice(), 0, segs[i].len());
        assert(c@ =~= rv[i as int]);
        out.push(c);
        assert(out@ == before.push(c));
        assert(vviews(out@) =~= vviews(before).push(rv[i as int]));
        assert(head + rv.take(i + 1) =~= (head + rv.take(i as int)).push(rv[i as int]));
        i = i + 1;
    }
    assert(rv.take(segs@.len() as int) =~= rv);
    out
}

/// Whether two paths are equal as `Path`s (component by component).
pub fn paths_equal(a: &str, b: &str) -> (r: bool)
    ensures
        r == (components(a@) == components(b@)),
{
    let ac = chars_of(a);
    let bc = chars_of(b);
    let ca = components_of(ac.as_slice());
    let cb = components_of(bc.as_slice());
    let ghost va = vviews(ca@);
    let ghost vb = vviews(cb@);
    if ca.len() != cb.len() {
        assert(va.len() != vb.len());
        return false;
    }
    let mut i: usize = 0;
    while i < ca.len()
        invariant
            i <= ca@.len() == cb@.len(),
            va == vviews(ca@),
            vb == vviews(cb@),
            va == components(a@),
            vb == components(b@),
            forall|j: int| 0 <= j < i ==> va[j] == vb[j],
        decreases ca@.len() - i,
    {
        if !chars_eq(ca[i].as_slice(), cb[i].as_slice()) {
            assert(va[i as int] == ca@[i as int]@);
            assert(vb[i as int] == cb@[i as int]@);
            assert(va[i as int] != vb[i as int]);
            return false;
        }
        i = i + 1;
    }
    assert(va =~= vb);
    true
}

/// How lexical normalization folds components: `..` drops the last kept
/// component (if any), anything else is kept.
pub open spec fn norm_fold(parts: Seq<Seq<char>>) -> Seq<Seq<char>>
    decreases parts.len(),
{
    if parts.len() == 0 {
        Seq::empty()
    } else {
        let init = norm_fold(parts.drop_last());
        if parts.last() == seq!['.', '.'] {
            if init.len() > 0 {
                init.drop_last()
            } else {
                init
            }
        } else {
            init.push(parts.last())
        }
    }
}

/// Whether a path begins at the root.
pub open spec fn is_absolute(s: Seq<char>) -> bool {
    s.len() > 0 && s[0] == '/'
}

/// A path built from a root flag and segments, as pushing them onto an empty
/// `PathBuf` renders it.
pub open spec fn render(absolute: bool, parts: Seq<Seq<char>>) -> Seq<char> {
    if absolute {
        seq!['/'] + join_slash(parts)
    } else {
        join_slash(parts)
    }
}

/// The segments that lexical normalization keeps.
pub open spec fn normalized_parts(s: Seq<char>) -> Seq<Seq<char>> {
    norm_fold(real_segs(body_pieces(s)))
}

/// Lexical normalization: `.` components dropped, each `..` removing the
/// component before it, without touching the file system.
pub open spec fn normalize_spec(s: Seq<char>) -> Seq<char> {
    render(is_absolute(s), normalized_parts(s))
}

/// The segments `ps` joined with `/`.
pub fn join_slash_exec(ps: &Vec<Vec<char>>) -> (out: Vec<char>)
    ensures
        out@ == join_slash(vviews(ps@)),
{
    let ghost pv = vviews(ps@);
    let mut out: Vec<char> = Vec::new();
    let mut i: usize = 0;
    while i < ps.len()
        invariant
            i <= ps@.len(),
            pv == vviews(ps@),
            out@ == join_slash(pv.take(i as int)),
        decreases ps@.len() - i,
    {
        assert(pv.take(i + 1).drop_last() =~= pv.take(i as int));
        assert(pv.take(i + 1).last() == ps@[i as int]@);
        if i > 0 {
            out.push('/');
        }
        let ghost mid = out@;
        let mut k: usize = 0;
        while k < ps[i].len()
            invariant
                k <= ps@[i as int]@.len(),
                i < ps@.len(),
                out@ == mid + ps@[i as int]@.take(k as int),
            decreases ps@[i as int]@.len() - k,
        {
            out.push(ps[i][k]);
            assert(mid + ps@[i as int]@.take(k + 1) =~= (mid + ps@[i as int]@.take(
                k as int,
            )).push(ps@[i as int]@[k as int]));
            k = k + 1;
        }
        assert(ps@[i as int]@.take(ps@[i as int]@.len() as int) =~= ps@[i as int]@);
        proof {
            if i == 0 {
                assert(mid =~= Seq::<char>::empty());
                assert(out@ =~= pv.take(1)[0]);
            }
        }
        i = i + 1;
    }
    assert(pv.take(ps@.len() as int) =~= pv);
    out
}

/// Lexical normalization (see `normalize_spec`).
pub fn normalize_lexically(path: &str) -> (out: String)
    ensures
        out@ == normalize_spec(path@),
{
    let s = chars_of(path);
    let pieces = body_pieces_exec(s.as_slice());
    let segs = real_segs_exec(&pieces);
    let ghost rv = vviews(segs@);
    let mut kept: Vec<Vec<char>> = Vec::new();
    let mut i: usize = 0;
    while i < segs.len()
        invariant
            i <= segs@.len(),
            rv == vviews(segs@),
            vviews(kept@) == norm_fold(rv.take(i as int)),
        decreases segs@.len() - i,
    {
        assert(rv.take(i + 1).drop_last() =~= rv.take(i as int));
        assert(rv.take(i + 1).last() == segs@[i as int]@);
        let r = &segs[i];
        if r.len() == 2 && r[0] == '.' && r[1] == '.' {
            assert(r@ =~= seq!['.', '.']);
            if kept.len() > 0 {
                let ghost before = kept@;
                kept.pop();
                assert(vviews(kept@) =~= vviews(before).drop_last());
            }
        } else {
            assert(r@ != seq!['.', '.']);
            let ghost before = kept@;
            let c = sub_chars(r.as_slice(), 0, r.len());
            assert(c@ =~= r@);
            kept.push(c);
            assert(kept@ == before.push(c));
            assert(vviews(kept@) =~= vviews(before).push(r@));
        }
        i = i + 1;
    }
    assert(rv.take(segs@.len() as int) =~= rv);
    let joined = join_slash_exec(&kept);
    if s.len() > 0 && s[0] == '/' {
        let mut out: Vec<char> = Vec::new();
        out.push('/');
        assert(out@ =~= seq!['/']);
        let mut k: usize = 0;
        while k < joined.len()
            invariant
                k <= joined@.len(),
                out@ == seq!['/'] + joined@.take(k as int),
            decreases joined@.len() - k,
        {
            out.push(joined[k]);
            assert(seq!['/'] + joined@.take(k + 1) =~= (seq!['/'] + joined@.take(k as int)).push(
                joined@[k as int],
            ));
            k = k + 1;
        }
        assert(joined@.take(joined@.len() as int) =~= joined@);
        string_of(out.as_slice())
    } else {
        string_of(joined.as_slice())
    }
}


/// `a` is a prefix of `b`.
pub open spec fn is_seq_prefix(a: Seq<Seq<char>>, b: Seq<Seq<char>>) -> bool {
    a.len() <= b.len() && b.take(a.len() as int) == a
}

/// Index of the first real segment of `ps` at or after `i` (or `ps.len()`).
pub open spec fn first_real_from(ps: Seq<Seq<char>>, i: int) -> int
    decreases ps.len() - i,
{
    if i < 0 || i >= ps.len() {
        ps.len() as int
    } else if is_real(ps[i]) {
        i
    } else {
        first_real_from(ps, i + 1)
    }
}

/// Index of the last real segment of `ps` (or -1).
pub open spec fn last_real(ps: Seq<Seq<char>>) -> int
    decreases ps.len(),
{
    if ps.len() == 0 {
        -1
    } else if is_real(ps.last()) {
        ps.len() - 1
    } else {
        last_real(ps.drop_last())
    }
}

/// Index of the `k`-th real segment of `ps` at or after `i` (or `ps.len()`).
pub open spec fn kth_real_from(ps: Seq<Seq<char>>, k: int, i: int) -> int
    decreases ps.len() - i,
{
    if i < 0 || i >= ps.len() {
        ps.len() as int
    } else if is_real(ps[i]) {
        if k <= 1 {
            i
        } else {
            kth_real_from(ps, k - 1, i + 1)
        }
    } else {
        kth_real_from(ps, k, i + 1)
    }
}

/// The text of the segments from index `from` on, without leading and trailing
/// segments that are not components.
pub open spec fn trimmed_from(ps: Seq<Seq<char>>, from: int) -> Seq<char> {
    let a = first_real_from(ps, from);
    let b = last_real(ps);
    if a >= ps.len() || a > b {
        Seq::empty()
    } else {
        join_slash(ps.subrange(a, b + 1))
    }
}

/// `Path::strip_prefix` on Unix: if the components of `base` begin those of `p`,
/// the text of `p` after them (as `Components::as_path` trims it); else `None`.
pub open spec fn strip_prefix_spec(p: Seq<char>, base: Seq<char>) -> Option<Seq<char>> {
    let cp = components(p);
    let cb = components(base);
    if !is_seq_prefix(cb, cp) {
        None
    } else {
        let ps = body_pieces(p);
        if cb.len() == 0 {
            let b = last_real(ps);
            Some(
                p.take(start_len(p)) + if b < 0 {
                    Seq::empty()
                } else {
                    join_slash(ps.take(b + 1))
                },
            )
        } else {
            let k = cb.len() - start_comp(p).len();
            let from = if k <= 0 {
                0
            } else {
                kth_real_from(ps, k, 0) + 1
            };
            Some(trimmed_from(ps, from))
        }
    }
}

fn is_real_exec(seg: &Vec<char>) -> (r: bool)
    ensures
        r == is_real(seg@),
{
    let r = seg.len() > 0 && !(seg.len() == 1 && seg[0] == '.');
    assert(seg@.len() == 1 && seg@[0] == '.' <==> seg@ =~= seq!['.']);
    r
}

fn first_real_from_exec(ps: &Vec<Vec<char>>, from: usize) -> (out: usize)
    ensures
        out == first_real_from(vviews(ps@), from as int),
{
    let ghost pv = vviews(ps@);
    let mut i = from;
    while i < ps.len() && !is_real_exec(&ps[i])
        invariant
            from <= i,
            pv == vviews(ps@),
            first_real_from(pv, from as int) == first_real_from(pv, i as int),
        decreases ps@.len() - i,
    {
        i = i + 1;
    }
    if i < ps.len() {
        assert(pv[i as int] == ps@[i as int]@);
        i
    } else {
        ps.len()
    }
}

fn last_real_exec(ps: &Vec<Vec<char>>) -> (out: Option<usize>)
    ensures
        match out {
            Some(b) => b as int == last_real(vviews(ps@)) && b < ps@.len(),
            None => last_real(vviews(ps@)) == -1,
        },
{
    let ghost pv = vviews(ps@);
    let mut n = ps.len();
    assert(pv.take(n as int) =~= pv);
    while n > 0 && !is_real_exec(&ps[n - 1])
        invariant
            n <= ps@.len(),
            pv == vviews(ps@),
            last_real(pv) == last_real(pv.take(n as int)),
        decreases n,
    {
        assert(pv.take(n as int).drop_last() =~= pv.take(n - 1));
        assert(pv.take(n as int).last() == ps@[n - 1]@);
        n = n - 1;
    }
    if n > 0 {
        assert(pv.take(n as int).last() == ps@[n - 1]@);
        Some(n - 1)
    } else {
        None
    }
}

fn kth_real_exec(ps: &Vec<Vec<char>>, k: usize) -> (out: usize)
    requires
        k >= 1,
    ensures
        out == kth_real_from(vviews(ps@), k as int, 0),
{
    let ghost pv = vviews(ps@);
    let mut i: usize = 0;
    let mut left = k;
    while i < ps.len()
        invariant
            left >= 1,
            pv == vviews(ps@),
            kth_real_from(pv, k as int, 0) == kth_real_from(pv, left as int, i as int),
        decreases ps@.len() - i,
    {
        assert(pv[i as int] == ps@[i as int]@);
        if is_real_exec(&ps[i]) {
            if left <= 1 {
                return i;
            }
            left = left - 1;
        }
        i = i + 1;
    }
    ps.len()
}

fn sub_segs(ps: &Vec<Vec<char>>, a: usize, b: usize) -> (out: Vec<Vec<char>>)
    requires
        a <= b <= ps@.len(),
    ensures
        vviews(out@) == vviews(ps@).subrange(a as int, b as int),
{
    let mut out: Vec<Vec<char>> = Vec::new();
    let mut i = a;
    while i < b
        invariant
            a <= i <= b <= ps@.len(),
            vviews(out@) == vviews(ps@).subrange(a as int, i as int),
        decreases b - i,
    {
        let ghost before = out@;
        let c = sub_chars(ps[i].as_slice(), 0, ps[i].len());
        assert(c@ =~= ps@[i as int]@);
        out.push(c);
        assert(out@ == before.push(c));
        assert(vviews(out@) =~= vviews(before).push(c@));
        assert(vviews(out@) =~= vviews(ps@).subrange(a as int, i + 1));
        i = i + 1;
    }
    out
}

/// Strip the components of `base` from the front of `p` (see `strip_prefix_spec`).
pub fn strip_prefix(p: &str, base: &str) -> (out: Option<String>)
    ensures
        match (out, strip_prefix_spec(p@, base@)) {
            (None, None) => true,
            (Some(r), Some(sr)) => r@ == sr,
            _ => false,
        },
{
    let pc = chars_of(p);
    let bc = chars_of(base);
    let cp = components_of(pc.as_slice());
    let cb = components_of(bc.as_slice());
    let ghost vp = vviews(cp@);
    let ghost vb = vviews(cb@);
    if cb.len() > cp.len() {
        return None;
    }
    let mut i: usize = 0;
    while i < cb.len()
        invariant
            i <= cb@.len() <= cp@.len(),
            vp == vviews(cp@),
            vb == vviews(cb@),
            vp == components(p@),
            vb == components(base@),
            forall|j: int| 0 <= j < i ==> vp[j] == vb[j],
        decreases cb@.len() - i,
    {
        if !chars_eq(cp[i].as_slice(), cb[i].as_slice()) {
            assert(vp.take(vb.len() as int)[i as int] != vb[i as int]);
            return None;
        }
        i = i + 1;
    }
    assert(vp.take(vb.len() as int) =~= vb);
    let ps = body_pieces_exec(pc.as_slice());
    let ghost pv = vviews(ps@);
    if cb.len() == 0 {
        let n0 = start_len_exec(pc.as_slice());
        let head = sub_chars(pc.as_slice(), 0, n0);
        assert(head@ =~= pc@.take(n0 as int));
        let mut out = head;
        match last_real_exec(&ps) {
            None => {},
            Some(b) => {
                let kept = sub_segs(&ps, 0, b + 1);
                assert(vviews(kept@) =~= pv.take(b + 1));
                let tail = join_slash_exec(&kept);
                let mut k: usize = 0;
                let ghost h = out@;
                while k < tail.len()
                    invariant
                        k <= tail@.len(),
                        out@ == h + tail@.take(k as int),
                    decreases tail@.len() - k,
                {
                    out.push(tail[k]);
                    assert(h + tail@.take(k + 1) =~= (h + tail@.take(k as int)).push(
                        tail@[k as int],
                    ));
                    k = k + 1;
                }
                assert(tail@.take(tail@.len() as int) =~= tail@);
            },
        }
        proof {
            if last_real(pv) < 0 {
                assert(out@ =~= pc@.take(start_len(pc@)) + Seq::<char>::empty());
            }
        }
        return Some(string_of(out.as_slice()));
    }
    let sc: usize = if pc.len() > 0 && pc[0] == '/' {
        1
    } else if start_len_exec(pc.as_slice()) == 1 {
        1
    } else {
        0
    };
    assert(sc == start_comp(pc@).len());
    let from = if cb.len() <= sc {
        0
    } else {
        let q = kth_real_exec(&ps, cb.len() - sc);
        if q < ps.len() {
            q + 1
        } else {
            ps.len()
        }
    };
    assert(first_real_from(pv, from as int) == first_real_from(
        pv,
        if vb.len() - start_comp(pc@).len() <= 0 {
            0
        } else {
            kth_real_from(pv, vb.len() - start_comp(pc@).len(), 0) + 1
        },
    ));
    let a = first_real_from_exec(&ps, from);
    let lb = last_real_exec(&ps);
    match lb {
        Some(b) => {
            if a < ps.len() && a <= b {
                let kept = sub_segs(&ps, a, b + 1);
                let t = join_slash_exec(&kept);
                Some(string_of(t.as_slice()))
            } else {
                Some(String::new())
            }
        },
        None => Some(String::new()),
    }
}

/// `path` relative to `root` when it lies under `root`, else `path` unchanged.
pub open spec fn relativize_spec(root: Seq<char>, path: Seq<char>) -> Seq<char> {
    match strip_prefix_spec(path, root) {
        Some(r) => r,
        None => path,
    }
}

/// The text of the segments `ps[..=b]` up to the last component among them (what
/// remains of a path once its last component and any trailing separators or `.`
/// segments are cut off), or nothing when they hold no component.
pub open spec fn before_last(ps: Seq<Seq<char>>, b: int) -> Seq<char> {
    let lr = last_real(ps.take(b));
    if lr < 0 {
        Seq::empty()
    } else {
        join_slash(ps.take(lr + 1))
    }
}

/// `Path::parent` on Unix: the path without its last component; `None` for the
/// root alone and for the empty path, and the empty path for a lone relative
/// component.
pub open spec fn parent_spec(p: Seq<char>) -> Option<Seq<char>> {
    let n = start_len(p);
    let ps = body_pieces(p);
    let b = last_real(ps);
    if b >= 0 {
        Some(p.take(n) + before_last(ps, b))
    } else if n == 1 && p[0] != '/' {
        Some(Seq::empty())
    } else {
        None
    }
}

/// The parent of a path (see `parent_spec`).
pub fn parent_path(p: &str) -> (out: Option<String>)
    ensures
        match (out, parent_spec(p@)) {
            (None, None) => true,
            (Some(r), Some(sr)) => r@ == sr,
            _ => false,
        },
{
    let pc = chars_of(p);
    let n = start_len_exec(pc.as_slice());
    let ps = body_pieces_exec(pc.as_slice());
    let ghost pv = vviews(ps@);
    match last_real_exec(&ps) {
        None => {
            if n == 1 && pc[0] != '/' {
                Some(String::new())
            } else {
                None
            }
        },
        Some(b) => {
            let front = sub_segs(&ps, 0, b);
            assert(vviews(front@) =~= pv.take(b as int));
            let head = sub_chars(pc.as_slice(), 0, n);
            assert(head@ =~= pc@.take(n as int));
            let rest: Vec<char> = match last_real_exec(&front) {
                None => Vec::new(),
                Some(lr) => {
                    let kept = sub_segs(&front, 0, lr + 1);
                    assert(vviews(kept@) =~= pv.take(lr + 1)) by {
                        assert(vviews(kept@) =~= pv.take(b as int).subrange(0, lr + 1));
                    }
                    join_slash_exec(&kept)
                },
            };
            let all = crate::text::concat_chars(head.as_slice(), rest.as_slice());
            Some(string_of(all.as_slice()))
        },
    }
}


/// The components among a single segment.
pub proof fn lemma_real_single(x: Seq<char>)
    ensures
        real_segs(seq![x]) == if is_real(x) {
            seq![x]
        } else {
            Seq::<Seq<char>>::empty()
        },
{
    reveal_with_fuel(real_segs, 2);
    assert(seq![x].drop_last() =~= Seq::<Seq<char>>::empty());
    assert(seq![x].last() == x);
    if is_real(x) {
        assert(Seq::<Seq<char>>::empty().push(x) =~= seq![x]);
    }
}

/// Splitting at a separator distributes over text joined by that separator.
pub proof fn lemma_split_concat(u: Seq<char>, v: Seq<char>)
    ensures
        split_by(u + seq!['/'] + v, |c: char| is_slash(c)) == split_by(u, |c: char| is_slash(c))
            + split_by(v, |c: char| is_slash(c)),
    decreases v.len(),
{
    let sep = |c: char| is_slash(c);
    let w = u + seq!['/'] + v;
    if v.len() == 0 {
        assert(w.drop_last() =~= u);
        assert(split_by(v, sep) =~= seq![Seq::<char>::empty()]);
        assert(split_by(w, sep) =~= split_by(u, sep) + split_by(v, sep));
    } else {
        assert(w.drop_last() =~= u + seq!['/'] + v.drop_last());
        lemma_split_concat(u, v.drop_last());
        lemma_split_by_nonempty(v.drop_last(), sep);
        assert(w.last() == v.last());
        let a = split_by(u, sep);
        let b = split_by(v.drop_last(), sep);
        if sep(v.last()) {
            assert((a + b).push(Seq::<char>::empty()) =~= a + b.push(Seq::<char>::empty()));
        } else {
            let ab = a + b;
            assert(ab.update(ab.len() - 1, ab.last().push(v.last())) =~= a + b.update(
                b.len() - 1,
                b.last().push(v.last()),
            ));
        }
    }
}

/// Text without a separator is one piece.
pub proof fn lemma_split_no_slash(q: Seq<char>)
    requires
        forall|j: int| 0 <= j < q.len() ==> q[j] != '/',
    ensures
        split_by(q, |c: char| is_slash(c)) == seq![q],
    decreases q.len(),
{
    let sep = |c: char| is_slash(c);
    if q.len() > 0 {
        lemma_split_no_slash(q.drop_last());
        assert(q.drop_last().push(q.last()) =~= q);
        assert(seq![q.drop_last()].update(0, q.drop_last().push(q.last())) =~= seq![q]);
    } else {
        assert(q =~= Seq::<char>::empty());
        assert(split_by(q, sep) =~= seq![q]);
    }
}

/// No piece of a split holds the separator.
pub proof fn lemma_split_pieces_no_slash(s: Seq<char>)
    ensures
        no_slash_pieces(split_by(s, |c: char| is_slash(c))),
    decreases s.len(),
{
    if s.len() > 0 {
        lemma_split_pieces_no_slash(s.drop_last());
        lemma_split_by_nonempty(s.drop_last(), |c: char| is_slash(c));
        let init = split_by(s.drop_last(), |c: char| is_slash(c));
        let cur = split_by(s, |c: char| is_slash(c));
        if !is_slash(s.last()) {
            assert forall|i: int, j: int| 0 <= i < cur.len() && 0 <= j < cur[i].len() implies #[trigger] cur[i][j] != '/' by {
                if i < init.len() - 1 {
                    assert(cur[i] == init[i]);
                } else {
                    assert(cur[i] == init.last().push(s.last()));
                    if j < init.last().len() {
                        assert(cur[i][j] == init[init.len() - 1][j]);
                    }
                }
            }
        } else {
            assert forall|i: int, j: int| 0 <= i < cur.len() && 0 <= j < cur[i].len() implies #[trigger] cur[i][j] != '/' by {
                assert(cur[i] == init.push(Seq::<char>::empty())[i]);
                if i < init.len() {
                    assert(cur[i] == init[i]);
                }
            }
        }
    }
}

/// No piece holds a `/`.
pub open spec fn no_slash_pieces(ps: Seq<Seq<char>>) -> bool {
    forall|i: int, j: int| 0 <= i < ps.len() && 0 <= j < ps[i].len() ==> #[trigger] ps[i][j] != '/'
}

/// Splitting text joined with `/` gives back the pieces.
pub proof fn lemma_split_join(qs: Seq<Seq<char>>)
    requires
        qs.len() >= 1,
        no_slash_pieces(qs),
    ensures
        split_by(join_slash(qs), |c: char| is_slash(c)) == qs,
    decreases qs.len(),
{
    if qs.len() == 1 {
        assert forall|j: int| 0 <= j < qs[0].len() implies qs[0][j] != '/' by {
            assert(qs[0][j] == qs[0][j]);
        }
        lemma_split_no_slash(qs[0]);
        assert(seq![qs[0]] =~= qs);
    } else {
        assert forall|i: int, j: int| 0 <= i < qs.drop_last().len() && 0 <= j < qs.drop_last()[i].len() implies #[trigger] qs.drop_last()[i][j] != '/' by {
            assert(qs.drop_last()[i] == qs[i]);
        }
        lemma_split_join(qs.drop_last());
        lemma_split_concat(join_slash(qs.drop_last()), qs.last());
        assert forall|j: int| 0 <= j < qs.last().len() implies qs.last()[j] != '/' by {
            assert(qs[qs.len() - 1][j] == qs.last()[j]);
        }
        lemma_split_no_slash(qs.last());
        assert(qs.drop_last() + seq![qs.last()] =~= qs);
    }
}

/// The first character of joined text is that of the first piece.
pub proof fn lemma_join_first(qs: Seq<Seq<char>>)
    requires
        qs.len() >= 1,
        qs[0].len() > 0,
    ensures
        join_slash(qs).len() > 0,
        join_slash(qs)[0] == qs[0][0],
    decreases qs.len(),
{
    if qs.len() > 1 {
        lemma_join_first(qs.drop_last());
    }
}

/// The components among concatenated segment lists are those of each list.
pub proof fn lemma_real_concat(a: Seq<Seq<char>>, b: Seq<Seq<char>>)
    ensures
        real_segs(a + b) == real_segs(a) + real_segs(b),
    decreases b.len(),
{
    if b.len() == 0 {
        assert(a + b =~= a);
        assert(real_segs(a) + real_segs(b) =~= real_segs(a));
    } else {
        assert((a + b).drop_last() =~= a + b.drop_last());
        lemma_real_concat(a, b.drop_last());
        if is_real(b.last()) {
            assert((real_segs(a) + real_segs(b.drop_last())).push(b.last()) =~= real_segs(a)
                + real_segs(b.drop_last()).push(b.last()));
        }
    }
}

/// Segments that are not components contribute none.
pub proof fn lemma_real_none(ps: Seq<Seq<char>>)
    requires
        forall|j: int| 0 <= j < ps.len() ==> !is_real(#[trigger] ps[j]),
    ensures
        real_segs(ps) == Seq::<Seq<char>>::empty(),
    decreases ps.len(),
{
    if ps.len() > 0 {
        lemma_real_none(ps.drop_last());
    }
}

/// `first_real_from` finds the first component at or after `i`.
pub proof fn lemma_first_real(ps: Seq<Seq<char>>, i: int)
    requires
        0 <= i,
    ensures
        i <= first_real_from(ps, i) <= ps.len() || (i > ps.len() && first_real_from(ps, i)
            == ps.len()),
        first_real_from(ps, i) < ps.len() ==> is_real(ps[first_real_from(ps, i)]),
        i <= ps.len() ==> real_segs(ps.skip(i)) == real_segs(ps.skip(first_real_from(ps, i))),
    decreases ps.len() - i,
{
    if i < ps.len() && !is_real(ps[i]) {
        lemma_first_real(ps, i + 1);
        assert(ps.skip(i) =~= seq![ps[i]] + ps.skip(i + 1));
        lemma_real_concat(seq![ps[i]], ps.skip(i + 1));
        lemma_real_single(ps[i]);
        assert(real_segs(ps.skip(i)) =~= real_segs(ps.skip(i + 1)));
    }
}

/// `last_real` finds the last component.
pub proof fn lemma_last_real(ps: Seq<Seq<char>>)
    ensures
        -1 <= last_real(ps) < ps.len(),
        last_real(ps) >= 0 ==> is_real(ps[last_real(ps)]),
        forall|j: int| last_real(ps) < j < ps.len() ==> !is_real(#[trigger] ps[j]),
    decreases ps.len(),
{
    if ps.len() > 0 && !is_real(ps.last()) {
        lemma_last_real(ps.drop_last());
        assert forall|j: int| last_real(ps) < j < ps.len() implies !is_real(#[trigger] ps[j]) by {
            if j < ps.len() - 1 {
                assert(ps[j] == ps.drop_last()[j]);
            }
        }
    }
}

/// The `k`-th component from `i` on splits the components there.
pub proof fn lemma_kth_real(ps: Seq<Seq<char>>, k: int, i: int)
    requires
        0 <= i <= ps.len(),
        1 <= k <= real_segs(ps.skip(i)).len(),
    ensures
        i <= kth_real_from(ps, k, i) < ps.len(),
        real_segs(ps.subrange(i, kth_real_from(ps, k, i) + 1)).len() == k,
        real_segs(ps.skip(i)) == real_segs(ps.subrange(i, kth_real_from(ps, k, i) + 1))
            + real_segs(ps.skip(kth_real_from(ps, k, i) + 1)),
    decreases ps.len() - i,
{
    if i == ps.len() {
        assert(ps.skip(i) =~= Seq::<Seq<char>>::empty());
        assert(false);
    }
    assert(ps.skip(i) =~= seq![ps[i]] + ps.skip(i + 1));
    lemma_real_concat(seq![ps[i]], ps.skip(i + 1));
    lemma_real_single(ps[i]);
    let q = kth_real_from(ps, k, i);
    if is_real(ps[i]) {
        if k <= 1 {
            assert(ps.subrange(i, i + 1) =~= seq![ps[i]]);
        } else {
            lemma_kth_real(ps, k - 1, i + 1);
            assert(ps.subrange(i, q + 1) =~= seq![ps[i]] + ps.subrange(i + 1, q + 1));
            lemma_real_concat(seq![ps[i]], ps.subrange(i + 1, q + 1));
            assert(real_segs(ps.skip(i)) =~= real_segs(ps.subrange(i, q + 1)) + real_segs(
                ps.skip(q + 1),
            ));
        }
    } else {
        lemma_kth_real(ps, k, i + 1);
        assert(ps.subrange(i, q + 1) =~= seq![ps[i]] + ps.subrange(i + 1, q + 1));
        lemma_real_concat(seq![ps[i]], ps.subrange(i + 1, q + 1));
        assert(real_segs(ps.skip(i)) =~= real_segs(ps.subrange(i, q + 1)) + real_segs(
            ps.skip(q + 1),
        ));
    }
}

/// The components of an absolute path: the root, then the components of the text
/// after it.
pub proof fn lemma_components_abs(y: Seq<char>)
    ensures
        components(seq!['/'] + y) == seq![seq!['/']] + real_segs(split_by(y, |c: char| is_slash(c))),
{
    let x = seq!['/'] + y;
    assert(x.skip(1) =~= y);
}

/// Joining text onto an absolute path adds the text's components.
pub proof fn lemma_components_join(root: Seq<char>, r: Seq<char>)
    requires
        is_absolute(root),
        !is_absolute(r),
    ensures
        components(join_spec(root, r)) == components(root) + real_segs(
            split_by(r, |c: char| is_slash(c)),
        ),
{
    let sep = |c: char| is_slash(c);
    let ry = root.skip(1);
    assert(root =~= seq!['/'] + ry);
    lemma_components_abs(ry);
    let j = join_spec(root, r);
    if root.last() != '/' {
        assert(j =~= seq!['/'] + (ry + seq!['/'] + r));
        lemma_components_abs(ry + seq!['/'] + r);
        lemma_split_concat(ry, r);
        lemma_real_concat(split_by(ry, sep), split_by(r, sep));
    } else if ry.len() == 0 {
        assert(j =~= seq!['/'] + r);
        lemma_components_abs(r);
        assert(split_by(ry, sep) =~= seq![Seq::<char>::empty()]);
        lemma_real_single(Seq::<char>::empty());
        assert(components(root) =~= seq![seq!['/']]);
    } else {
        let u = ry.drop_last();
        assert(ry =~= u + seq!['/'] + Seq::<char>::empty());
        assert(j =~= seq!['/'] + (u + seq!['/'] + r));
        lemma_components_abs(u + seq!['/'] + r);
        lemma_split_concat(u, r);
        lemma_split_concat(u, Seq::<char>::empty());
        lemma_real_concat(split_by(u, sep), split_by(r, sep));
        lemma_real_concat(split_by(u, sep), split_by(Seq::<char>::empty(), sep));
        assert(split_by(Seq::<char>::empty(), sep) =~= seq![Seq::<char>::empty()]);
        lemma_real_single(Seq::<char>::empty());
        assert(real_segs(split_by(u, sep)) + Seq::<Seq<char>>::empty() =~= real_segs(
            split_by(u, sep),
        ));
    }
}

/// Relativizing an absolute path against an absolute root and joining the result
/// back onto the root gives a path equal (as a `Path`) to `p` itself.
#[verifier::rlimit(50)]
pub proof fn lemma_relativize_resolves(root: Seq<char>, p: Seq<char>)
    requires
        is_absolute(root),
        is_absolute(p),
    ensures
        components(join_spec(root, relativize_spec(root, p))) == components(p),
{
    let sep = |c: char| is_slash(c);
    match strip_prefix_spec(p, root) {
        None => {},
        Some(r) => {
            let cp = components(p);
            let cb = components(root);
            let ps = body_pieces(p);
            lemma_components_abs(root.skip(1));
            assert(root =~= seq!['/'] + root.skip(1));
            assert(cb.len() >= 1);
            assert(start_comp(p).len() == 1);
            assert(p.skip(1) =~= p.skip(start_len(p)));
            let k = cb.len() - 1;
            let from = if k <= 0 {
                0
            } else {
                kth_real_from(ps, k, 0) + 1
            };
            assert(cp =~= cb + cp.skip(cb.len() as int));
            assert(cp.skip(cb.len() as int) =~= real_segs(ps).skip(k));
            assert(ps.skip(0) =~= ps);
            // the components after the root's are those of ps from `from` on
            if k > 0 {
                lemma_kth_real(ps, k, 0);
                let q = kth_real_from(ps, k, 0);
                assert(ps.subrange(0, q + 1) =~= ps.take(q + 1));
                assert(real_segs(ps).skip(k) =~= real_segs(ps.skip(from)));
            } else {
                assert(real_segs(ps).skip(k) =~= real_segs(ps.skip(from)));
            }
            lemma_first_real(ps, from);
            lemma_last_real(ps);
            lemma_split_pieces_no_slash(p.skip(1));
            let a = first_real_from(ps, from);
            let b = last_real(ps);
            if a >= ps.len() || a > b {
                assert(r =~= Seq::<char>::empty());
                if a < ps.len() {
                    assert(false);
                }
                assert(ps.skip(a) =~= Seq::<Seq<char>>::empty());
                assert(real_segs(ps.skip(a)) =~= Seq::<Seq<char>>::empty());
                lemma_components_join(root, r);
                assert(split_by(r, sep) =~= seq![Seq::<char>::empty()]);
                lemma_real_single(Seq::<char>::empty());
                assert(components(join_spec(root, r)) =~= cp);
            } else {
                let qs = ps.subrange(a, b + 1);
                assert(r == join_slash(qs));
                assert forall|i: int, j: int|
                    0 <= i < qs.len() && 0 <= j < qs[i].len() implies #[trigger] qs[i][j] != '/' by {
                    assert(qs[i] == ps[a + i]);
                    assert(ps[a + i][j] != '/');
                }
                lemma_split_join(qs);
                lemma_join_first(qs);
                assert(!is_absolute(r));
                lemma_components_join(root, r);
                assert(ps.skip(a) =~= qs + ps.skip(b + 1));
                lemma_real_concat(qs, ps.skip(b + 1));
                assert forall|j: int| 0 <= j < ps.skip(b + 1).len() implies !is_real(
                    #[trigger] ps.skip(b + 1)[j],
                ) by {
                    assert(ps.skip(b + 1)[j] == ps[b + 1 + j]);
                }
                lemma_real_none(ps.skip(b + 1));
                assert(real_segs(qs) + Seq::<Seq<char>>::empty() =~= real_segs(qs));
                assert(components(join_spec(root, r)) =~= cp);
            }
        },
    }
}


/// Drop up to two kept segments.
pub open spec fn pop2(parts: Seq<Seq<char>>) -> Seq<Seq<char>> {
    let once = if parts.len() > 0 {
        parts.drop_last()
    } else {
        parts
    };
    if once.len() > 0 {
        once.drop_last()
    } else {
        once
    }
}

/// The components of a relative text joined onto a non-empty path: those of the
/// path's body, then those of the text.
pub proof fn lemma_body_join(s: Seq<char>, t: Seq<char>)
    requires
        s.len() > 0,
        !is_absolute(t),
        t.len() > 0,
    ensures
        start_len(join_spec(s, t)) == start_len(s),
        is_absolute(join_spec(s, t)) == is_absolute(s),
        real_segs(body_pieces(join_spec(s, t))) == real_segs(body_pieces(s)) + real_segs(
            split_by(t, |c: char| is_slash(c)),
        ),
{
    let sep = |c: char| is_slash(c);
    let j = join_spec(s, t);
    let n = start_len(s);
    let body = s.skip(n);
    if s.last() != '/' {
        assert(j =~= s + seq!['/'] + t);
        assert(start_len(j) == n) by {
            if s.len() == 1 {
                assert(j[1] == '/');
                assert(j[0] == s[0]);
                if s[0] == '.' {
                    assert(s =~= seq!['.']);
                }
            } else {
                assert(j[0] == s[0] && j[1] == s[1]);
            }
        }
        assert(j.skip(n) =~= body + seq!['/'] + t);
        lemma_split_concat(body, t);
        lemma_real_concat(split_by(body, sep), split_by(t, sep));
    } else {
        assert(j =~= s + t);
        assert(start_len(j) == n) by {
            if s.len() == 1 {
                assert(s[0] == '/');
                assert(j[0] == s[0]);
            } else {
                assert(j[0] == s[0] && j[1] == s[1]);
            }
        }
        assert(j.skip(n) =~= body + t);
        if body.len() == 0 {
            assert(body + t =~= t);
            assert(split_by(body, sep) =~= seq![Seq::<char>::empty()]);
            lemma_real_single(Seq::<char>::empty());
            assert(Seq::<Seq<char>>::empty() + real_segs(split_by(t, sep)) =~= real_segs(
                split_by(t, sep),
            ));
        } else {
            let u = body.drop_last();
            assert(body.last() == s.last());
            assert(body =~= u + seq!['/'] + Seq::<char>::empty());
            assert(body + t =~= u + seq!['/'] + t);
            lemma_split_concat(u, t);
            lemma_split_concat(u, Seq::<char>::empty());
            lemma_real_concat(split_by(u, sep), split_by(t, sep));
            lemma_real_concat(split_by(u, sep), split_by(Seq::<char>::empty(), sep));
            assert(split_by(Seq::<char>::empty(), sep) =~= seq![Seq::<char>::empty()]);
            lemma_real_single(Seq::<char>::empty());
            assert(real_segs(split_by(u, sep)) + Seq::<Seq<char>>::empty() =~= real_segs(
                split_by(u, sep),
            ));
        }
    }
}

/// Lexically normalizing a path with `../..` joined onto it drops the last two
/// segments that normalizing the path alone keeps.
pub proof fn lemma_normalize_parent_parent(s: Seq<char>)
    ensures
        normalize_spec(join_spec(s, "../.."@)) == render(is_absolute(s), pop2(normalized_parts(s))),
{
    let sep = |c: char| is_slash(c);
    reveal_strlit("../..");
    let t = "../.."@;
    let dd = seq!['.', '.'];
    assert(t =~= dd + seq!['/'] + dd);
    lemma_split_concat(dd, dd);
    assert forall|j: int| 0 <= j < dd.len() implies dd[j] != '/' by {}
    lemma_split_no_slash(dd);
    lemma_real_concat(seq![dd], seq![dd]);
    lemma_real_single(dd);
    assert(seq![dd] + seq![dd] =~= seq![dd, dd]);
    assert(real_segs(split_by(t, sep)) =~= seq![dd, dd]);
    if s.len() == 0 {
        assert(join_spec(s, t) =~= t);
        assert(t.skip(start_len(t)) =~= t);
        assert(normalized_parts(s) =~= Seq::<Seq<char>>::empty()) by {
            assert(s.skip(0) =~= Seq::<char>::empty());
            assert(split_by(Seq::<char>::empty(), sep) =~= seq![Seq::<char>::empty()]);
            lemma_real_single(Seq::<char>::empty());
        }
        assert(seq![dd, dd].drop_last() =~= seq![dd]);
        assert(seq![dd].drop_last() =~= Seq::<Seq<char>>::empty());
        assert(norm_fold(Seq::<Seq<char>>::empty()) =~= Seq::<Seq<char>>::empty());
        assert(norm_fold(seq![dd]) =~= Seq::<Seq<char>>::empty());
        assert(norm_fold(seq![dd, dd]) =~= Seq::<Seq<char>>::empty());
        assert(body_pieces(t) =~= split_by(t, sep));
        assert(normalized_parts(t) =~= Seq::<Seq<char>>::empty());
        assert(!is_absolute(t));
        assert(normalize_spec(t) =~= Seq::<char>::empty());
        assert(pop2(normalized_parts(s)) =~= Seq::<Seq<char>>::empty());
        assert(render(is_absolute(s), pop2(normalized_parts(s))) =~= Seq::<char>::empty());
    } else {
        lemma_body_join(s, t);
        let a = real_segs(body_pieces(s));
        let all = a + seq![dd, dd];
        assert(all.drop_last() =~= a + seq![dd]);
        assert((a + seq![dd]).drop_last() =~= a);
        assert(all.last() == dd);
        assert((a + seq![dd]).last() == dd);
        let once = if norm_fold(a).len() > 0 {
            norm_fold(a).drop_last()
        } else {
            norm_fold(a)
        };
        assert(norm_fold(a + seq![dd]) == once);
        assert(norm_fold(all) == pop2(norm_fold(a)));
        assert(real_segs(body_pieces(join_spec(s, t))) == all);
        assert(normalized_parts(join_spec(s, t)) == pop2(normalized_parts(s)));
    }
}

/// `Path::file_name` on Unix: the last component when it is a name (not the
/// root, `.` or `..`).
pub open spec fn file_name_spec(p: Seq<char>) -> Option<Seq<char>> {
    let ps = body_pieces(p);
    let b = last_real(ps);
    if b < 0 || ps[b] == seq!['.', '.'] {
        None
    } else {
        Some(ps[b])
    }
}

/// The index of the last `.` in `s`, or -1.
pub open spec fn last_dot(s: Seq<char>) -> int
    decreases s.len(),
{
    if s.len() == 0 {
        -1
    } else if s.last() == '.' {
        s.len() - 1
    } else {
        last_dot(s.drop_last())
    }
}

/// `Path::extension` on Unix: the text after the last `.` of the file name,
/// unless the name has no `.` or its only leading `.` starts it.
pub open spec fn extension_spec(p: Seq<char>) -> Option<Seq<char>> {
    match file_name_spec(p) {
        None => None,
        Some(name) => {
            let i = last_dot(name);
            if i <= 0 {
                None
            } else {
                Some(name.skip(i + 1))
            }
        },
    }
}

/// The extension of a path (see `extension_spec`).
pub fn extension_of(p: &str) -> (out: Option<String>)
    ensures
        match (out, extension_spec(p@)) {
            (None, None) => true,
            (Some(e), Some(se)) => e@ == se,
            _ => false,
        },
{
    let pc = chars_of(p);
    let ps = body_pieces_exec(pc.as_slice());
    let ghost pv = vviews(ps@);
    let b = match last_real_exec(&ps) {
        None => return None,
        Some(b) => b,
    };
    assert(pv[b as int] == ps@[b as int]@);
    let name = &ps[b];
    if name.len() == 2 && name[0] == '.' && name[1] == '.' {
        assert(name@ =~= seq!['.', '.']);
        return None;
    }
    assert(name@ != seq!['.', '.']);
    let mut n = name.len();
    assert(name@.take(n as int) =~= name@);
    while n > 0 && name[n - 1] != '.'
        invariant
            n <= name@.len(),
            last_dot(name@) == last_dot(name@.take(n as int)),
        decreases n,
    {
        assert(name@.take(n as int).drop_last() =~= name@.take(n - 1));
        n = n - 1;
    }
    proof {
        if n > 0 {
            assert(name@.take(n as int).last() == '.');
        }
    }
    if n <= 1 {
        return None;
    }
    let e = sub_chars(name.as_slice(), n, name.len());
    assert(e@ =~= name@.skip(n as int));
    Some(string_of(e.as_slice()))
}

/// The segments of `ps` carry no `/`, are components, and are not `..`.
pub open spec fn plain_parts(ps: Seq<Seq<char>>) -> bool {
    &&& no_slash_pieces(ps)
    &&& forall|i: int| 0 <= i < ps.len() ==> is_real(#[trigger] ps[i]) && ps[i] != seq!['.', '.']
}

proof fn lemma_real_segs_props(ps: Seq<Seq<char>>)
    ensures
        forall|i: int| 0 <= i < real_segs(ps).len() ==> is_real(#[trigger] real_segs(ps)[i]),
        no_slash_pieces(ps) ==> no_slash_pieces(real_segs(ps)),
    decreases ps.len(),
{
    if ps.len() > 0 {
        let init = ps.drop_last();
        lemma_real_segs_props(init);
        if no_slash_pieces(ps) {
            assert forall|i: int, j: int|
                0 <= i < init.len() && 0 <= j < init[i].len() implies #[trigger] init[i][j]
                != '/' by {
                assert(init[i] == ps[i]);
            }
            let r = real_segs(ps);
            assert forall|i: int, j: int|
                0 <= i < r.len() && 0 <= j < r[i].len() implies #[trigger] r[i][j] != '/' by {
                if i < real_segs(init).len() {
                    assert(r[i] == real_segs(init)[i]);
                } else {
                    assert(r[i] == ps.last());
                    assert(ps[ps.len() - 1][j] != '/');
                }
            }
        }
        let r = real_segs(ps);
        assert forall|i: int| 0 <= i < r.len() implies is_real(#[trigger] r[i]) by {
            if i < real_segs(init).len() {
                assert(r[i] == real_segs(init)[i]);
            }
        }
    }
}

proof fn lemma_norm_fold_props(parts: Seq<Seq<char>>)
    requires
        no_slash_pieces(parts),
        forall|i: int| 0 <= i < parts.len() ==> is_real(#[trigger] parts[i]),
    ensures
        plain_parts(norm_fold(parts)),
    decreases parts.len(),
{
    if parts.len() > 0 {
        let init = parts.drop_last();
        assert forall|i: int, j: int|
            0 <= i < init.len() && 0 <= j < init[i].len() implies #[trigger] init[i][j] != '/' by {
            assert(init[i] == parts[i]);
        }
        assert forall|i: int| 0 <= i < init.len() implies is_real(#[trigger] init[i]) by {
            assert(init[i] == parts[i]);
        }
        lemma_norm_fold_props(init);
        let f = norm_fold(init);
        let r = norm_fold(parts);
        if parts.last() == seq!['.', '.'] {
            if f.len() > 0 {
                assert forall|i: int, j: int|
                    0 <= i < r.len() && 0 <= j < r[i].len() implies #[trigger] r[i][j] != '/' by {
                    assert(r[i] == f[i]);
                }
                assert forall|i: int| 0 <= i < r.len() implies is_real(#[trigger] r[i]) && r[i]
                    != seq!['.', '.'] by {
                    assert(r[i] == f[i]);
                }
            }
        } else {
            assert(is_real(parts[parts.len() - 1]));
            assert forall|i: int, j: int|
                0 <= i < r.len() && 0 <= j < r[i].len() implies #[trigger] r[i][j] != '/' by {
                if i < f.len() {
                    assert(r[i] == f[i]);
                } else {
                    assert(parts[parts.len() - 1][j] != '/');
                }
            }
            assert forall|i: int| 0 <= i < r.len() implies is_real(#[trigger] r[i]) && r[i]
                != seq!['.', '.'] by {
                if i < f.len() {
                    assert(r[i] == f[i]);
                }
            }
        }
    }
}

proof fn lemma_plain_fixed(ps: Seq<Seq<char>>)
    requires
        plain_parts(ps),
    ensures
        real_segs(ps) == ps,
        norm_fold(ps) == ps,
    decreases ps.len(),
{
    if ps.len() > 0 {
        let init = ps.drop_last();
        assert forall|i: int, j: int|
            0 <= i < init.len() && 0 <= j < init[i].len() implies #[trigger] init[i][j] != '/' by {
            assert(init[i] == ps[i]);
        }
        assert forall|i: int| 0 <= i < init.len() implies is_real(#[trigger] init[i]) && init[i]
            != seq!['.', '.'] by {
            assert(init[i] == ps[i]);
        }
        lemma_plain_fixed(init);
        assert(is_real(ps[ps.len() - 1]));
        assert(init.push(ps.last()) =~= ps);
    }
}

proof fn lemma_join_prefix(qs: Seq<Seq<char>>)
    requires
        qs.len() >= 1,
    ensures
        join_slash(qs).len() >= qs[0].len(),
        forall|j: int| 0 <= j < qs[0].len() ==> join_slash(qs)[j] == qs[0][j],
    decreases qs.len(),
{
    if qs.len() > 1 {
        lemma_join_prefix(qs.drop_last());
        assert(qs.drop_last()[0] == qs[0]);
    }
}

/// The body of a path rendered from plain parts gives back those parts.
proof fn lemma_render_parts(absolute: bool, ps: Seq<Seq<char>>)
    requires
        plain_parts(ps),
    ensures
        is_absolute(render(absolute, ps)) == absolute,
        start_comp(render(absolute, ps)) == if absolute {
            seq![seq!['/']]
        } else {
            Seq::<Seq<char>>::empty()
        },
        real_segs(body_pieces(render(absolute, ps))) == ps,
{
    let sep = |c: char| is_slash(c);
    let t = render(absolute, ps);
    let j = join_slash(ps);
    lemma_plain_fixed(ps);
    if ps.len() == 0 {
        assert(j =~= Seq::<char>::empty());
        lemma_real_single(Seq::<char>::empty());
        if absolute {
            assert(t.skip(1) =~= j);
        }
    } else {
        lemma_split_join(ps);
        lemma_join_prefix(ps);
        assert(is_real(ps[0]));
        if absolute {
            assert(t.skip(1) =~= j);
        } else {
            assert(ps[0][0] != '/');
            if ps[0].len() == 1 {
                if ps[0][0] == '.' {
                    assert(ps[0] =~= seq!['.']);
                }
            } else {
                assert(ps[0][1] != '/');
            }
            assert(start_len(t) == 0);
            assert(t.skip(0) =~= t);
        }
    }
}

/// Lexical normalization keeps no `.` or `..` component, and a normalized path
/// is its own normal form.
pub proof fn lemma_normalize_is_normal(s: Seq<char>)
    ensures
        plain_parts(normalized_parts(s)),
        components(normalize_spec(s)) == (if is_absolute(s) {
            seq![seq!['/']]
        } else {
            Seq::<Seq<char>>::empty()
        }) + normalized_parts(s),
        normalize_spec(normalize_spec(s)) == normalize_spec(s),
{
    let body = body_pieces(s);
    lemma_split_pieces_no_slash(s.skip(start_len(s)));
    lemma_real_segs_props(body);
    lemma_norm_fold_props(real_segs(body));
    let ps = normalized_parts(s);
    lemma_render_parts(is_absolute(s), ps);
    lemma_plain_fixed(ps);
}

/// Relativizing an absolute path against any root and joining the result back
/// onto the root gives a path equal (as a `Path`) to `p` itself.
pub proof fn lemma_relativize_resolves_any_root(root: Seq<char>, p: Seq<char>)
    requires
        is_absolute(p),
    ensures
        components(join_spec(root, relativize_spec(root, p))) == components(p),
{
    if is_absolute(root) {
        lemma_relativize_resolves(root, p);
    } else {
        match strip_prefix_spec(p, root) {
            None => {},
            Some(r) => {
                let cb = components(root);
                let cp = components(p);
                let ps = body_pieces(p);
                assert(cp[0] == seq!['/']);
                if cb.len() > 0 {
                    assert(cp.take(cb.len() as int)[0] == cb[0]);
                    if start_comp(root).len() > 0 {
                        assert(cb[0] == seq!['.']);
                        assert(seq!['.'][0] != seq!['/'][0]);
                    } else {
                        lemma_split_pieces_no_slash(root.skip(start_len(root)));
                        lemma_real_segs_props(body_pieces(root));
                        assert(cb[0] == real_segs(body_pieces(root))[0]);
                        assert(cb[0][0] == '/');
                        assert(false);
                    }
                }
                assert(cb.len() == 0);
                let b = last_real(ps);
                lemma_last_real(ps);
                lemma_components_abs(p.skip(1));
                assert(p =~= seq!['/'] + p.skip(1));
                assert(p.take(1) =~= seq!['/']);
                lemma_split_pieces_no_slash(p.skip(1));
                if b < 0 {
                    assert(r =~= seq!['/'] + Seq::<char>::empty());
                    lemma_components_abs(Seq::<char>::empty());
                    lemma_real_single(Seq::<char>::empty());
                    lemma_real_none(ps);
                    assert(components(r) =~= cp);
                } else {
                    let qs = ps.take(b + 1);
                    assert forall|i: int, j: int|
                        0 <= i < qs.len() && 0 <= j < qs[i].len() implies #[trigger] qs[i][j]
                        != '/' by {
                        assert(qs[i] == ps[i]);
                        assert(ps[i][j] != '/');
                    }
                    lemma_split_join(qs);
                    lemma_components_abs(join_slash(qs));
                    assert(ps =~= qs + ps.skip(b + 1));
                    lemma_real_concat(qs, ps.skip(b + 1));
                    assert forall|j: int| 0 <= j < ps.skip(b + 1).len() implies !is_real(
                        #[trigger] ps.skip(b + 1)[j],
                    ) by {
                        assert(ps.skip(b + 1)[j] == ps[b + 1 + j]);
                    }
                    lemma_real_none(ps.skip(b + 1));
                    assert(real_segs(qs) + Seq::<Seq<char>>::empty() =~= real_segs(qs));
                    assert(components(r) =~= cp);
                }
            },
        }
    }
}

proof fn lemma_join_concat(a: Seq<Seq<char>>, b: Seq<Seq<char>>)
    requires
        a.len() >= 1,
        b.len() >= 1,
    ensures
        join_slash(a + b) == join_slash(a) + seq!['/'] + join_slash(b),
    decreases b.len(),
{
    let ab = a + b;
    assert(ab.drop_last() =~= a + b.drop_last());
    assert(ab.last() == b.last());
    if b.len() == 1 {
        assert(ab.drop_last() =~= a);
    } else {
        lemma_join_concat(a, b.drop_last());
    }
}

proof fn lemma_join_last(qs: Seq<Seq<char>>)
    requires
        qs.len() >= 1,
        qs.last().len() > 0,
    ensures
        join_slash(qs).len() > 0,
        join_slash(qs).last() == qs.last().last(),
{
}

/// For an absolute path and root both in normal form, joining the relativized
/// path back onto the root gives the path's very text.
pub proof fn lemma_relativize_resolves_exactly(root: Seq<char>, x: Seq<char>)
    requires
        is_absolute(root),
        is_absolute(x),
        normalize_spec(root) == root,
        normalize_spec(x) == x,
        x != root,
    ensures
        join_spec(root, relativize_spec(root, x)) == x,
{
    lemma_normalize_is_normal(root);
    lemma_normalize_is_normal(x);
    let rp = normalized_parts(root);
    let xp = normalized_parts(x);
    assert(root == render(true, rp));
    assert(x == render(true, xp));
    let cb = components(root);
    let cp = components(x);
    match strip_prefix_spec(x, root) {
        None => {},
        Some(r) => {
            assert(cb == seq![seq!['/']] + rp);
            assert(cp == seq![seq!['/']] + xp);
            assert(xp.take(rp.len() as int) =~= rp) by {
                assert forall|i: int| 0 <= i < rp.len() implies xp[i] == rp[i] by {
                    assert(cp.take(cb.len() as int)[i + 1] == cb[i + 1]);
                }
            }
            if xp.len() == rp.len() {
                assert(xp =~= rp);
                assert(false);
            }
            assert(xp.len() > rp.len());
            let ps = body_pieces(x);
            lemma_split_join(xp);
            assert(x.skip(1) =~= join_slash(xp));
            assert(start_len(x) == 1);
            assert(ps == xp);
            let k = rp.len() as int;
            let len = xp.len() as int;
            assert(is_real(xp[len - 1]));
            assert(last_real(ps) == len - 1);
            assert(is_real(xp[k]));
            let from = if k <= 0 {
                0
            } else {
                kth_real_from(ps, k, 0) + 1
            };
            if k >= 1 {
                lemma_kth_all_real(ps, k, 0);
            }
            assert(from == k);
            assert(first_real_from(ps, from) == k);
            let rest = xp.subrange(k, len);
            assert(r == join_slash(rest));
            lemma_join_first(rest);
            assert(rest[0][0] != '/') by {
                assert(rest[0] == xp[k]);
            }
            if k == 0 {
                assert(root =~= seq!['/']);
                assert(rest =~= xp);
                assert(join_spec(root, r) =~= x);
            } else {
                lemma_join_last(rp);
                assert(root.last() == rp.last().last());
                assert(rp.last()[rp.last().len() - 1] != '/');
                lemma_join_concat(rp, rest);
                assert(rp + rest =~= xp);
                assert(join_spec(root, r) =~= x);
            }
        },
    }
}

proof fn lemma_kth_all_real(ps: Seq<Seq<char>>, k: int, i: int)
    requires
        k >= 1,
        0 <= i,
        i + k <= ps.len(),
        forall|j: int| 0 <= j < ps.len() ==> is_real(#[trigger] ps[j]),
    ensures
        kth_real_from(ps, k, i) == i + k - 1,
    decreases k,
{
    if k > 1 {
        lemma_kth_all_real(ps, k - 1, i + 1);
    }
}

} // verus!
