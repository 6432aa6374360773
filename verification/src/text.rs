//! Byte-string primitives: whitespace trimming, substring search, first/last
//! scans, and line splitting and joining, shared by the prompt builder and
//! the response normalizer.

use vstd::prelude::*;

verus! {

/// ASCII whitespace: the bytes below 0x80 that Rust's `char::is_whitespace`
/// accepts (tab through carriage return, and space).
pub open spec fn is_ws(b: u8) -> bool {
    b == 32 || (9 <= b && b <= 13)
}

/// Executable test for `is_ws`.
pub fn is_ws_byte(b: u8) -> (r: bool)
    ensures
        r == is_ws(b),
{
    b == 32 || (9 <= b && b <= 13)
}

/// `s` with leading ASCII whitespace removed.
pub open spec fn trim_left_spec(s: Seq<u8>) -> Seq<u8>
    decreases s.len(),
{
    if s.len() > 0 && is_ws(s[0]) {
        trim_left_spec(s.drop_first())
    } else {
        s
    }
}

/// `s` with trailing ASCII whitespace removed.
pub open spec fn trim_right_spec(s: Seq<u8>) -> Seq<u8>
    decreases s.len(),
{
    if s.len() > 0 && is_ws(s.last()) {
        trim_right_spec(s.drop_last())
    } else {
        s
    }
}

/// `s` with both leading and trailing ASCII whitespace removed.
pub open spec fn trim_spec(s: Seq<u8>) -> Seq<u8> {
    trim_right_spec(trim_left_spec(s))
}

/// If the first `lo` bytes are whitespace and byte `lo` (when present) is not,
/// trimming on the left keeps exactly the suffix from `lo`.
pub proof fn lemma_trim_left_at(s: Seq<u8>, lo: int)
    requires
        0 <= lo <= s.len(),
        forall|k: int| 0 <= k < lo ==> is_ws(s[k]),
        lo == s.len() || !is_ws(s[lo]),
    ensures
        trim_left_spec(s) == s.subrange(lo, s.len() as int),
    decreases lo,
{
    if lo == 0 {
        assert(trim_left_spec(s) =~= s.subrange(0, s.len() as int));
    } else {
        assert(is_ws(s[0]));
        let t = s.drop_first();
        assert(forall|k: int| 0 <= k < lo - 1 ==> is_ws(t[k]));
        lemma_trim_left_at(t, lo - 1);
        assert(t.subrange(lo - 1, t.len() as int) =~= s.subrange(lo, s.len() as int));
    }
}

/// If the bytes from `hi` on are whitespace and byte `hi - 1` (when present)
/// is not, trimming on the right keeps exactly the prefix up to `hi`.
pub proof fn lemma_trim_right_at(s: Seq<u8>, hi: int)
    requires
        0 <= hi <= s.len(),
        forall|k: int| hi <= k < s.len() ==> is_ws(s[k]),
        hi == 0 || !is_ws(s[hi - 1]),
    ensures
        trim_right_spec(s) == s.subrange(0, hi),
    decreases s.len(),
{
    if hi == s.len() {
        assert(trim_right_spec(s) =~= s.subrange(0, hi));
    } else {
        assert(is_ws(s.last()));
        let t = s.drop_last();
        assert(forall|k: int| hi <= k < t.len() ==> is_ws(t[k]));
        lemma_trim_right_at(t, hi);
        assert(t.subrange(0, hi) =~= s.subrange(0, hi));
    }
}

/// Trimming an already-trimmed sequence changes nothing.
pub proof fn lemma_trim_idempotent(s: Seq<u8>)
    ensures
        trim_spec(trim_spec(s)) == trim_spec(s),
{
    let t = trim_spec(s);
    lemma_trim_ends(s);
    lemma_trim_left_at(t, 0);
    lemma_trim_right_at(t, t.len() as int);
    assert(t.subrange(0, t.len() as int) =~= t);
}

/// A trimmed sequence neither starts nor ends with whitespace.
pub proof fn lemma_trim_ends(s: Seq<u8>)
    ensures
        trim_spec(s).len() > 0 ==> !is_ws(trim_spec(s)[0]),
        trim_spec(s).len() > 0 ==> !is_ws(trim_spec(s).last()),
    decreases s.len(),
{
    lemma_trim_left_ends(s);
    lemma_trim_right_ends(trim_left_spec(s));
    let l = trim_left_spec(s);
    let t = trim_right_spec(l);
    if t.len() > 0 {
        lemma_trim_right_prefix(l);
        assert(t[0] == l[0]);
    }
}

/// After a left trim the first byte, if any, is not whitespace.
pub proof fn lemma_trim_left_ends(s: Seq<u8>)
    ensures
        trim_left_spec(s).len() > 0 ==> !is_ws(trim_left_spec(s)[0]),
    decreases s.len(),
{
    if s.len() > 0 && is_ws(s[0]) {
        lemma_trim_left_ends(s.drop_first());
    }
}

/// After a right trim the last byte, if any, is not whitespace.
pub proof fn lemma_trim_right_ends(s: Seq<u8>)
    ensures
        trim_right_spec(s).len() > 0 ==> !is_ws(trim_right_spec(s).last()),
    decreases s.len(),
{
    if s.len() > 0 && is_ws(s.last()) {
        lemma_trim_right_ends(s.drop_last());
    }
}

/// A right trim keeps a prefix of the input.
pub proof fn lemma_trim_right_prefix(s: Seq<u8>)
    ensures
        trim_right_spec(s).len() <= s.len(),
        forall|k: int|
            0 <= k < trim_right_spec(s).len() ==> trim_right_spec(s)[k] == s[k],
    decreases s.len(),
{
    if s.len() > 0 && is_ws(s.last()) {
        let t = s.drop_last();
        lemma_trim_right_prefix(t);
        assert(forall|k: int|
            0 <= k < trim_right_spec(s).len() ==> trim_right_spec(s)[k] == t[k] && t[k] == s[k]);
    }
}

/// Copy of `s[a..b]`.
pub fn sub_bytes(s: &Vec<u8>, a: usize, b: usize) -> (r: Vec<u8>)
    requires
        a <= b,
        b <= s.len(),
    ensures
        r@ == s@.subrange(a as int, b as int),
{
    let mut r: Vec<u8> = Vec::new();
    let mut i: usize = a;
    while i < b
        invariant
            a <= i <= b,
            b <= s.len(),
            r@ == s@.subrange(a as int, i as int),
        decreases b - i,
    {
        r.push(s[i]);
        i = i + 1;
        proof {
            assert(r@ =~= s@.subrange(a as int, i as int));
        }
    }
    r
}

/// Copy of the whole of `s`.
pub fn copy_bytes(s: &Vec<u8>) -> (r: Vec<u8>)
    ensures
        r@ == s@,
{
    let r = sub_bytes(s, 0, s.len());
    proof {
        assert(s@.subrange(0, s@.len() as int) =~= s@);
    }
    r
}

/// Appends the whole of `src` to `out`.
pub fn append_bytes(out: &mut Vec<u8>, src: &Vec<u8>)
    ensures
        final(out)@ == old(out)@ + src@,
{
    let mut i: usize = 0;
    while i < src.len()
        invariant
            i <= src.len(),
            out@ == old(out)@ + src@.subrange(0, i as int),
        decreases src.len() - i,
    {
        out.push(src[i]);
        i = i + 1;
        proof {
            assert(old(out)@ + src@.subrange(0, i as int) =~= (old(out)@ + src@.subrange(
                0,
                i - 1,
            )).push(src@[i - 1]));
        }
    }
    proof {
        assert(src@.subrange(0, src@.len() as int) =~= src@);
    }
}

/// `s`, trimmed of leading and trailing ASCII whitespace.
pub fn trim_bytes(s: &Vec<u8>) -> (r: Vec<u8>)
    ensures
        r@ == trim_spec(s@),
{
    let mut lo: usize = 0;
    while lo < s.len() && is_ws_byte(s[lo])
        invariant
            lo <= s.len(),
            forall|k: int| 0 <= k < lo ==> is_ws(s@[k]),
        decreases s.len() - lo,
    {
        lo = lo + 1;
    }
    let mut hi: usize = s.len();
    while hi > lo && is_ws_byte(s[hi - 1])
        invariant
            lo <= hi <= s.len(),
            forall|k: int| hi <= k < s.len() ==> is_ws(s@[k]),
        decreases hi,
    {
        hi = hi - 1;
    }
    proof {
        lemma_trim_left_at(s@, lo as int);
        let t = s@.subrange(lo as int, s@.len() as int);
        if hi == lo {
            // everything from `lo` on is whitespace, so the left-trimmed
            // suffix is all whitespace
            lemma_trim_right_at(t, 0);
        } else {
            assert(!is_ws(s@[hi - 1]));
            assert(forall|k: int| hi - lo <= k < t.len() ==> is_ws(t[k]));
            lemma_trim_right_at(t, hi - lo);
        }
        assert(t.subrange(0, hi - lo) =~= s@.subrange(lo as int, hi as int));
    }
    sub_bytes(s, lo, hi)
}

/// The pattern `p` occurs in `s` at position `i`.
pub open spec fn contains_at(s: Seq<u8>, p: Seq<u8>, i: int) -> bool {
    &&& 0 <= i
    &&& i + p.len() <= s.len()
    &&& s.subrange(i, i + p.len() as int) == p
}

/// The pattern `p` occurs somewhere in `s`.
pub open spec fn contains_seq(s: Seq<u8>, p: Seq<u8>) -> bool {
    exists|i: int| contains_at(s, p, i)
}

/// Whether `p` occurs in `s` at position `i`.
pub fn match_at(s: &Vec<u8>, p: &Vec<u8>, i: usize) -> (r: bool)
    requires
        i + p.len() <= s.len(),
    ensures
        r == contains_at(s@, p@, i as int),
{
    let mut j: usize = 0;
    while j < p.len()
        invariant
            i + p.len() <= s.len(),
            j <= p.len(),
            forall|k: int| 0 <= k < j ==> s@[i + k] == p@[k],
        decreases p.len() - j,
    {
        if s[i + j] != p[j] {
            proof {
                assert(s@.subrange(i as int, i + p@.len() as int)[j as int] != p@[j as int]);
            }
            return false;
        }
        j = j + 1;
    }
    proof {
        assert(s@.subrange(i as int, i + p@.len() as int) =~= p@);
    }
    true
}

/// Position of the first occurrence of `p` in `s`, if any.
pub fn find_first(s: &Vec<u8>, p: &Vec<u8>) -> (r: Option<usize>)
    requires
        p.len() >= 1,
    ensures
        match r {
            Some(i) => contains_at(s@, p@, i as int) && (forall|k: int|
                0 <= k < i ==> !contains_at(s@, p@, k)),
            None => !contains_seq(s@, p@),
        },
{
    if p.len() > s.len() {
        proof {
            assert(forall|k: int| !contains_at(s@, p@, k));
        }
        return None;
    }
    let mut i: usize = 0;
    while i <= s.len() - p.len()
        invariant
            1 <= p.len() <= s.len(),
            i <= s.len() - p.len() + 1,
            forall|k: int| 0 <= k < i ==> !contains_at(s@, p@, k),
        decreases s.len() - p.len() + 1 - i,
    {
        if match_at(s, p, i) {
            return Some(i);
        }
        i = i + 1;
    }
    proof {
        assert(forall|k: int| k > s@.len() - p@.len() ==> !contains_at(s@, p@, k));
        assert(forall|k: int| !contains_at(s@, p@, k));
    }
    None
}

/// Position of the last occurrence of `p` in `s`, if any.
pub fn find_last(s: &Vec<u8>, p: &Vec<u8>) -> (r: Option<usize>)
    requires
        p.len() >= 1,
    ensures
        match r {
            Some(i) => contains_at(s@, p@, i as int) && (forall|k: int|
                k > i ==> !contains_at(s@, p@, k)),
            None => !contains_seq(s@, p@),
        },
{
    if p.len() > s.len() {
        proof {
            assert(forall|k: int| !contains_at(s@, p@, k));
        }
        return None;
    }
    let mut i: usize = s.len() - p.len() + 1;
    while i > 0
        invariant
            p.len() <= s.len(),
            i <= s.len() - p.len() + 1,
            forall|k: int| k >= i ==> !contains_at(s@, p@, k),
        decreases i,
    {
        i = i - 1;
        if match_at(s, p, i) {
            return Some(i);
        }
    }
    proof {
        assert(forall|k: int| !contains_at(s@, p@, k));
    }
    None
}

/// Index of the first byte of `s` satisfying `p`, or -1.
pub open spec fn first_where(s: Seq<u8>, p: spec_fn(u8) -> bool) -> int
    decreases s.len(),
{
    if s.len() == 0 {
        -1
    } else if p(s[0]) {
        0
    } else {
        let r = first_where(s.drop_first(), p);
        if r < 0 {
            -1
        } else {
            r + 1
        }
    }
}

/// Index of the last byte of `s` satisfying `p`, or -1.
pub open spec fn last_where(s: Seq<u8>, p: spec_fn(u8) -> bool) -> int
    decreases s.len(),
{
    if s.len() == 0 {
        -1
    } else if p(s.last()) {
        s.len() - 1
    } else {
        last_where(s.drop_last(), p)
    }
}

/// What `first_where` returns: the least index whose byte satisfies `p`,
/// or -1 when no byte does.
pub proof fn lemma_first_where(s: Seq<u8>, p: spec_fn(u8) -> bool)
    ensures
        -1 <= first_where(s, p) < s.len(),
        first_where(s, p) >= 0 ==> p(s[first_where(s, p)]) && (forall|k: int|
            0 <= k < first_where(s, p) ==> !p(#[trigger] s[k])),
        first_where(s, p) == -1 ==> forall|k: int| 0 <= k < s.len() ==> !p(#[trigger] s[k]),
    decreases s.len(),
{
    if s.len() == 0 {
    } else if p(s[0]) {
    } else {
        let t = s.drop_first();
        lemma_first_where(t, p);
        let r = first_where(t, p);
        if r >= 0 {
            assert(s[r + 1] == t[r]);
            assert(forall|k: int| 1 <= k < r + 1 ==> s[k] == t[k - 1]);
        } else {
            assert(forall|k: int| 1 <= k < s.len() ==> s[k] == t[k - 1]);
        }
    }
}

/// What `last_where` returns: the greatest index whose byte satisfies `p`,
/// or -1 when no byte does.
pub proof fn lemma_last_where(s: Seq<u8>, p: spec_fn(u8) -> bool)
    ensures
        -1 <= last_where(s, p) < s.len(),
        last_where(s, p) >= 0 ==> p(s[last_where(s, p)]) && (forall|k: int|
            last_where(s, p) < k < s.len() ==> !p(#[trigger] s[k])),
        last_where(s, p) == -1 ==> forall|k: int| 0 <= k < s.len() ==> !p(#[trigger] s[k]),
    decreases s.len(),
{
    if s.len() == 0 {
    } else if p(s.last()) {
    } else {
        let t = s.drop_last();
        lemma_last_where(t, p);
        assert(forall|k: int| 0 <= k < t.len() ==> s[k] == t[k]);
    }
}

/// A line with a trailing carriage return loses it, as with `str::lines`.
pub open spec fn strip_cr(l: Seq<u8>) -> Seq<u8> {
    if l.len() > 0 && l.last() == 13 {
        l.drop_last()
    } else {
        l
    }
}

/// The lines of `s`, split at line feeds, each without its terminator and
/// without a trailing carriage return; a final line feed ends the last line
/// rather than opening an empty one, as with `str::lines`.
pub open spec fn lines_spec(s: Seq<u8>) -> Seq<Seq<u8>>
    decreases s.len(),
    via lines_spec_dec
{
    if s.len() == 0 {
        Seq::empty()
    } else {
        let i = first_where(s, |b: u8| b == 10);
        if i < 0 {
            seq![strip_cr(s)]
        } else {
            seq![strip_cr(s.take(i))] + lines_spec(s.skip(i + 1))
        }
    }
}

#[via_fn]
proof fn lines_spec_dec(s: Seq<u8>) {
    if s.len() != 0 {
        lemma_first_where(s, |b: u8| b == 10);
    }
}

/// The concatenation of `ls`, one line feed between adjacent elements.
pub open spec fn join_spec(ls: Seq<Seq<u8>>) -> Seq<u8>
    decreases ls.len(),
{
    if ls.len() == 0 {
        Seq::empty()
    } else if ls.len() == 1 {
        ls[0]
    } else {
        ls[0] + seq![10u8] + join_spec(ls.drop_first())
    }
}

/// Joining after appending one more line appends a separator and that line.
pub proof fn lemma_join_push(ls: Seq<Seq<u8>>, x: Seq<u8>)
    ensures
        join_spec(ls.push(x)) == if ls.len() == 0 {
            x
        } else {
            join_spec(ls) + seq![10u8] + x
        },
    decreases ls.len(),
{
    let e = ls.push(x);
    if ls.len() == 0 {
        assert(e.len() == 1);
        assert(e[0] == x);
    } else if ls.len() == 1 {
        assert(e.len() == 2);
        assert(join_spec(e.drop_first()) == x) by {
            assert(e.drop_first() =~= seq![x]);
            assert(seq![x].len() == 1);
            assert(seq![x][0] == x);
        }
        assert(join_spec(e) == e[0] + seq![10u8] + x);
        assert(e[0] == ls[0]);
        assert(join_spec(ls) == ls[0]);
    } else {
        lemma_join_push(ls.drop_first(), x);
        assert(e.drop_first() =~= ls.drop_first().push(x));
        assert(join_spec(e) == e[0] + seq![10u8] + join_spec(ls.drop_first().push(x)));
        assert(e[0] == ls[0]);
        assert(ls[0] + seq![10u8] + (join_spec(ls.drop_first()) + seq![10u8] + x) =~= (ls[0]
            + seq![10u8] + join_spec(ls.drop_first())) + seq![10u8] + x);
    }
}

/// `l` is a contiguous piece of `x`.
pub open spec fn is_subrange_of(l: Seq<u8>, x: Seq<u8>) -> bool {
    exists|a: int, b: int| 0 <= a <= b <= x.len() && l == x.subrange(a, b)
}

/// A piece of a piece of `x` is a piece of `x`.
pub proof fn lemma_subrange_trans(l: Seq<u8>, y: Seq<u8>, x: Seq<u8>)
    requires
        is_subrange_of(l, y),
        is_subrange_of(y, x),
    ensures
        is_subrange_of(l, x),
{
    let (a1, b1) = choose|a1: int, b1: int| 0 <= a1 <= b1 <= y.len() && l == y.subrange(a1, b1);
    let (a2, b2) = choose|a2: int, b2: int| 0 <= a2 <= b2 <= x.len() && y == x.subrange(a2, b2);
    assert(l =~= x.subrange(a2 + a1, a2 + b1));
    assert(0 <= a2 + a1 <= a2 + b1 <= x.len());
}

/// A pattern absent from `x` is absent from every piece of `x`.
pub proof fn lemma_subrange_no_occ(l: Seq<u8>, x: Seq<u8>, p: Seq<u8>)
    requires
        is_subrange_of(l, x),
        !contains_seq(x, p),
    ensures
        !contains_seq(l, p),
{
    let (a, b) = choose|a: int, b: int| 0 <= a <= b <= x.len() && l == x.subrange(a, b);
    assert forall|k: int| !contains_at(l, p, k) by {
        if contains_at(l, p, k) {
            assert(x.subrange(a + k, a + k + p.len() as int) =~= l.subrange(
                k,
                k + p.len() as int,
            ));
            assert(contains_at(x, p, a + k));
        }
    }
}

/// A left trim keeps a suffix of the input.
pub proof fn lemma_trim_left_is_suffix(x: Seq<u8>)
    ensures
        exists|a: int|
            0 <= a <= x.len() && trim_left_spec(x) == x.subrange(a, x.len() as int),
    decreases x.len(),
{
    if x.len() > 0 && is_ws(x[0]) {
        lemma_trim_left_is_suffix(x.drop_first());
        let t = x.drop_first();
        let a = choose|a: int| 0 <= a <= t.len() && trim_left_spec(t) == t.subrange(a, t.len() as int);
        assert(t.subrange(a, t.len() as int) =~= x.subrange(a + 1, x.len() as int));
        assert(trim_left_spec(x) == x.subrange(a + 1, x.len() as int));
    } else {
        assert(trim_left_spec(x) =~= x.subrange(0, x.len() as int));
    }
}

/// A trimmed text is a contiguous piece of the original.
pub proof fn lemma_trim_subrange(x: Seq<u8>)
    ensures
        is_subrange_of(trim_spec(x), x),
{
    lemma_trim_left_is_suffix(x);
    let tl = trim_left_spec(x);
    let a = choose|a: int| 0 <= a <= x.len() && tl == x.subrange(a, x.len() as int);
    lemma_trim_right_prefix(tl);
    let tr = trim_right_spec(tl);
    assert(tr =~= tl.subrange(0, tr.len() as int));
    assert(tr =~= x.subrange(a, a + tr.len()));
    assert(0 <= a <= a + tr.len() <= x.len());
}

/// Every line of a text is a contiguous piece of it.
pub proof fn lemma_lines_subranges(x: Seq<u8>)
    ensures
        forall|i: int|
            0 <= i < lines_spec(x).len() ==> is_subrange_of(#[trigger] lines_spec(x)[i], x),
    decreases x.len(),
{
    if x.len() == 0 {
    } else {
        let fi = first_where(x, |b: u8| b == 10);
        lemma_first_where(x, |b: u8| b == 10);
        if fi < 0 {
            assert forall|i: int|
                0 <= i < lines_spec(x).len() implies is_subrange_of(
                #[trigger] lines_spec(x)[i],
                x,
            ) by {
                assert(lines_spec(x)[i] == strip_cr(x));
                if x.len() > 0 && x.last() == 13 {
                    assert(strip_cr(x) =~= x.subrange(0, x.len() - 1));
                } else {
                    assert(strip_cr(x) =~= x.subrange(0, x.len() as int));
                }
            }
        } else {
            let seg = x.take(fi);
            let rest = x.skip(fi + 1);
            lemma_lines_subranges(rest);
            assert forall|i: int|
                0 <= i < lines_spec(x).len() implies is_subrange_of(
                #[trigger] lines_spec(x)[i],
                x,
            ) by {
                if i == 0 {
                    assert(lines_spec(x)[0] == strip_cr(seg));
                    if seg.len() > 0 && seg.last() == 13 {
                        assert(strip_cr(seg) =~= x.subrange(0, fi - 1));
                    } else {
                        assert(strip_cr(seg) =~= x.subrange(0, fi));
                    }
                } else {
                    assert(lines_spec(x)[i] == lines_spec(rest)[i - 1]);
                    assert(is_subrange_of(lines_spec(rest)[i - 1], rest));
                    assert(rest =~= x.subrange(fi + 1, x.len() as int));
                    assert(is_subrange_of(rest, x));
                    lemma_subrange_trans(lines_spec(rest)[i - 1], rest, x);
                }
            }
        }
    }
}

/// A pattern that holds no line feed and occurs in no line of `ls` does not
/// occur in their join either.
pub proof fn lemma_join_no_occ(ls: Seq<Seq<u8>>, p: Seq<u8>)
    requires
        p.len() >= 1,
        forall|k: int| 0 <= k < p.len() ==> p[k] != 10,
        forall|i: int| 0 <= i < ls.len() ==> !contains_seq(#[trigger] ls[i], p),
    ensures
        !contains_seq(join_spec(ls), p),
    decreases ls.len(),
{
    if ls.len() == 0 {
        assert(forall|q: int| !contains_at(join_spec(ls), p, q));
    } else if ls.len() == 1 {
        assert(join_spec(ls) == ls[0]);
    } else {
        let u = ls[0];
        let rest = ls.drop_first();
        assert(forall|i: int| 0 <= i < rest.len() ==> rest[i] == ls[i + 1]);
        lemma_join_no_occ(rest, p);
        let w = join_spec(rest);
        let total = u + seq![10u8] + w;
        assert(join_spec(ls) == total);
        let bl = u.len() as int;
        assert(total[bl] == 10);
        assert forall|q: int| !contains_at(total, p, q) by {
            if contains_at(total, p, q) {
                if q + p.len() <= bl {
                    assert(u.subrange(q, q + p.len() as int) =~= total.subrange(
                        q,
                        q + p.len() as int,
                    ));
                    assert(contains_at(u, p, q));
                    assert(contains_seq(ls[0], p));
                } else if q <= bl {
                    assert(total.subrange(q, q + p.len() as int)[bl - q] == total[bl]);
                    assert(p[bl - q] == 10);
                } else {
                    assert(w.subrange(q - bl - 1, q - bl - 1 + p.len() as int) =~= total.subrange(
                        q,
                        q + p.len() as int,
                    ));
                    assert(contains_at(w, p, q - bl - 1));
                }
            }
        }
    }
}

/// The lines of `s`, as `lines_spec` describes them.
pub fn split_lines(s: &Vec<u8>) -> (r: Vec<Vec<u8>>)
    ensures
        r.deep_view() == lines_spec(s@),
{
    let mut out: Vec<Vec<u8>> = Vec::new();
    let mut pos: usize = 0;
    proof {
        assert(s@.skip(0) =~= s@);
    }
    while pos < s.len()
        invariant
            pos <= s.len(),
            lines_spec(s@) == out.deep_view() + lines_spec(s@.skip(pos as int)),
        decreases s.len() - pos,
    {
        let ghost prev_dv = out.deep_view();
        let ghost t = s@.skip(pos as int);
        let mut j: usize = pos;
        while j < s.len() && s[j] != 10
            invariant
                pos <= j <= s.len(),
                forall|k: int| pos <= k < j ==> s@[k] != 10,
            decreases s.len() - j,
        {
            j = j + 1;
        }
        let mut line = sub_bytes(s, pos, j);
        if line.len() > 0 && line[line.len() - 1] == 13 {
            line.pop();
            proof {
                assert(line@ =~= strip_cr(s@.subrange(pos as int, j as int)));
            }
        }
        proof {
            lemma_first_where(t, |b: u8| b == 10);
            let fi = first_where(t, |b: u8| b == 10);
            if j == s.len() {
                // no line feed from `pos` on
                assert(forall|k: int| 0 <= k < t.len() ==> t[k] == s@[pos + k] && s@[pos + k] != 10);
                assert(fi == -1) by {
                    if fi >= 0 {
                        assert((|b: u8| b == 10)(t[fi]));
                    }
                }
                assert(t =~= s@.subrange(pos as int, j as int));
                assert(lines_spec(t) == seq![strip_cr(t)]);
                assert(line@ == strip_cr(t));
            } else {
                assert(s@[j as int] == 10);
                assert(t[j - pos] == 10);
                assert((|b: u8| b == 10)(t[j - pos]));
                assert(fi >= 0);
                assert(forall|k: int| 0 <= k < j - pos ==> t[k] == s@[pos + k] && s@[pos + k] != 10);
                assert(fi == j - pos) by {
                    if fi < j - pos {
                        assert((|b: u8| b == 10)(t[fi]));
                        assert(t[fi] != 10);
                    }
                    if fi > j - pos {
                        assert(!(|b: u8| b == 10)(t[j - pos]));
                    }
                }
                assert(t.take(fi) =~= s@.subrange(pos as int, j as int));
                assert(t.skip(fi + 1) =~= s@.skip(j + 1));
                assert(lines_spec(t) == seq![strip_cr(t.take(fi))] + lines_spec(s@.skip(j + 1)));
                assert(line@ == strip_cr(t.take(fi)));
            }
        }
        let ghost lv = line@;
        proof {
            assert(line.deep_view() =~= lv);
        }
        out.push(line);
        if j == s.len() {
            pos = s.len();
        } else {
            pos = j + 1;
        }
        proof {
            assert(out@.last().deep_view() == lv);
            assert(out.deep_view() =~= prev_dv.push(lv));
            if j == s.len() {
                assert(s@.skip(pos as int) =~= Seq::<u8>::empty());
                assert(lines_spec(s@.skip(pos as int)) == Seq::<Seq<u8>>::empty());
                assert(lines_spec(t) =~= seq![lv] + lines_spec(s@.skip(pos as int)));
            } else {
                assert(lines_spec(t) == seq![lv] + lines_spec(s@.skip(pos as int)));
            }
            assert(prev_dv.push(lv) + lines_spec(s@.skip(pos as int)) =~= prev_dv + (seq![lv]
                + lines_spec(s@.skip(pos as int))));
            assert(out.deep_view() + lines_spec(s@.skip(pos as int)) =~= prev_dv + lines_spec(t));
        }
    }
    proof {
        assert(s@.skip(pos as int) =~= Seq::<u8>::empty());
        assert(lines_spec(s@) =~= out.deep_view());
    }
    out
}

/// The join of `ls`, one line feed between adjacent lines.
pub fn join_lines(ls: &Vec<Vec<u8>>) -> (r: Vec<u8>)
    ensures
        r@ == join_spec(ls.deep_view()),
{
    let mut out: Vec<u8> = Vec::new();
    let mut i: usize = 0;
    proof {
        assert(ls.deep_view().take(0) =~= Seq::<Seq<u8>>::empty());
    }
    while i < ls.len()
        invariant
            i <= ls.len(),
            out@ == join_spec(ls.deep_view().take(i as int)),
        decreases ls.len() - i,
    {
        let ghost dv = ls.deep_view();
        if i > 0 {
            out.push(10);
        }
        append_bytes(&mut out, &ls[i]);
        proof {
            assert(dv.take(i + 1) =~= dv.take(i as int).push(dv[i as int]));
            lemma_join_push(dv.take(i as int), dv[i as int]);
            assert(dv[i as int] == ls@[i as int].deep_view());
            if i > 0 {
                assert(out@ =~= join_spec(dv.take(i as int)) + seq![10u8] + dv[i as int]);
            } else {
                assert(out@ =~= dv[0]);
            }
        }
        i = i + 1;
    }
    proof {
        assert(ls.deep_view().take(i as int) =~= ls.deep_view());
    }
    out
}

} // verus!
