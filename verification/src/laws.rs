//! Laws of the normalizer, proved once and for all: stage-level identities
//! and idempotence of the full pipeline.

use vstd::prelude::*;
use crate::stages::closer_for;
use crate::stages::collect_fenced;
use crate::stages::lemma_think_bytes;
use crate::stages::non_fence;
use crate::stages::extract_json_spec;
use crate::stages::extract_xml_spec;
use crate::stages::fence;
use crate::stages::is_opener;
use crate::stages::last_occ;
use crate::stages::lemma_last_occ;
use crate::stages::lemma_scan_end_bounds;
use crate::stages::normalize_spec;
use crate::stages::scan_end;
use crate::stages::stage_a_spec;
use crate::stages::stage_b_spec;
use crate::stages::think_close;
use crate::stages::FormatKind;
use crate::text::contains_at;
use crate::text::contains_seq;
use crate::text::first_where;
use crate::text::is_subrange_of;
use crate::text::is_ws;
use crate::text::last_where;
use crate::text::lemma_first_where;
use crate::text::lemma_join_no_occ;
use crate::text::lemma_last_where;
use crate::text::lemma_lines_subranges;
use crate::text::lemma_subrange_no_occ;
use crate::text::lemma_trim_idempotent;
use crate::text::lemma_trim_left_at;
use crate::text::lemma_trim_right_at;
use crate::text::lemma_trim_subrange;
use crate::text::lines_spec;
use crate::text::trim_spec;

verus! {

/// A text without the reasoning marker passes through the reasoning-strip
/// stage unchanged.
pub proof fn lemma_stage_a_identity(s: Seq<u8>)
    requires
        !contains_seq(s, think_close()),
    ensures
        stage_a_spec(s) == s,
{
    lemma_last_occ(s, think_close());
    if last_occ(s, think_close()) >= 0 {
        assert(contains_seq(s, think_close()));
    }
}

/// When the reasoning marker occurs and `i` is its last occurrence, the
/// reasoning-strip stage returns exactly the substring strictly after the
/// marker at `i`.
pub proof fn lemma_stage_a_after_last_marker(s: Seq<u8>, i: int)
    requires
        contains_at(s, think_close(), i),
        forall|k: int| k > i ==> !contains_at(s, think_close(), k),
    ensures
        stage_a_spec(s) == s.subrange(i + think_close().len() as int, s.len() as int),
{
    lemma_last_occ(s, think_close());
    let r = last_occ(s, think_close());
    assert(contains_seq(s, think_close()));
    assert(r >= 0);
    assert(r == i) by {
        if r < i {
            assert(!contains_at(s, think_close(), i));
        }
        if r > i {
            assert(!contains_at(s, think_close(), r));
        }
    }
}

/// A text without a fence marker passes through the fence-removal stage
/// unchanged.
pub proof fn lemma_stage_b_identity(s: Seq<u8>)
    requires
        !contains_seq(s, fence()),
    ensures
        stage_b_spec(s) == s,
{
}

/// A text that neither starts nor ends with whitespace is unchanged by
/// trimming.
pub proof fn lemma_trim_fixed(c: Seq<u8>)
    requires
        c.len() > 0 ==> !is_ws(c[0]) && !is_ws(c.last()),
    ensures
        trim_spec(c) == c,
{
    if c.len() == 0 {
        assert(trim_spec(c) =~= c);
    } else {
        lemma_trim_left_at(c, 0);
        assert(c.subrange(0, c.len() as int) =~= c);
        lemma_trim_right_at(c, c.len() as int);
    }
}

/// A depth scan that starts at depth one ends, if it ends, on the closing
/// bracket.
proof fn lemma_scan_end_closer(t: Seq<u8>, open: u8, close: u8, j: int, depth: int)
    requires
        depth >= 1,
        open != close,
        scan_end(t, open, close, j, depth) >= 0,
    ensures
        t[scan_end(t, open, close, j, depth) - 1] == close,
    decreases t.len() - j,
{
    let e = scan_end(t, open, close, j, depth);
    let d2 = depth + crate::stages::bracket_delta(t[j], open, close);
    if d2 == 0 {
        assert(t[j] == close);
    } else {
        lemma_scan_end_closer(t, open, close, j + 1, d2);
    }
}

/// A depth scan restricted to the span it found gives the span's length.
proof fn lemma_scan_shift(t: Seq<u8>, i: int, e: int, open: u8, close: u8, m: int, depth: int)
    requires
        0 <= i,
        i <= i + m < e <= t.len(),
        scan_end(t, open, close, i + m, depth) == e,
    ensures
        scan_end(t.subrange(i, e), open, close, m, depth) == e - i,
    decreases e - (i + m),
{
    let y = t.subrange(i, e);
    assert(y[m] == t[i + m]);
    let d2 = depth + crate::stages::bracket_delta(t[i + m], open, close);
    if d2 == 0 {
        assert(scan_end(y, open, close, m, depth) == m + 1);
    } else {
        lemma_scan_end_bounds(t, open, close, i + m + 1, d2);
        assert(scan_end(t, open, close, i + m + 1, d2) == e);
        lemma_scan_shift(t, i, e, open, close, m + 1, d2);
    }
}

/// JSON boundary extraction leaves its own trimmed output unchanged.
proof fn lemma_extract_json_fixed(t: Seq<u8>)
    requires
        t == trim_spec(t),
    ensures
        ({
            let y = trim_spec(extract_json_spec(t));
            extract_json_spec(y) == y && trim_spec(y) == y
        }),
{
    let op = |b: u8| is_opener(b);
    let i = first_where(t, op);
    lemma_first_where(t, op);
    lemma_trim_idempotent(t);
    if i < 0 {
        let y = trim_spec(t);
        assert(y == t);
    } else {
        assert(op(t[i]));
        let o = t[i];
        let cl = closer_for(o);
        let e = scan_end(t, o, cl, i, 0);
        if e < 0 {
            let y = trim_spec(t);
            assert(y == t);
        } else {
            lemma_scan_end_bounds(t, o, cl, i, 0);
            let c = t.subrange(i, e);
            assert(extract_json_spec(t) == c);
            // the span starts on the opener and ends on the closer, so
            // trimming keeps it whole
            assert(c[0] == o);
            assert(t[e - 1] == cl) by {
                assert(crate::stages::bracket_delta(t[i], o, cl) == 1);
                assert(scan_end(t, o, cl, i, 0) == scan_end(t, o, cl, i + 1, 1));
                lemma_scan_end_closer(t, o, cl, i + 1, 1);
            }
            assert(c.last() == cl);
            lemma_trim_fixed(c);
            let y = trim_spec(c);
            assert(y == c);
            // on the extracted span the first opener is at position zero and
            // the scan covers the whole span
            let fy = first_where(y, op);
            lemma_first_where(y, op);
            assert(op(y[0]));
            assert(fy == 0) by {
                if fy == -1 {
                    assert(!op(y[0]));
                }
                if fy > 0 {
                    assert(!op(y[0]));
                }
            }
            assert(y[0] == o);
            lemma_scan_shift(t, i, e, o, cl, 0, 0);
            assert(scan_end(y, o, cl, 0, 0) == e - i);
            assert(closer_for(y[0]) == cl);
            assert(extract_json_spec(y) == y.subrange(0, y.len() as int));
            assert(y.subrange(0, y.len() as int) =~= y);
        }
    }
}

/// XML boundary extraction leaves its own trimmed output unchanged.
proof fn lemma_extract_xml_fixed(t: Seq<u8>)
    requires
        t == trim_spec(t),
    ensures
        ({
            let y = trim_spec(extract_xml_spec(t));
            extract_xml_spec(y) == y && trim_spec(y) == y
        }),
{
    let lt = |b: u8| b == 60;
    let gt = |b: u8| b == 62;
    let i = first_where(t, lt);
    let j = last_where(t, gt);
    lemma_first_where(t, lt);
    lemma_last_where(t, gt);
    lemma_trim_idempotent(t);
    if 0 <= i && i < j {
        let c = t.subrange(i, j + 1);
        assert(extract_xml_spec(t) == c);
        assert(lt(t[i]));
        assert(gt(t[j]));
        assert(c[0] == 60);
        assert(c.last() == 62);
        lemma_trim_fixed(c);
        let y = trim_spec(c);
        assert(y == c);
        let fy = first_where(y, lt);
        let ly = last_where(y, gt);
        lemma_first_where(y, lt);
        lemma_last_where(y, gt);
        assert(lt(y[0]));
        assert(fy == 0) by {
            if fy == -1 {
                assert(!lt(y[0]));
            }
            if fy > 0 {
                assert(!lt(y[0]));
            }
        }
        assert(gt(y[y.len() - 1]));
        assert(ly == y.len() - 1) by {
            if ly == -1 {
                assert(!gt(y[y.len() - 1]));
            }
            if ly < y.len() - 1 {
                assert(!gt(y[y.len() - 1]));
            }
        }
        assert(y.len() >= 2);
        assert(extract_xml_spec(y) == y.subrange(0, y.len() as int));
        assert(y.subrange(0, y.len() as int) =~= y);
    } else {
        let y = trim_spec(t);
        assert(y == t);
    }
}

/// The reasoning-strip stage never leaves the closing marker in its output:
/// everything through the last occurrence is discarded.
pub proof fn lemma_stage_a_no_marker(s: Seq<u8>)
    ensures
        !contains_seq(stage_a_spec(s), think_close()),
{
    let p = think_close();
    lemma_think_bytes();
    lemma_last_occ(s, p);
    let r = last_occ(s, p);
    if r < 0 {
        if contains_seq(s, p) {
            assert(false);
        }
    } else {
        let out = stage_a_spec(s);
        assert(out == s.subrange(r + p.len() as int, s.len() as int));
        assert forall|k: int| !contains_at(out, p, k) by {
            if contains_at(out, p, k) {
                assert(s.subrange(r + p.len() + k, r + p.len() + k + p.len() as int)
                    =~= out.subrange(k, k + p.len() as int));
                assert(contains_at(s, p, r + p.len() + k));
            }
        }
    }
}

/// A pattern absent from every line is absent from the collected fenced
/// lines, which are a subset of them.
proof fn lemma_collect_no_occ(ls: Seq<Seq<u8>>, inside: bool, p: Seq<u8>)
    requires
        forall|i: int| 0 <= i < ls.len() ==> !contains_seq(#[trigger] ls[i], p),
    ensures
        forall|i: int|
            0 <= i < collect_fenced(ls, inside).len() ==> !contains_seq(
                #[trigger] collect_fenced(ls, inside)[i],
                p,
            ),
    decreases ls.len(),
{
    if ls.len() == 0 {
    } else {
        let rest = ls.drop_first();
        assert(forall|i: int| 0 <= i < rest.len() ==> rest[i] == ls[i + 1]);
        let c = collect_fenced(ls, inside);
        if crate::stages::is_fence_line(ls.first()) {
            lemma_collect_no_occ(rest, !inside, p);
            assert(c == collect_fenced(rest, !inside));
            assert forall|i: int| 0 <= i < c.len() implies !contains_seq(#[trigger] c[i], p) by {
                assert(c[i] == collect_fenced(rest, !inside)[i]);
            }
        } else {
            lemma_collect_no_occ(rest, inside, p);
            if inside {
                assert(c == seq![ls.first()] + collect_fenced(rest, inside));
                assert forall|i: int| 0 <= i < c.len() implies !contains_seq(#[trigger] c[i], p) by {
                    if i == 0 {
                        assert(c[0] == ls[0]);
                    } else {
                        assert(c[i] == collect_fenced(rest, inside)[i - 1]);
                    }
                }
            } else {
                assert(c == collect_fenced(rest, inside));
                assert forall|i: int| 0 <= i < c.len() implies !contains_seq(#[trigger] c[i], p) by {
                    assert(c[i] == collect_fenced(rest, inside)[i]);
                }
            }
        }
    }
}

/// A pattern absent from every line is absent from the lines the
/// stray-fence fallback keeps, which are a subset of them.
proof fn lemma_non_fence_no_occ(ls: Seq<Seq<u8>>, p: Seq<u8>)
    requires
        forall|i: int| 0 <= i < ls.len() ==> !contains_seq(#[trigger] ls[i], p),
    ensures
        forall|i: int|
            0 <= i < non_fence(ls).len() ==> !contains_seq(#[trigger] non_fence(ls)[i], p),
    decreases ls.len(),
{
    if ls.len() == 0 {
    } else {
        let rest = ls.drop_first();
        assert(forall|i: int| 0 <= i < rest.len() ==> rest[i] == ls[i + 1]);
        lemma_non_fence_no_occ(rest, p);
        let c = non_fence(ls);
        if !crate::stages::is_fence_line(ls.first()) {
            assert(c == seq![ls.first()] + non_fence(rest));
            assert forall|i: int| 0 <= i < c.len() implies !contains_seq(#[trigger] c[i], p) by {
                if i == 0 {
                    assert(c[0] == ls[0]);
                } else {
                    assert(c[i] == non_fence(rest)[i - 1]);
                }
            }
        } else {
            assert(c == non_fence(rest));
            assert forall|i: int| 0 <= i < c.len() implies !contains_seq(#[trigger] c[i], p) by {
                assert(c[i] == non_fence(rest)[i]);
            }
        }
    }
}

/// The fence-removal stage cannot introduce an occurrence of a pattern that
/// holds no line feed: its output is joined from intact lines of its input.
pub proof fn lemma_stage_b_no_occ(s: Seq<u8>, p: Seq<u8>)
    requires
        p.len() >= 1,
        forall|k: int| 0 <= k < p.len() ==> p[k] != 10,
        !contains_seq(s, p),
    ensures
        !contains_seq(stage_b_spec(s), p),
{
    if contains_seq(s, fence()) {
        let ls = lines_spec(s);
        lemma_lines_subranges(s);
        assert forall|i: int| 0 <= i < ls.len() implies !contains_seq(#[trigger] ls[i], p) by {
            lemma_subrange_no_occ(ls[i], s, p);
        }
        let kept = collect_fenced(ls, false);
        if kept.len() > 0 {
            lemma_collect_no_occ(ls, false, p);
            lemma_join_no_occ(kept, p);
        } else {
            lemma_non_fence_no_occ(ls, p);
            lemma_join_no_occ(non_fence(ls), p);
        }
    }
}

/// The boundary-extraction stages return a contiguous piece of their input.
proof fn lemma_extract_subrange(t: Seq<u8>, kind: FormatKind)
    ensures
        kind == FormatKind::Json ==> is_subrange_of(extract_json_spec(t), t),
        kind == FormatKind::Xml ==> is_subrange_of(extract_xml_spec(t), t),
{
    assert(t =~= t.subrange(0, t.len() as int));
    match kind {
        FormatKind::Json => {
            let i = first_where(t, |b: u8| is_opener(b));
            lemma_first_where(t, |b: u8| is_opener(b));
            if i >= 0 {
                let e = scan_end(t, t[i], closer_for(t[i]), i, 0);
                if e >= 0 {
                    lemma_scan_end_bounds(t, t[i], closer_for(t[i]), i, 0);
                    assert(extract_json_spec(t) == t.subrange(i, e));
                }
            }
        },
        FormatKind::Xml => {
            let i = first_where(t, |b: u8| b == 60);
            let j = last_where(t, |b: u8| b == 62);
            lemma_first_where(t, |b: u8| b == 60);
            lemma_last_where(t, |b: u8| b == 62);
            if 0 <= i && i < j {
                assert(extract_xml_spec(t) == t.subrange(i, j + 1));
            }
        },
    }
}

/// The normalized document never retains the reasoning marker: stage A drops
/// everything through its last occurrence, and the later stages only keep,
/// cut, and rejoin intact text that follows it.
pub proof fn lemma_normalize_no_marker(s: Seq<u8>, kind: FormatKind)
    ensures
        !contains_seq(normalize_spec(s, kind), think_close()),
{
    let p = think_close();
    lemma_think_bytes();
    assert(p.len() == 8);
    assert forall|k: int| 0 <= k < p.len() implies p[k] != 10 by {
        if k == 0 {
        } else if k == 1 {
        } else if k == 2 {
        } else if k == 3 {
        } else if k == 4 {
        } else if k == 5 {
        } else if k == 6 {
        } else {
            assert(k == 7);
        }
    }
    let a = stage_a_spec(s);
    lemma_stage_a_no_marker(s);
    let b = stage_b_spec(a);
    lemma_stage_b_no_occ(a, p);
    let t = trim_spec(b);
    lemma_trim_subrange(b);
    lemma_subrange_no_occ(t, b, p);
    let c = match kind {
        FormatKind::Json => extract_json_spec(t),
        FormatKind::Xml => extract_xml_spec(t),
    };
    lemma_extract_subrange(t, kind);
    lemma_subrange_no_occ(c, t, p);
    lemma_trim_subrange(c);
    lemma_subrange_no_occ(trim_spec(c), c, p);
}

/// Lines before any fence marker contribute nothing while scanning outside.
proof fn lemma_collect_outside_skips(pre: Seq<Seq<u8>>, rest: Seq<Seq<u8>>)
    requires
        forall|i: int| 0 <= i < pre.len() ==> !crate::stages::is_fence_line(#[trigger] pre[i]),
    ensures
        collect_fenced(pre + rest, false) == collect_fenced(rest, false),
    decreases pre.len(),
{
    if pre.len() == 0 {
        assert(pre + rest =~= rest);
    } else {
        let whole = pre + rest;
        assert(whole.first() == pre[0]);
        assert(!crate::stages::is_fence_line(whole.first()));
        assert(whole.drop_first() =~= pre.drop_first() + rest);
        assert(forall|i: int|
            0 <= i < pre.drop_first().len() ==> pre.drop_first()[i] == pre[i + 1]);
        lemma_collect_outside_skips(pre.drop_first(), rest);
    }
}

/// Lines inside a fence are all collected, in order.
proof fn lemma_collect_inside_takes(mid: Seq<Seq<u8>>, rest: Seq<Seq<u8>>)
    requires
        forall|i: int| 0 <= i < mid.len() ==> !crate::stages::is_fence_line(#[trigger] mid[i]),
    ensures
        collect_fenced(mid + rest, true) == mid + collect_fenced(rest, true),
    decreases mid.len(),
{
    if mid.len() == 0 {
        assert(mid + rest =~= rest);
        assert(mid + collect_fenced(rest, true) =~= collect_fenced(rest, true));
    } else {
        let whole = mid + rest;
        assert(whole.first() == mid[0]);
        assert(!crate::stages::is_fence_line(whole.first()));
        assert(whole.drop_first() =~= mid.drop_first() + rest);
        assert(forall|i: int|
            0 <= i < mid.drop_first().len() ==> mid.drop_first()[i] == mid[i + 1]);
        lemma_collect_inside_takes(mid.drop_first(), rest);
        assert(collect_fenced(whole, true) == seq![whole.first()] + (mid.drop_first()
            + collect_fenced(rest, true)));
        assert(seq![whole.first()] + (mid.drop_first() + collect_fenced(rest, true)) =~= mid
            + collect_fenced(rest, true));
    }
}

/// With a properly paired fence block -- one fence-marker line, the block's
/// lines, a second fence-marker line, and no other fence-marker line
/// anywhere -- the fence-removal stage returns exactly the concatenation of
/// the lines strictly between the two markers.
pub proof fn lemma_stage_b_paired_fences(
    s: Seq<u8>,
    pre: Seq<Seq<u8>>,
    opening: Seq<u8>,
    mid: Seq<Seq<u8>>,
    closing: Seq<u8>,
    post: Seq<Seq<u8>>,
)
    requires
        lines_spec(s) == pre + seq![opening] + mid + seq![closing] + post,
        crate::stages::is_fence_line(opening),
        crate::stages::is_fence_line(closing),
        mid.len() > 0,
        forall|i: int| 0 <= i < pre.len() ==> !crate::stages::is_fence_line(#[trigger] pre[i]),
        forall|i: int| 0 <= i < mid.len() ==> !crate::stages::is_fence_line(#[trigger] mid[i]),
        forall|i: int| 0 <= i < post.len() ==> !crate::stages::is_fence_line(#[trigger] post[i]),
    ensures
        stage_b_spec(s) == crate::text::join_spec(mid),
{
    let ls = lines_spec(s);
    // the opening marker line is a piece of `s`, so `s` holds a fence marker
    assert(contains_seq(s, fence())) by {
        if !contains_seq(s, fence()) {
            lemma_lines_subranges(s);
            let oi = pre.len() as int;
            assert(ls[oi] == opening);
            assert(is_subrange_of(opening, s));
            lemma_subrange_no_occ(opening, s, fence());
            lemma_trim_subrange(opening);
            lemma_subrange_no_occ(trim_spec(opening), opening, fence());
            assert(contains_at(trim_spec(opening), fence(), 0));
        }
    }
    let tail1 = seq![opening] + mid + seq![closing] + post;
    assert(ls =~= pre + tail1);
    lemma_collect_outside_skips(pre, tail1);
    let tail2 = mid + (seq![closing] + post);
    assert(tail1.first() == opening);
    assert(tail1.drop_first() =~= tail2);
    assert(collect_fenced(tail1, false) == collect_fenced(tail2, true));
    lemma_collect_inside_takes(mid, seq![closing] + post);
    let tail3 = seq![closing] + post;
    assert(tail3.first() == closing);
    assert(tail3.drop_first() =~= post);
    assert(collect_fenced(tail3, true) == collect_fenced(post, false));
    lemma_collect_outside_skips(post, Seq::empty());
    assert(post + Seq::<Seq<u8>>::empty() =~= post);
    assert(collect_fenced(post, false) == Seq::<Seq<u8>>::empty());
    assert(collect_fenced(ls, false) =~= mid);
}

/// Splitting a text into lines and joining them again restores it, when no
/// carriage return stands before a line feed and the text ends in neither.
proof fn lemma_join_lines_roundtrip(y: Seq<u8>)
    requires
        !contains_seq(y, seq![13u8, 10u8]),
        y.len() > 0 ==> y.last() != 10 && y.last() != 13,
    ensures
        crate::text::join_spec(lines_spec(y)) == y,
    decreases y.len(),
{
    if y.len() == 0 {
    } else {
        let nl = |b: u8| b == 10;
        let fi = first_where(y, nl);
        lemma_first_where(y, nl);
        if fi < 0 {
            assert(crate::text::strip_cr(y) == y);
            assert(crate::text::join_spec(lines_spec(y)) == y);
        } else {
            assert(nl(y[fi]));
            assert(fi < y.len() - 1) by {
                if fi == y.len() - 1 {
                    assert(y.last() == 10);
                }
            }
            let seg = y.take(fi);
            let rest = y.skip(fi + 1);
            assert(crate::text::strip_cr(seg) == seg) by {
                if seg.len() > 0 && seg.last() == 13 {
                    assert(y.subrange(fi - 1, fi + 1) =~= seq![13u8, 10u8]);
                    assert(contains_at(y, seq![13u8, 10u8], fi - 1));
                }
            }
            assert(!contains_seq(rest, seq![13u8, 10u8])) by {
                if contains_seq(rest, seq![13u8, 10u8]) {
                    let k = choose|k: int| contains_at(rest, seq![13u8, 10u8], k);
                    assert(y.subrange(fi + 1 + k, fi + 1 + k + 2) =~= rest.subrange(k, k + 2));
                    assert(contains_at(y, seq![13u8, 10u8], fi + 1 + k));
                }
            }
            assert(rest.len() > 0 && rest.last() == y.last());
            lemma_join_lines_roundtrip(rest);
            assert(lines_spec(rest).len() >= 1) by {
                lemma_first_where(rest, nl);
            }
            let whole = seq![seg] + lines_spec(rest);
            assert(lines_spec(y) == whole);
            assert(whole.len() >= 2);
            assert(whole[0] == seg);
            assert(whole.drop_first() =~= lines_spec(rest));
            assert(crate::text::join_spec(whole) == seg + seq![10u8] + rest);
            assert(seg + seq![10u8] + rest =~= y);
        }
    }
}

/// When no line is a fence-marker line, the stray-fence fallback keeps every
/// line.
proof fn lemma_non_fence_identity(ls: Seq<Seq<u8>>)
    requires
        forall|i: int| 0 <= i < ls.len() ==> !crate::stages::is_fence_line(#[trigger] ls[i]),
    ensures
        non_fence(ls) == ls,
    decreases ls.len(),
{
    if ls.len() > 0 {
        assert(forall|i: int|
            0 <= i < ls.drop_first().len() ==> ls.drop_first()[i] == ls[i + 1]);
        lemma_non_fence_identity(ls.drop_first());
        assert(seq![ls.first()] + ls.drop_first() =~= ls);
    }
}

/// The fence-removal stage leaves a text unchanged when none of its lines is
/// a fence-marker line, no carriage return stands before a line feed, and it
/// ends in neither.
proof fn lemma_stage_b_fixed_clean(y: Seq<u8>)
    requires
        !contains_seq(y, seq![13u8, 10u8]),
        y.len() > 0 ==> y.last() != 10 && y.last() != 13,
        forall|i: int|
            0 <= i < lines_spec(y).len() ==> !crate::stages::is_fence_line(
                #[trigger] lines_spec(y)[i],
            ),
    ensures
        stage_b_spec(y) == y,
{
    if contains_seq(y, fence()) {
        let ls = lines_spec(y);
        lemma_collect_outside_skips(ls, Seq::empty());
        assert(ls + Seq::<Seq<u8>>::empty() =~= ls);
        assert(collect_fenced(ls, false) == Seq::<Seq<u8>>::empty());
        lemma_non_fence_identity(ls);
        lemma_join_lines_roundtrip(y);
    }
}

/// Idempotence of the full normalization pipeline: normalizing an
/// already-normalized document changes nothing, provided that -- when the
/// normalized document still holds a fence marker -- none of its lines is
/// itself a fence-marker line and no carriage return stands immediately
/// before a line feed, the two shapes the line heuristic would rewrite
/// again.
pub proof fn lemma_normalize_idempotent(s: Seq<u8>, kind: FormatKind)
    requires
        contains_seq(normalize_spec(s, kind), fence()) ==> !contains_seq(
            normalize_spec(s, kind),
            seq![13u8, 10u8],
        ) && (forall|i: int|
            0 <= i < lines_spec(normalize_spec(s, kind)).len()
                ==> !crate::stages::is_fence_line(
                #[trigger] lines_spec(normalize_spec(s, kind))[i],
            )),
    ensures
        normalize_spec(normalize_spec(s, kind), kind) == normalize_spec(s, kind),
{
    lemma_normalize_no_marker(s, kind);
    let a = stage_a_spec(s);
    let b = stage_b_spec(a);
    let t = trim_spec(b);
    lemma_trim_idempotent(b);
    let y = normalize_spec(s, kind);
    lemma_stage_a_identity(y);
    let c = match kind {
        FormatKind::Json => extract_json_spec(t),
        FormatKind::Xml => extract_xml_spec(t),
    };
    assert(y == trim_spec(c));
    crate::text::lemma_trim_ends(c);
    assert(y.len() > 0 ==> y.last() != 10 && y.last() != 13) by {
        if y.len() > 0 {
            assert(!is_ws(y.last()));
        }
    }
    if contains_seq(y, fence()) {
        lemma_stage_b_fixed_clean(y);
    } else {
        lemma_stage_b_identity(y);
    }
    match kind {
        FormatKind::Json => {
            lemma_extract_json_fixed(t);
            let c2 = extract_json_spec(y);
            lemma_trim_idempotent(extract_json_spec(t));
        },
        FormatKind::Xml => {
            lemma_extract_xml_fixed(t);
            let c2 = extract_xml_spec(y);
            lemma_trim_idempotent(extract_xml_spec(t));
        },
    }
}

/// Idempotence needs no proviso for a response that holds no fence marker at
/// all: its normalized form cannot hold one either.
pub proof fn lemma_normalize_idempotent_fence_free(s: Seq<u8>, kind: FormatKind)
    requires
        !contains_seq(s, fence()),
    ensures
        normalize_spec(normalize_spec(s, kind), kind) == normalize_spec(s, kind),
{
    let a = stage_a_spec(s);
    assert(is_subrange_of(a, s)) by {
        lemma_last_occ(s, think_close());
        let r = last_occ(s, think_close());
        if r < 0 {
            assert(a =~= s.subrange(0, s.len() as int));
        } else {
            assert(a == s.subrange(r + think_close().len() as int, s.len() as int));
            assert(0 <= r + think_close().len() as int <= s.len());
        }
    }
    lemma_subrange_no_occ(a, s, fence());
    lemma_stage_b_identity(a);
    let t = trim_spec(a);
    lemma_trim_subrange(a);
    lemma_subrange_no_occ(t, a, fence());
    let c = match kind {
        FormatKind::Json => extract_json_spec(t),
        FormatKind::Xml => extract_xml_spec(t),
    };
    lemma_extract_subrange(t, kind);
    lemma_subrange_no_occ(c, t, fence());
    lemma_trim_subrange(c);
    lemma_subrange_no_occ(trim_spec(c), c, fence());
    lemma_normalize_idempotent(s, kind);
}

} // verus!
