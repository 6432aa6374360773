//! The response normalizer: four ordered, best-effort cleanup stages that turn
//! a free-form model reply into the candidate corrected document.

use vstd::prelude::*;
use vstd::string::StrSliceExecFns;
use vstd::string::StringSliceAdditionalSpecFns;
use vstd::utf8::is_ascii_chars;
use vstd::utf8::is_ascii_chars_encode_utf8;
use crate::text::contains_at;
use crate::text::contains_seq;
use crate::text::copy_bytes;
use crate::text::find_first;
use crate::text::find_last;
use crate::text::first_where;
use crate::text::join_lines;
use crate::text::join_spec;
use crate::text::last_where;
use crate::text::lemma_first_where;
use crate::text::lemma_last_where;
use crate::text::lines_spec;
use crate::text::match_at;
use crate::text::split_lines;
use crate::text::sub_bytes;
use crate::text::trim_bytes;
use crate::text::trim_spec;

verus! {

/// The closing marker of a reasoning block.
pub open spec fn think_close() -> Seq<u8> {
    "</think>".spec_bytes()
}

/// The three backticks that open or close a markdown fence.
pub open spec fn fence() -> Seq<u8> {
    "```".spec_bytes()
}

/// The bytes of the reasoning-block closing marker.
pub proof fn lemma_think_bytes()
    ensures
        think_close() =~= seq![60u8, 47u8, 116u8, 104u8, 105u8, 110u8, 107u8, 62u8],
{
    let s = "</think>";
    reveal_strlit("</think>");
    assert(s@.len() == 8);
    assert(is_ascii_chars(s@)) by {
        assert forall|i: int| 0 <= i < s@.len() implies '\0' <= #[trigger] s@[i] <= '\u{7f}' by {
            if i == 0 {
                assert(s@[0] == '<');
            } else if i == 1 {
                assert(s@[1] == '/');
            } else if i == 2 {
                assert(s@[2] == 't');
            } else if i == 3 {
                assert(s@[3] == 'h');
            } else if i == 4 {
                assert(s@[4] == 'i');
            } else if i == 5 {
                assert(s@[5] == 'n');
            } else if i == 6 {
                assert(s@[6] == 'k');
            } else {
                assert(s@[7] == '>');
            }
        }
    }
    is_ascii_chars_encode_utf8(s@);
    assert forall|i: int| 0 <= i < 8 implies think_close()[i] == seq![
        60u8,
        47u8,
        116u8,
        104u8,
        105u8,
        110u8,
        107u8,
        62u8,
    ][i] by {
        assert(s@[i] as u8 == think_close()[i]);
        if i == 0 {
            assert(s@[0] == '<');
        } else if i == 1 {
            assert(s@[1] == '/');
        } else if i == 2 {
            assert(s@[2] == 't');
        } else if i == 3 {
            assert(s@[3] == 'h');
        } else if i == 4 {
            assert(s@[4] == 'i');
        } else if i == 5 {
            assert(s@[5] == 'n');
        } else if i == 6 {
            assert(s@[6] == 'k');
        } else {
            assert(s@[7] == '>');
        }
    }
}

/// The bytes of the fence marker.
pub proof fn lemma_fence_bytes()
    ensures
        fence() =~= seq![96u8, 96u8, 96u8],
{
    let s = "```";
    reveal_strlit("```");
    assert(s@.len() == 3);
    assert(is_ascii_chars(s@)) by {
        assert forall|i: int| 0 <= i < s@.len() implies '\0' <= #[trigger] s@[i] <= '\u{7f}' by {
            if i == 0 {
                assert(s@[0] == '`');
            } else if i == 1 {
                assert(s@[1] == '`');
            } else {
                assert(s@[2] == '`');
            }
        }
    }
    is_ascii_chars_encode_utf8(s@);
    assert forall|i: int| 0 <= i < 3 implies fence()[i] == seq![96u8, 96u8, 96u8][i] by {
        assert(s@[i] as u8 == fence()[i]);
        if i == 0 {
            assert(s@[0] == '`');
        } else if i == 1 {
            assert(s@[1] == '`');
        } else {
            assert(s@[2] == '`');
        }
    }
}

/// The reasoning-block closing marker, as bytes.
pub fn think_vec() -> (r: Vec<u8>)
    ensures
        r@ == think_close(),
        r@.len() == 8,
{
    proof {
        lemma_think_bytes();
    }
    "</think>".as_bytes_vec()
}

/// The fence marker, as bytes.
pub fn fence_vec() -> (r: Vec<u8>)
    ensures
        r@ == fence(),
        r@.len() == 3,
{
    proof {
        lemma_fence_bytes();
    }
    "```".as_bytes_vec()
}

/// The greatest `i <= j` at which `p` occurs in `s`, or -1.
pub open spec fn last_occ_upto(s: Seq<u8>, p: Seq<u8>, j: int) -> int
    decreases j + 1,
{
    if j < 0 {
        -1
    } else if contains_at(s, p, j) {
        j
    } else {
        last_occ_upto(s, p, j - 1)
    }
}

/// The position of the last occurrence of `p` in `s`, or -1.
pub open spec fn last_occ(s: Seq<u8>, p: Seq<u8>) -> int {
    last_occ_upto(s, p, s.len() - p.len())
}

proof fn lemma_last_occ_upto(s: Seq<u8>, p: Seq<u8>, j: int)
    ensures
        last_occ_upto(s, p, j) == -1 || 0 <= last_occ_upto(s, p, j) <= j,
        last_occ_upto(s, p, j) >= 0 ==> contains_at(s, p, last_occ_upto(s, p, j)) && (forall|k: int|
            last_occ_upto(s, p, j) < k <= j ==> !contains_at(s, p, k)),
        last_occ_upto(s, p, j) == -1 ==> forall|k: int| k <= j ==> !contains_at(s, p, k),
    decreases j + 1,
{
    if j < 0 {
    } else if contains_at(s, p, j) {
    } else {
        lemma_last_occ_upto(s, p, j - 1);
    }
}

/// What `last_occ` returns: the greatest occurrence position, or -1 when the
/// pattern does not occur.
pub proof fn lemma_last_occ(s: Seq<u8>, p: Seq<u8>)
    ensures
        last_occ(s, p) == -1 || 0 <= last_occ(s, p) <= s.len() - p.len(),
        last_occ(s, p) >= 0 ==> contains_at(s, p, last_occ(s, p)) && (forall|k: int|
            k > last_occ(s, p) ==> !contains_at(s, p, k)),
        last_occ(s, p) == -1 ==> !contains_seq(s, p),
{
    lemma_last_occ_upto(s, p, s.len() - p.len());
    assert(forall|k: int| k > s.len() - p.len() ==> !contains_at(s, p, k));
    if last_occ(s, p) == -1 {
        assert(forall|k: int| !contains_at(s, p, k));
    }
}

/// Stage A: everything strictly after the last reasoning-block closing
/// marker; the whole text when no marker occurs.
pub open spec fn stage_a_spec(s: Seq<u8>) -> Seq<u8> {
    let r = last_occ(s, think_close());
    if r < 0 {
        s
    } else {
        s.subrange(r + think_close().len() as int, s.len() as int)
    }
}

/// Stage A of the normalizer: strips a reasoning preamble by anchoring on the
/// last closing marker.
pub fn strip_reasoning(s: &Vec<u8>) -> (r: Vec<u8>)
    ensures
        r@ == stage_a_spec(s@),
{
    let p = think_vec();
    proof {
        lemma_last_occ(s@, think_close());
    }
    match find_last(s, &p) {
        Some(i) => {
            proof {
                let lr = last_occ(s@, think_close());
                assert(contains_seq(s@, think_close())) by {
                    assert(contains_at(s@, think_close(), i as int));
                }
                assert(lr >= 0);
                assert(lr == i) by {
                    if lr < i {
                        assert(!contains_at(s@, think_close(), i as int));
                    }
                    if lr > i {
                        assert(!contains_at(s@, think_close(), lr));
                    }
                }
                assert(i + p@.len() <= s@.len());
            }
            let n = s.len();
            let e = i + p.len();
            sub_bytes(s, e, n)
        },
        None => {
            proof {
                if last_occ(s@, think_close()) >= 0 {
                    assert(contains_seq(s@, think_close()));
                }
            }
            copy_bytes(s)
        },
    }
}

/// A line whose trimmed content begins with a fence marker.
pub open spec fn is_fence_line(l: Seq<u8>) -> bool {
    contains_at(trim_spec(l), fence(), 0)
}

/// The lines collected while inside a fence, scanning with a toggle that
/// flips at each fence-marker line; fence-marker lines are dropped.
pub open spec fn collect_fenced(ls: Seq<Seq<u8>>, inside: bool) -> Seq<Seq<u8>>
    decreases ls.len(),
{
    if ls.len() == 0 {
        Seq::empty()
    } else if is_fence_line(ls.first()) {
        collect_fenced(ls.drop_first(), !inside)
    } else if inside {
        seq![ls.first()] + collect_fenced(ls.drop_first(), inside)
    } else {
        collect_fenced(ls.drop_first(), inside)
    }
}

/// The lines that are not themselves fence-marker lines.
pub open spec fn non_fence(ls: Seq<Seq<u8>>) -> Seq<Seq<u8>>
    decreases ls.len(),
{
    if ls.len() == 0 {
        Seq::empty()
    } else if is_fence_line(ls.first()) {
        non_fence(ls.drop_first())
    } else {
        seq![ls.first()] + non_fence(ls.drop_first())
    }
}

/// Stage B: when the text holds a fence marker, the joined lines collected
/// inside fences; if none were collected, the joined lines that are not
/// themselves fence-marker lines. A text with no fence marker is unchanged.
pub open spec fn stage_b_spec(s: Seq<u8>) -> Seq<u8> {
    if !contains_seq(s, fence()) {
        s
    } else {
        let kept = collect_fenced(lines_spec(s), false);
        if kept.len() > 0 {
            join_spec(kept)
        } else {
            join_spec(non_fence(lines_spec(s)))
        }
    }
}

/// Whether the trimmed line begins with the fence marker.
fn is_fence_line_exec(l: &Vec<u8>, f: &Vec<u8>) -> (r: bool)
    requires
        f@ == fence(),
    ensures
        r == is_fence_line(l@),
{
    let t = trim_bytes(l);
    if f.len() <= t.len() {
        match_at(&t, f, 0)
    } else {
        proof {
            assert(!contains_at(trim_spec(l@), fence(), 0));
        }
        false
    }
}

/// Stage B of the normalizer: unwraps markdown fencing, keeping fenced
/// content when a fence pair exists, else dropping stray fence lines.
pub fn strip_fences(s: &Vec<u8>) -> (r: Vec<u8>)
    ensures
        r@ == stage_b_spec(s@),
{
    let f = fence_vec();
    if find_first(s, &f).is_none() {
        return copy_bytes(s);
    }
    let ls = split_lines(s);
    let ghost dv = ls.deep_view();
    let mut kept: Vec<Vec<u8>> = Vec::new();
    let mut inside: bool = false;
    let mut i: usize = 0;
    proof {
        assert(dv.skip(0) =~= dv);
    }
    while i < ls.len()
        invariant
            i <= ls.len(),
            f@ == fence(),
            dv == ls.deep_view(),
            collect_fenced(dv, false) == kept.deep_view() + collect_fenced(
                dv.skip(i as int),
                inside,
            ),
        decreases ls.len() - i,
    {
        let ghost pre = kept.deep_view();
        let ghost was_inside = inside;
        let ghost rest = dv.skip(i as int);
        proof {
            assert(rest.first() == dv[i as int]);
            assert(dv[i as int] == ls@[i as int].deep_view());
            assert(ls@[i as int].deep_view() =~= ls@[i as int]@);
            assert(rest.drop_first() =~= dv.skip(i + 1));
        }
        let fence_here = is_fence_line_exec(&ls[i], &f);
        if fence_here {
            inside = !inside;
        } else if inside {
            let c = copy_bytes(&ls[i]);
            proof {
                assert(c.deep_view() =~= rest.first());
            }
            kept.push(c);
            proof {
                assert(kept.deep_view() =~= pre.push(rest.first()));
            }
        }
        i = i + 1;
        proof {
            if fence_here {
                assert(collect_fenced(rest, was_inside) == collect_fenced(
                    dv.skip(i as int),
                    inside,
                ));
            } else if was_inside {
                assert(collect_fenced(rest, was_inside) == seq![rest.first()] + collect_fenced(
                    dv.skip(i as int),
                    inside,
                ));
                assert(pre.push(rest.first()) + collect_fenced(dv.skip(i as int), inside) =~= pre
                    + (seq![rest.first()] + collect_fenced(dv.skip(i as int), inside)));
            } else {
                assert(collect_fenced(rest, was_inside) == collect_fenced(
                    dv.skip(i as int),
                    inside,
                ));
            }
        }
    }
    proof {
        assert(dv.skip(i as int) =~= Seq::<Seq<u8>>::empty());
        assert(collect_fenced(dv, false) =~= kept.deep_view());
    }
    if kept.len() > 0 {
        join_lines(&kept)
    } else {
        let mut keep2: Vec<Vec<u8>> = Vec::new();
        let mut i2: usize = 0;
        proof {
            assert(dv.skip(0) =~= dv);
        }
        while i2 < ls.len()
            invariant
                i2 <= ls.len(),
                f@ == fence(),
                dv == ls.deep_view(),
                non_fence(dv) == keep2.deep_view() + non_fence(dv.skip(i2 as int)),
            decreases ls.len() - i2,
        {
            let ghost pre = keep2.deep_view();
            let ghost rest = dv.skip(i2 as int);
            proof {
                assert(rest.first() == dv[i2 as int]);
                assert(dv[i2 as int] == ls@[i2 as int].deep_view());
                assert(ls@[i2 as int].deep_view() =~= ls@[i2 as int]@);
                assert(rest.drop_first() =~= dv.skip(i2 + 1));
            }
            let fence_here = is_fence_line_exec(&ls[i2], &f);
            if !fence_here {
                let c = copy_bytes(&ls[i2]);
                proof {
                    assert(c.deep_view() =~= rest.first());
                }
                keep2.push(c);
                proof {
                    assert(keep2.deep_view() =~= pre.push(rest.first()));
                }
            }
            i2 = i2 + 1;
            proof {
                if !fence_here {
                    assert(non_fence(rest) == seq![rest.first()] + non_fence(dv.skip(i2 as int)));
                    assert(pre.push(rest.first()) + non_fence(dv.skip(i2 as int)) =~= pre + (seq![
                        rest.first(),
                    ] + non_fence(dv.skip(i2 as int))));
                } else {
                    assert(non_fence(rest) == non_fence(dv.skip(i2 as int)));
                }
            }
        }
        proof {
            assert(dv.skip(i2 as int) =~= Seq::<Seq<u8>>::empty());
            assert(non_fence(dv) =~= keep2.deep_view());
        }
        join_lines(&keep2)
    }
}

/// A byte that opens a JSON object or array.
pub open spec fn is_opener(b: u8) -> bool {
    b == 123 || b == 91
}

/// The closing bracket matching an opener.
pub open spec fn closer_for(b: u8) -> u8 {
    if b == 123 {
        125u8
    } else {
        93u8
    }
}

/// The nesting-depth change a byte causes: +1 on the opener, -1 on the
/// matching closer, 0 otherwise. Quote context is deliberately ignored.
pub open spec fn bracket_delta(b: u8, open: u8, close: u8) -> int {
    if b == open {
        1
    } else if b == close {
        -1
    } else {
        0
    }
}

/// The exclusive end of the span in which the nesting depth, starting at
/// `depth` just before position `j`, first returns to zero; -1 when it never
/// does.
pub open spec fn scan_end(t: Seq<u8>, open: u8, close: u8, j: int, depth: int) -> int
    decreases t.len() - j,
{
    if j < 0 || j >= t.len() {
        -1
    } else {
        let d2 = depth + bracket_delta(t[j], open, close);
        if d2 == 0 {
            j + 1
        } else {
            scan_end(t, open, close, j + 1, d2)
        }
    }
}

/// `scan_end` yields -1 or a position after `j` and within the text.
pub proof fn lemma_scan_end_bounds(t: Seq<u8>, open: u8, close: u8, j: int, depth: int)
    ensures
        scan_end(t, open, close, j, depth) == -1 || j < scan_end(t, open, close, j, depth)
            <= t.len(),
    decreases t.len() - j,
{
    if 0 <= j < t.len() {
        let d2 = depth + bracket_delta(t[j], open, close);
        if d2 != 0 {
            lemma_scan_end_bounds(t, open, close, j + 1, d2);
        }
    }
}

/// Stage C for JSON: the span from the first `{` or `[` to the position where
/// the nesting depth of that single bracket type returns to zero; the text
/// unchanged when there is no opener or the depth never returns to zero.
pub open spec fn extract_json_spec(t: Seq<u8>) -> Seq<u8> {
    let i = first_where(t, |b: u8| is_opener(b));
    if i < 0 {
        t
    } else {
        let e = scan_end(t, t[i], closer_for(t[i]), i, 0);
        if e < 0 {
            t
        } else {
            t.subrange(i, e)
        }
    }
}

/// Stage C for XML: the span from the first `<` through the last `>` when the
/// latter comes after the former; the text unchanged otherwise.
pub open spec fn extract_xml_spec(t: Seq<u8>) -> Seq<u8> {
    let i = first_where(t, |b: u8| b == 60);
    let j = last_where(t, |b: u8| b == 62);
    if 0 <= i && i < j {
        t.subrange(i, j + 1)
    } else {
        t
    }
}

/// JSON boundary extraction, as `extract_json_spec` describes it.
pub fn extract_json(t: &Vec<u8>) -> (r: Vec<u8>)
    ensures
        r@ == extract_json_spec(t@),
{
    let n = t.len();
    let mut i: usize = 0;
    while i < n && !(t[i] == 123 || t[i] == 91)
        invariant
            i <= n == t@.len(),
            forall|k: int| 0 <= k < i ==> !is_opener(t@[k]),
        decreases n - i,
    {
        i = i + 1;
    }
    proof {
        lemma_first_where(t@, |b: u8| is_opener(b));
    }
    let ghost fw = first_where(t@, |b: u8| is_opener(b));
    if i == n {
        proof {
            if fw >= 0 {
                assert((|b: u8| is_opener(b))(t@[fw]));
            }
        }
        return copy_bytes(t);
    }
    proof {
        assert((|b: u8| is_opener(b))(t@[i as int]));
        assert(fw >= 0) by {
            if fw == -1 {
                assert(!(|b: u8| is_opener(b))(t@[i as int]));
            }
        }
        assert(fw == i) by {
            if fw < i {
                assert(!is_opener(t@[fw]));
                assert((|b: u8| is_opener(b))(t@[fw]));
            }
            if fw > i {
                assert(!(|b: u8| is_opener(b))(t@[i as int]));
            }
        }
    }
    let open = t[i];
    let close: u8 = if open == 123 {
        125
    } else {
        93
    };
    let mut j: usize = i;
    let mut depth: usize = 0;
    while j < n
        invariant
            i <= j <= n == t@.len(),
            depth <= j - i,
            j == i ==> depth == 0,
            j > i ==> depth >= 1,
            t@[i as int] == open,
            is_opener(open),
            close == closer_for(open),
            first_where(t@, |b: u8| is_opener(b)) == i as int,
            scan_end(t@, open, close, i as int, 0) == scan_end(
                t@,
                open,
                close,
                j as int,
                depth as int,
            ),
        decreases n - j,
    {
        let b = t[j];
        let d2: usize = if b == open {
            depth + 1
        } else if b == close {
            depth - 1
        } else {
            depth
        };
        if d2 == 0 && (b == open || b == close) {
            proof {
                assert(scan_end(t@, open, close, j as int, depth as int) == j + 1);
                lemma_scan_end_bounds(t@, open, close, i as int, 0);
            }
            return sub_bytes(t, i, j + 1);
        }
        proof {
            assert(depth as int + bracket_delta(t@[j as int], open, close) == d2 as int);
            assert(scan_end(t@, open, close, j as int, depth as int) == scan_end(
                t@,
                open,
                close,
                j + 1,
                d2 as int,
            ));
        }
        j = j + 1;
        depth = d2;
    }
    proof {
        assert(scan_end(t@, open, close, j as int, depth as int) == -1);
    }
    copy_bytes(t)
}

/// XML boundary extraction, as `extract_xml_spec` describes it.
pub fn extract_xml(t: &Vec<u8>) -> (r: Vec<u8>)
    ensures
        r@ == extract_xml_spec(t@),
{
    let n = t.len();
    let mut i: usize = 0;
    while i < n && t[i] != 60
        invariant
            i <= n == t@.len(),
            forall|k: int| 0 <= k < i ==> t@[k] != 60,
        decreases n - i,
    {
        i = i + 1;
    }
    let mut j: usize = n;
    while j > 0 && t[j - 1] != 62
        invariant
            j <= n == t@.len(),
            forall|k: int| j <= k < n ==> t@[k] != 62,
        decreases j,
    {
        j = j - 1;
    }
    proof {
        lemma_first_where(t@, |b: u8| b == 60);
        lemma_last_where(t@, |b: u8| b == 62);
    }
    let ghost fw = first_where(t@, |b: u8| b == 60);
    let ghost lw = last_where(t@, |b: u8| b == 62);
    if i < n && j > 0 && j - 1 > i {
        proof {
            assert((|b: u8| b == 60)(t@[i as int]));
            assert(fw == i) by {
                if fw == -1 {
                    assert(!(|b: u8| b == 60)(t@[i as int]));
                }
                if 0 <= fw < i {
                    assert(t@[fw] != 60);
                    assert((|b: u8| b == 60)(t@[fw]));
                }
                if fw > i {
                    assert(!(|b: u8| b == 60)(t@[i as int]));
                }
            }
            assert((|b: u8| b == 62)(t@[j - 1]));
            assert(lw == j - 1) by {
                if lw == -1 {
                    assert(!(|b: u8| b == 62)(t@[j - 1]));
                }
                if lw > j - 1 {
                    assert(t@[lw] != 62);
                    assert((|b: u8| b == 62)(t@[lw]));
                }
                if lw < j - 1 {
                    assert(!(|b: u8| b == 62)(t@[j - 1]));
                }
            }
        }
        sub_bytes(t, i, j)
    } else {
        proof {
            if i == n {
                assert(fw == -1) by {
                    if fw >= 0 {
                        assert(t@[fw] != 60);
                        assert((|b: u8| b == 60)(t@[fw]));
                    }
                }
            } else {
                assert((|b: u8| b == 60)(t@[i as int]));
                assert(fw == i) by {
                    if fw == -1 {
                        assert(!(|b: u8| b == 60)(t@[i as int]));
                    }
                    if 0 <= fw < i {
                        assert(t@[fw] != 60);
                        assert((|b: u8| b == 60)(t@[fw]));
                    }
                    if fw > i {
                        assert(!(|b: u8| b == 60)(t@[i as int]));
                    }
                }
            }
            if j == 0 {
                assert(lw == -1) by {
                    if lw >= 0 {
                        assert(t@[lw] != 62);
                        assert((|b: u8| b == 62)(t@[lw]));
                    }
                }
            } else {
                assert((|b: u8| b == 62)(t@[j - 1]));
                assert(lw == j - 1) by {
                    if lw == -1 {
                        assert(!(|b: u8| b == 62)(t@[j - 1]));
                    }
                    if lw > j - 1 {
                        assert(t@[lw] != 62);
                        assert((|b: u8| b == 62)(t@[lw]));
                    }
                    if lw < j - 1 {
                        assert(!(|b: u8| b == 62)(t@[j - 1]));
                    }
                }
            }
            assert(!(0 <= fw && fw < lw));
        }
        copy_bytes(t)
    }
}

/// The target format of a fix request.
#[derive(Clone, Copy, PartialEq, Eq, Structural, Debug)]
pub enum FormatKind {
    Json,
    Xml,
}

/// The full normalization pipeline: reasoning stripped, fencing unwrapped,
/// the result trimmed, the format-aware boundary extracted, and the final
/// text trimmed again.
pub open spec fn normalize_spec(s: Seq<u8>, kind: FormatKind) -> Seq<u8> {
    let t = trim_spec(stage_b_spec(stage_a_spec(s)));
    let c = match kind {
        FormatKind::Json => extract_json_spec(t),
        FormatKind::Xml => extract_xml_spec(t),
    };
    trim_spec(c)
}

/// Turns a raw model reply into the candidate corrected document. Never
/// fails: when a heuristic finds nothing to do it leaves its input unchanged.
pub fn normalize_response(s: &Vec<u8>, kind: FormatKind) -> (r: Vec<u8>)
    ensures
        r@ == normalize_spec(s@, kind),
{
    let a = strip_reasoning(s);
    let b = strip_fences(&a);
    let t = trim_bytes(&b);
    let c = match kind {
        FormatKind::Json => extract_json(&t),
        FormatKind::Xml => extract_xml(&t),
    };
    trim_bytes(&c)
}

} // verus!
