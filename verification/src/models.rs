//! Parsing of the model-listing output: the installed-model names are the
//! first whitespace-separated token of each line after the header line.

use vstd::prelude::*;
use crate::text::contains_at;
use crate::text::contains_seq;
use crate::text::find_first;
use crate::text::first_where;
use crate::text::is_ws;
use crate::text::is_ws_byte;
use crate::text::lemma_first_where;
use crate::text::lemma_trim_left_at;
use crate::text::lines_spec;
use crate::text::split_lines;
use crate::text::sub_bytes;
use crate::text::trim_left_spec;

verus! {

/// The first whitespace-separated token of a line, if the line holds one.
pub open spec fn first_token(l: Seq<u8>) -> Option<Seq<u8>> {
    let t = trim_left_spec(l);
    if t.len() == 0 {
        None
    } else {
        let e = first_where(t, |b: u8| is_ws(b));
        if e < 0 {
            Some(t)
        } else {
            Some(t.take(e))
        }
    }
}

/// The first tokens of the lines that hold one, in order.
pub open spec fn tokens_of(ls: Seq<Seq<u8>>) -> Seq<Seq<u8>>
    decreases ls.len(),
{
    if ls.len() == 0 {
        Seq::empty()
    } else {
        match first_token(ls.first()) {
            Some(t) => seq![t] + tokens_of(ls.drop_first()),
            None => tokens_of(ls.drop_first()),
        }
    }
}

/// The model names in a listing: the first token of every line after the
/// header line.
pub open spec fn model_list_spec(s: Seq<u8>) -> Seq<Seq<u8>> {
    let ls = lines_spec(s);
    if ls.len() == 0 {
        Seq::empty()
    } else {
        tokens_of(ls.drop_first())
    }
}

/// The first whitespace-separated token of `l`, as `first_token` describes.
fn first_token_exec(l: &Vec<u8>) -> (r: Option<Vec<u8>>)
    ensures
        match r {
            Some(v) => first_token(l@) == Some(v@),
            None => first_token(l@) is None,
        },
{
    let n = l.len();
    let mut a: usize = 0;
    while a < n && is_ws_byte(l[a])
        invariant
            a <= n == l@.len(),
            forall|k: int| 0 <= k < a ==> is_ws(l@[k]),
        decreases n - a,
    {
        a = a + 1;
    }
    proof {
        lemma_trim_left_at(l@, a as int);
    }
    if a == n {
        proof {
            assert(trim_left_spec(l@) =~= Seq::<u8>::empty());
        }
        return None;
    }
    let mut b: usize = a;
    while b < n && !is_ws_byte(l[b])
        invariant
            a <= b <= n == l@.len(),
            forall|k: int| a <= k < b ==> !is_ws(l@[k]),
        decreases n - b,
    {
        b = b + 1;
    }
    proof {
        let t = l@.subrange(a as int, n as int);
        lemma_first_where(t, |x: u8| is_ws(x));
        let e = first_where(t, |x: u8| is_ws(x));
        assert(forall|k: int| 0 <= k < b - a ==> t[k] == l@[a + k] && !is_ws(l@[a + k]));
        if b == n {
            assert(e == -1) by {
                if e >= 0 {
                    assert((|x: u8| is_ws(x))(t[e]));
                    assert(!is_ws(t[e]));
                }
            }
        } else {
            assert(t[b - a] == l@[b as int]);
            assert((|x: u8| is_ws(x))(t[b - a]));
            assert(e == b - a) by {
                if e == -1 {
                    assert(!(|x: u8| is_ws(x))(t[b - a]));
                }
                if 0 <= e < b - a {
                    assert(!is_ws(t[e]));
                    assert((|x: u8| is_ws(x))(t[e]));
                }
                if e > b - a {
                    assert(!(|x: u8| is_ws(x))(t[b - a]));
                }
            }
            assert(t.take(e) =~= l@.subrange(a as int, b as int));
        }
        if b == n {
            assert(t =~= l@.subrange(a as int, b as int));
        }
    }
    Some(sub_bytes(l, a, b))
}

/// The model names in a listing, skipping the header line; a line with no
/// token contributes nothing.
pub fn parse_model_list(stdout: &Vec<u8>) -> (r: Vec<Vec<u8>>)
    ensures
        r.deep_view() == model_list_spec(stdout@),
{
    let ls = split_lines(stdout);
    let ghost dv = ls.deep_view();
    let mut out: Vec<Vec<u8>> = Vec::new();
    if ls.len() == 0 {
        proof {
            assert(out.deep_view() =~= model_list_spec(stdout@));
        }
        return out;
    }
    let mut i: usize = 1;
    proof {
        assert(dv.drop_first() =~= dv.skip(1));
    }
    while i < ls.len()
        invariant
            1 <= i <= ls.len(),
            dv == ls.deep_view(),
            tokens_of(dv.drop_first()) == out.deep_view() + tokens_of(dv.skip(i as int)),
        decreases ls.len() - i,
    {
        let ghost pre = out.deep_view();
        let ghost rest = dv.skip(i as int);
        proof {
            assert(rest.first() == dv[i as int]);
            assert(dv[i as int] == ls@[i as int].deep_view());
            assert(ls@[i as int].deep_view() =~= ls@[i as int]@);
            assert(rest.drop_first() =~= dv.skip(i + 1));
        }
        let tok = first_token_exec(&ls[i]);
        match tok {
            Some(v) => {
                let ghost vv = v@;
                proof {
                    assert(first_token(rest.first()) == Some(vv));
                    assert(v.deep_view() =~= vv);
                }
                out.push(v);
                proof {
                    assert(out.deep_view() =~= pre.push(vv));
                }
            },
            None => {
                proof {
                    assert(first_token(rest.first()) is None);
                }
            },
        }
        i = i + 1;
        proof {
            match first_token(rest.first()) {
                Some(t) => {
                    assert(tokens_of(rest) == seq![t] + tokens_of(dv.skip(i as int)));
                    assert(out.deep_view() =~= pre.push(t));
                    assert(pre.push(t) + tokens_of(dv.skip(i as int)) =~= pre + (seq![t]
                        + tokens_of(dv.skip(i as int))));
                },
                None => {
                    assert(tokens_of(rest) == tokens_of(dv.skip(i as int)));
                },
            }
        }
    }
    proof {
        assert(dv.skip(i as int) =~= Seq::<Seq<u8>>::empty());
        assert(tokens_of(dv.drop_first()) =~= out.deep_view());
    }
    out
}

/// Whether the listing mentions the model name anywhere, as a plain
/// substring test.
pub fn model_listed(stdout: &Vec<u8>, model: &Vec<u8>) -> (r: bool)
    ensures
        r == contains_seq(stdout@, model@),
{
    if model.len() == 0 {
        proof {
            assert(contains_at(stdout@, model@, 0)) by {
                assert(stdout@.subrange(0, 0) =~= model@);
            }
        }
        true
    } else {
        match find_first(stdout, model) {
            Some(i) => {
                proof {
                    assert(contains_at(stdout@, model@, i as int));
                }
                true
            },
            None => false,
        }
    }
}

} // verus!
