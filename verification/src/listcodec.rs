//! Encoding and parsing of sequences of records, element after element.

use vstd::prelude::*;
use crate::codec::lemma_sub_split;

verus! {

/// Concatenated encodings of the elements of `s`, first element first.
pub open spec fn e_list<T>(s: Seq<T>, f: spec_fn(T) -> Seq<u8>) -> Seq<u8>
    decreases s.len(),
{
    if s.len() == 0 {
        Seq::empty()
    } else {
        f(s[0]) + e_list(s.drop_first(), f)
    }
}

/// Parse `n` consecutive elements with the element parser `f`.
pub open spec fn pr_list<T>(
    b: Seq<u8>,
    pos: int,
    n: nat,
    f: spec_fn(Seq<u8>, int) -> Option<(T, int)>,
) -> Option<(Seq<T>, int)>
    decreases n,
{
    if n == 0 {
        Some((Seq::empty(), pos))
    } else {
        match f(b, pos) {
            None => None,
            Some((x, p)) => match pr_list(b, p, (n - 1) as nat, f) {
                None => None,
                Some((xs, q)) => Some((seq![x] + xs, q)),
            },
        }
    }
}

/// Elements already parsed, in front of the outcome of parsing the rest.
pub open spec fn prepend<T>(pre: Seq<T>, r: Option<(Seq<T>, int)>) -> Option<(Seq<T>, int)> {
    match r {
        None => None,
        Some((xs, q)) => Some((pre + xs, q)),
    }
}

pub proof fn lemma_e_list_push<T>(s: Seq<T>, x: T, f: spec_fn(T) -> Seq<u8>)
    ensures
        e_list(s.push(x), f) == e_list(s, f) + f(x),
    decreases s.len(),
{
    if s.len() == 0 {
        assert(s.push(x).drop_first() =~= Seq::<T>::empty());
        assert(e_list(s.push(x).drop_first(), f) == Seq::<u8>::empty());
        assert(s.push(x)[0] == x);
        assert(e_list(s.push(x), f) =~= f(x));
    } else {
        assert(s.push(x).drop_first() =~= s.drop_first().push(x));
        lemma_e_list_push(s.drop_first(), x, f);
        assert(e_list(s.push(x), f) =~= e_list(s, f) + f(x));
    }
}

/// One more element parsed: the prefix grows by it.
pub proof fn lemma_prepend_step<T>(
    pre: Seq<T>,
    b: Seq<u8>,
    pos: int,
    n: nat,
    f: spec_fn(Seq<u8>, int) -> Option<(T, int)>,
    x: T,
    p: int,
)
    requires
        n > 0,
        f(b, pos) == Some((x, p)),
    ensures
        prepend(pre, pr_list(b, pos, n, f)) == prepend(pre.push(x), pr_list(b, p, (n - 1) as nat, f)),
{
    match pr_list(b, p, (n - 1) as nat, f) {
        None => {},
        Some((xs, q)) => {
            assert(pre + (seq![x] + xs) =~= pre.push(x) + xs);
        },
    }
}

/// Parsing where an encoded list was written gives the list back, provided
/// each element parses back from its own encoding.
pub proof fn lemma_pr_list_at<T>(
    b: Seq<u8>,
    pos: int,
    xs: Seq<T>,
    f: spec_fn(Seq<u8>, int) -> Option<(T, int)>,
    g: spec_fn(T) -> Seq<u8>,
)
    requires
        0 <= pos,
        pos + e_list(xs, g).len() <= b.len(),
        b.subrange(pos, pos + e_list(xs, g).len()) == e_list(xs, g),
        forall|i: int, p: int|
            #![trigger xs[i], f(b, p)]
            0 <= i < xs.len() && 0 <= p && p + g(xs[i]).len() <= b.len() && b.subrange(
                p,
                p + g(xs[i]).len(),
            ) == g(xs[i]) ==> f(b, p) == Some((xs[i], p + g(xs[i]).len())),
    ensures
        pr_list(b, pos, xs.len(), f) == Some((xs, pos + e_list(xs, g).len())),
    decreases xs.len(),
{
    if xs.len() == 0 {
        assert(xs =~= Seq::<T>::empty());
    } else {
        let x = xs[0];
        let rest = xs.drop_first();
        lemma_sub_split(b, pos, g(x), e_list(rest, g));
        assert(f(b, pos) == Some((x, pos + g(x).len())));
        assert forall|i: int, p: int|
            #![trigger rest[i], f(b, p)]
            0 <= i < rest.len() && 0 <= p && p + g(rest[i]).len() <= b.len() && b.subrange(
                p,
                p + g(rest[i]).len(),
            ) == g(rest[i]) implies f(b, p) == Some((rest[i], p + g(rest[i]).len())) by {
            assert(rest[i] == xs[i + 1]);
        }
        lemma_pr_list_at(b, pos + g(x).len(), rest, f, g);
        assert(seq![x] + rest =~= xs);
    }
}

} // verus!
