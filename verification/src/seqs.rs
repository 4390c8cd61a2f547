//! Searching sequences.

use vstd::prelude::*;

verus! {

/// The first position whose element satisfies `f`.
pub open spec fn first_where<T>(s: Seq<T>, f: spec_fn(T) -> bool) -> Option<int>
    decreases s.len(),
{
    if s.len() == 0 {
        None
    } else {
        match first_where(s.drop_last(), f) {
            Some(i) => Some(i),
            None => if f(s.last()) {
                Some(s.len() - 1)
            } else {
                None
            },
        }
    }
}

/// What the position found is, and that none is found only where there is none.
pub proof fn lemma_first_where<T>(s: Seq<T>, f: spec_fn(T) -> bool)
    ensures
        match first_where(s, f) {
            Some(i) => 0 <= i < s.len() && f(s[i]) && forall|j: int| 0 <= j < i ==> !f(#[trigger] s[j]),
            None => forall|j: int| 0 <= j < s.len() ==> !f(#[trigger] s[j]),
        },
    decreases s.len(),
{
    if s.len() > 0 {
        let p = s.drop_last();
        lemma_first_where(p, f);
        match first_where(p, f) {
            Some(i) => {
                assert forall|j: int| 0 <= j < i implies !f(#[trigger] s[j]) by {
                    assert(p[j] == s[j]);
                }
            },
            None => {
                assert forall|j: int| 0 <= j < s.len() - 1 implies !f(#[trigger] s[j]) by {
                    assert(p[j] == s[j]);
                }
            },
        }
    }
}

/// A position that satisfies `f` and has none before it that does is the first.
pub proof fn lemma_is_first<T>(s: Seq<T>, f: spec_fn(T) -> bool, i: int)
    requires
        0 <= i < s.len(),
        f(s[i]),
        forall|j: int| 0 <= j < i ==> !f(#[trigger] s[j]),
    ensures
        first_where(s, f) == Some(i),
{
    lemma_first_where(s, f);
    let k = first_where(s, f)->0;
    if k < i {
        assert(!f(s[k]));
    } else if i < k {
        assert(!f(s[i]));
    }
}

/// Where nothing satisfies `f`, nothing is found.
pub proof fn lemma_is_none<T>(s: Seq<T>, f: spec_fn(T) -> bool)
    requires
        forall|j: int| 0 <= j < s.len() ==> !f(#[trigger] s[j]),
    ensures
        first_where(s, f) is None,
{
    lemma_first_where(s, f);
    if first_where(s, f) is Some {
        assert(!f(s[first_where(s, f)->0]));
    }
}

/// The first position is the same in two sequences that agree, place by place, on
/// what is looked for.
pub proof fn lemma_first_where_agrees<T, U>(
    s: Seq<T>,
    f: spec_fn(T) -> bool,
    t: Seq<U>,
    g: spec_fn(U) -> bool,
)
    requires
        s.len() == t.len(),
        forall|i: int| 0 <= i < s.len() ==> f(#[trigger] s[i]) == g(t[i]),
    ensures
        first_where(s, f) == first_where(t, g),
{
    lemma_first_where(s, f);
    match first_where(s, f) {
        Some(i) => {
            assert forall|j: int| 0 <= j < i implies !g(#[trigger] t[j]) by {
                assert(!f(s[j]));
            }
            lemma_is_first(t, g, i);
        },
        None => {
            assert forall|j: int| 0 <= j < t.len() implies !g(#[trigger] t[j]) by {
                assert(!f(s[j]));
            }
            lemma_is_none(t, g);
        },
    }
}

/// One element more is kept, or not.
pub proof fn lemma_filter_step<T>(s: Seq<T>, f: spec_fn(T) -> bool, k: int)
    requires
        0 <= k < s.len(),
    ensures
        s.take(k + 1).filter(f) == if f(s[k]) {
            s.take(k).filter(f).push(s[k])
        } else {
            s.take(k).filter(f)
        },
{
    reveal(Seq::filter);
    assert(s.take(k + 1).drop_last() =~= s.take(k));
}

/// To filter and to map can change places.
pub proof fn lemma_filter_mapped<T, U>(
    s: Seq<T>,
    m: spec_fn(T) -> U,
    f: spec_fn(T) -> bool,
    g: spec_fn(U) -> bool,
)
    requires
        forall|t: T| #[trigger] f(t) == g(m(t)),
    ensures
        s.filter(f).map_values(m) == s.map_values(m).filter(g),
    decreases s.len(),
{
    reveal(Seq::filter);
    if s.len() == 0 {
        assert(s.filter(f).map_values(m) =~= s.map_values(m).filter(g));
    } else {
        let p = s.drop_last();
        lemma_filter_mapped(p, m, f, g);
        assert(s.map_values(m).drop_last() =~= p.map_values(m));
        assert(f(s.last()) == g(m(s.last())));
        if f(s.last()) {
            assert(s.filter(f).map_values(m) =~= p.filter(f).map_values(m).push(m(s.last())));
        }
    }
}

/// Keep the elements that satisfy `f`, which `keep` decides, in their order.
pub(crate) fn retain<T, F: Fn(&T) -> bool>(v: &mut Vec<T>, keep: F, Ghost(f): Ghost<spec_fn(T) -> bool>)
    requires
        forall|t: T| call_requires(keep, (&t,)),
        forall|t: T, b: bool| call_ensures(keep, (&t,), b) ==> b == f(t),
    ensures
        final(v)@ == old(v)@.filter(f),
{
    let ghost s = v@;
    let ghost mut k: int = 0;
    let mut i: usize = 0;
    proof {
        reveal(Seq::filter);
        assert(s.take(0) =~= Seq::empty());
        assert(v@ =~= s.take(0).filter(f) + s.skip(0));
    }
    while i < v.len()
        invariant
            0 <= k <= s.len(),
            i == s.take(k).filter(f).len(),
            v@ == s.take(k).filter(f) + s.skip(k),
            forall|t: T| call_requires(keep, (&t,)),
            forall|t: T, b: bool| call_ensures(keep, (&t,), b) ==> b == f(t),
        decreases s.len() - k,
    {
        assert(v@[i as int] == s.skip(k)[0]);
        proof {
            lemma_filter_step(s, f, k);
        }
        if keep(&v[i]) {
            i += 1;
        } else {
            v.remove(i);
        }
        proof {
            k = k + 1;
            assert(v@ =~= s.take(k).filter(f) + s.skip(k));
        }
    }
    assert(s.take(k) =~= s);
    assert(v@ =~= s.filter(f));
}

/// A filtered sequence holds what the sequence holds and the condition keeps, and
/// nothing else.
pub proof fn lemma_filtered<T>(s: Seq<T>, f: spec_fn(T) -> bool)
    ensures
        forall|x: T| #[trigger] s.filter(f).contains(x) <==> s.contains(x) && f(x),
{
    broadcast use vstd::seq_lib::group_filter_ensures;

    assert forall|x: T| #[trigger] s.filter(f).contains(x) <==> s.contains(x) && f(x) by {
        if s.filter(f).contains(x) {
            s.lemma_filter_contains_rev(f, x);
            let i = choose|i: int| 0 <= i < s.filter(f).len() && s.filter(f)[i] == x;
            assert(f(s.filter(f)[i]));
        }
        if s.contains(x) && f(x) {
            let i = choose|i: int| 0 <= i < s.len() && s[i] == x;
            s.lemma_filter_contains(f, i);
        }
    }
}

} // verus!
