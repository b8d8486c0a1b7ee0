//! Facts about sequences that the rest of the library reasons with.

use vstd::prelude::*;

verus! {

/// The position of the first item that satisfies `p`.
pub open spec fn first_where<A>(s: Seq<A>, p: spec_fn(A) -> bool) -> Option<int>
    decreases s.len(),
{
    if s.len() == 0 {
        None
    } else if p(s[0]) {
        Some(0)
    } else {
        match first_where(s.skip(1), p) {
            Some(i) => Some(i + 1),
            None => None,
        }
    }
}

/// An item that satisfies `p` with none before it is the first.
pub proof fn lemma_first_where<A>(s: Seq<A>, p: spec_fn(A) -> bool, i: int)
    requires
        0 <= i < s.len(),
        p(s[i]),
        forall|j: int| 0 <= j < i ==> !p(#[trigger] s[j]),
    ensures
        first_where(s, p) == Some(i),
    decreases i,
{
    if i > 0 {
        assert(!p(s[0]));
        let t = s.skip(1);
        assert forall|j: int| 0 <= j < i - 1 implies !p(#[trigger] t[j]) by {
            assert(t[j] == s[j + 1]);
        }
        lemma_first_where(t, p, i - 1);
    }
}

/// Where no item satisfies `p` there is no first.
pub proof fn lemma_first_where_none<A>(s: Seq<A>, p: spec_fn(A) -> bool)
    requires
        forall|j: int| 0 <= j < s.len() ==> !p(#[trigger] s[j]),
    ensures
        first_where(s, p) is None,
    decreases s.len(),
{
    if s.len() > 0 {
        let t = s.skip(1);
        assert forall|j: int| 0 <= j < t.len() implies !p(#[trigger] t[j]) by {
            assert(t[j] == s[j + 1]);
        }
        assert(!p(s[0]));
        lemma_first_where_none(t, p);
    }
}

/// What `first_where` returns.
pub proof fn lemma_first_where_is<A>(s: Seq<A>, p: spec_fn(A) -> bool)
    ensures
        match first_where(s, p) {
            Some(i) => 0 <= i < s.len() && p(s[i]) && forall|j: int|
                0 <= j < i ==> !p(#[trigger] s[j]),
            None => forall|j: int| 0 <= j < s.len() ==> !p(#[trigger] s[j]),
        },
    decreases s.len(),
{
    if s.len() > 0 && !p(s[0]) {
        let t = s.skip(1);
        lemma_first_where_is(t, p);
        assert forall|j: int|
            0 <= j < (match first_where(s, p) {
                Some(i) => i,
                None => s.len() as int,
            }) implies !p(#[trigger] s[j]) by {
            if j > 0 {
                assert(s[j] == t[j - 1]);
            }
        }
    }
}

/// One more item under a filter.
pub proof fn lemma_filter_step<A>(s: Seq<A>, i: int, p: spec_fn(A) -> bool)
    requires
        0 <= i < s.len(),
    ensures
        s.take(i + 1).filter(p) == (if p(s[i]) {
            s.take(i).filter(p).push(s[i])
        } else {
            s.take(i).filter(p)
        }),
{
    reveal(Seq::filter);
    assert(s.take(i + 1).drop_last() =~= s.take(i));
}

/// A filter keeps exactly the items that satisfy it.
pub proof fn lemma_filter_all<A>(s: Seq<A>, p: spec_fn(A) -> bool)
    ensures
        s.filter(p).len() <= s.len(),
        forall|i: int| 0 <= i < s.filter(p).len() ==> p(#[trigger] s.filter(p)[i]),
        forall|i: int|
            0 <= i < s.len() && p(#[trigger] s[i]) ==> s.filter(p).contains(s[i]),
        forall|i: int| 0 <= i < s.filter(p).len() ==> s.contains(#[trigger] s.filter(p)[i]),
    decreases s.len(),
{
    reveal(Seq::filter);
    if s.len() > 0 {
        let t = s.drop_last();
        lemma_filter_all(t, p);
        assert forall|i: int| 0 <= i < s.len() && p(#[trigger] s[i]) implies s.filter(p).contains(
            s[i],
        ) by {
            if i < t.len() {
                assert(t[i] == s[i]);
                let k = choose|k: int| 0 <= k < t.filter(p).len() && t.filter(p)[k] == s[i];
                assert(s.filter(p)[k] == s[i]);
            } else {
                assert(s.filter(p).last() == s[i]);
            }
        }
        assert forall|i: int| 0 <= i < s.filter(p).len() implies s.contains(
            #[trigger] s.filter(p)[i],
        ) by {
            if i < t.filter(p).len() {
                assert(t.contains(t.filter(p)[i]));
                let k = choose|k: int| 0 <= k < t.len() && t[k] == t.filter(p)[i];
                assert(s[k] == s.filter(p)[i]);
            } else {
                assert(s[s.len() - 1] == s.filter(p)[i]);
            }
        }
    }
}

/// A filter that every item satisfies changes nothing.
pub proof fn lemma_filter_id<A>(s: Seq<A>, p: spec_fn(A) -> bool)
    requires
        forall|i: int| 0 <= i < s.len() ==> p(#[trigger] s[i]),
    ensures
        s.filter(p) == s,
    decreases s.len(),
{
    reveal(Seq::filter);
    if s.len() > 0 {
        let t = s.drop_last();
        assert forall|i: int| 0 <= i < t.len() implies p(#[trigger] t[i]) by {
            assert(t[i] == s[i]);
        }
        lemma_filter_id(t, p);
        assert(p(s[s.len() - 1]));
        assert(s =~= t.push(s.last()));
    }
}

/// The items of a list of lists, in order.
pub open spec fn joined<A>(parts: Seq<Seq<A>>) -> Seq<A>
    decreases parts.len(),
{
    if parts.len() == 0 {
        Seq::empty()
    } else {
        joined(parts.drop_last()) + parts.last()
    }
}

/// One more part under `joined`.
pub proof fn lemma_joined_push<A>(parts: Seq<Seq<A>>, part: Seq<A>)
    ensures
        joined(parts.push(part)) == joined(parts) + part,
{
    assert(parts.push(part).drop_last() =~= parts);
}

/// Where the members of a filtered list stand in the whole, in order.
pub proof fn lemma_filter_places<A>(s: Seq<A>, p: spec_fn(A) -> bool) -> (places: Seq<int>)
    ensures
        places.len() == s.filter(p).len(),
        forall|k: int|
            0 <= k < places.len() ==> 0 <= #[trigger] places[k] < s.len() && s[places[k]]
                == s.filter(p)[k] && p(s[places[k]]),
        forall|j: int, k: int|
            0 <= j < k < places.len() ==> #[trigger] places[j] < #[trigger] places[k],
        forall|i: int| 0 <= i < s.len() && p(#[trigger] s[i]) ==> places.contains(i),
    decreases s.len(),
{
    reveal(Seq::filter);
    if s.len() == 0 {
        Seq::empty()
    } else {
        let t = s.drop_last();
        let below = lemma_filter_places(t, p);
        let last = s.len() - 1;
        if p(s[last]) {
            let places = below.push(last);
            assert forall|k: int| 0 <= k < places.len() implies 0 <= #[trigger] places[k] < s.len()
                && s[places[k]] == s.filter(p)[k] && p(s[places[k]]) by {
                if k < below.len() {
                    assert(places[k] == below[k]);
                    assert(t[below[k]] == s[below[k]]);
                }
            }
            assert forall|i: int| 0 <= i < s.len() && p(#[trigger] s[i]) implies places.contains(
                i,
            ) by {
                if i < last {
                    assert(t[i] == s[i]);
                    let k = choose|k: int| 0 <= k < below.len() && below[k] == i;
                    assert(places[k] == i);
                } else {
                    assert(places[below.len() as int] == i);
                }
            }
            places
        } else {
            assert forall|i: int| 0 <= i < s.len() && p(#[trigger] s[i]) implies below.contains(
                i,
            ) by {
                assert(t[i] == s[i]);
            }
            below
        }
    }
}

/// What is joined holds every member of every part.
pub proof fn lemma_joined_holds<A>(parts: Seq<Seq<A>>, k: int, i: int) -> (l: int)
    requires
        0 <= k < parts.len(),
        0 <= i < parts[k].len(),
    ensures
        0 <= l < joined(parts).len(),
        joined(parts)[l] == parts[k][i],
    decreases parts.len(),
{
    let rest = parts.drop_last();
    let below = joined(rest);
    if k < rest.len() {
        assert(rest[k] == parts[k]);
        let l = lemma_joined_holds(rest, k, i);
        assert(joined(parts)[l] == below[l]);
        l
    } else {
        let l = below.len() + i;
        assert(joined(parts)[l] == parts[k][i]);
        l
    }
}

/// What two lists together are filtered to is what the one is filtered to, and
/// then the other.
pub proof fn lemma_filter_both<A>(a: Seq<A>, b: Seq<A>, p: spec_fn(A) -> bool)
    ensures
        (a + b).filter(p) == a.filter(p) + b.filter(p),
    decreases b.len(),
{
    reveal(Seq::filter);
    if b.len() == 0 {
        assert(a + b =~= a);
        assert((a + b).filter(p) =~= a.filter(p) + b.filter(p));
    } else {
        let rest = b.drop_last();
        lemma_filter_both(a, rest, p);
        assert((a + b).drop_last() =~= a + rest);
        assert((a + b).last() == b.last());
        assert((a + b).filter(p) =~= a.filter(p) + b.filter(p));
    }
}

} // verus!
