//! Stable sorting, and removing duplicates from what was sorted.

use crate::text::{order_text, text_order, views, Order};
use vstd::prelude::*;

verus! {

/// A type with an order to sort by.
pub trait Ranked: View + Sized {
    /// Whether `a` may stand before `b`.
    spec fn at_most(a: Self::V, b: Self::V) -> bool;

    fn ranks_at_most(&self, other: &Self) -> (yes: bool)
        ensures
            yes == Self::at_most(self@, other@),
    ;
}

/// The order of a type, as a function.
pub open spec fn rank<T: Ranked>() -> spec_fn(T::V, T::V) -> bool {
    |a: T::V, b: T::V| T::at_most(a, b)
}

/// `s` with `x` behind the last element that may stand before it.
pub open spec fn placed<A>(s: Seq<A>, x: A, le: spec_fn(A, A) -> bool) -> Seq<A>
    decreases s.len(),
{
    if s.len() == 0 || le(s.last(), x) {
        s.push(x)
    } else {
        placed(s.drop_last(), x, le).push(s.last())
    }
}

/// The elements in ascending order, equal ones in the order they came in.
pub open spec fn sorted<A>(s: Seq<A>, le: spec_fn(A, A) -> bool) -> Seq<A>
    decreases s.len(),
{
    if s.len() == 0 {
        s
    } else {
        placed(sorted(s.drop_last(), le), s.last(), le)
    }
}

/// `s` without the elements that repeat the one before them.
pub open spec fn distinct<A>(s: Seq<A>) -> Seq<A>
    decreases s.len(),
{
    if s.len() < 2 {
        s
    } else if s[s.len() - 2] == s.last() {
        distinct(s.drop_last())
    } else {
        distinct(s.drop_last()).push(s.last())
    }
}

fn place<T: Ranked>(v: &mut Vec<T>, x: T)
    ensures
        views(final(v)@) == placed(views(old(v)@), x@, rank::<T>()),
{
    let mut p: usize = v.len();
    let ghost s = views(v@);
    let ghost le = rank::<T>();
    assert(s.take(p as int) =~= s);
    assert(placed(s, x@, le) =~= placed(s.take(p as int), x@, le) + s.skip(p as int));
    while p > 0 && !v[p - 1].ranks_at_most(&x)
        invariant
            p <= v.len(),
            v@ == old(v)@,
            s == views(v@),
            le == rank::<T>(),
            placed(s, x@, le) == placed(s.take(p as int), x@, le) + s.skip(p as int),
        decreases p,
    {
        let ghost t = s.take(p as int);
        assert(t.drop_last() =~= s.take(p - 1));
        assert(t.last() == s[p - 1]);
        assert(placed(t, x@, le) == placed(t.drop_last(), x@, le).push(t.last()));
        p -= 1;
        assert(placed(s, x@, le) =~= placed(s.take(p as int), x@, le) + s.skip(p as int));
    }
    let ghost t = s.take(p as int);
    assert(p > 0 ==> t.last() == v@[p - 1]@);
    assert(placed(t, x@, le) == t.push(x@));
    v.insert(p, x);
    assert(views(v@) =~= t.push(x@) + s.skip(p as int));
}

/// Sorts in ascending order, keeping equal elements in their order.
pub fn sort<T: Ranked>(v: Vec<T>) -> (r: Vec<T>)
    ensures
        views(r@) == sorted(views(v@), rank::<T>()),
        r@.len() == v@.len(),
{
    let ghost all = views(v@);
    let mut rest = v;
    let mut out: Vec<T> = Vec::new();
    assert(views(out@) =~= all.take(0));
    assert(all.skip(0) =~= all);
    let ghost mut n: int = 0;
    while rest.len() > 0
        invariant
            0 <= n <= all.len(),
            views(rest@) == all.skip(n),
            views(out@) == sorted(all.take(n), rank::<T>()),
        decreases rest.len(),
    {
        let ghost before = rest@;
        assert(views(before).len() == before.len());
        let x = rest.remove(0);
        assert(x@ == all.skip(n)[0]);
        proof {
            assert forall|i: int| 0 <= i < rest@.len() implies views(rest@)[i] == all.skip(
                n + 1,
            )[i] by {
                assert(rest@[i] == before[i + 1]);
                assert(views(before)[i + 1] == all.skip(n)[i + 1]);
            }
            assert(views(rest@) =~= all.skip(n + 1));
            assert(all.take(n + 1).drop_last() =~= all.take(n));
            assert(all.take(n + 1).last() == all[n]);
        }
        place(&mut out, x);
        proof {
            n = n + 1;
        }
    }
    proof {
        assert(views(rest@).len() == 0);
        assert(n == all.len());
        assert(all.take(n) =~= all);
        lemma_sorted_len(all, rank::<T>());
        assert(views(out@).len() == out@.len());
    }
    out
}

/// Whether one text may stand before another.
pub open spec fn text_at_most(a: Seq<char>, b: Seq<char>) -> bool {
    text_order(a, b) != Order::Greater
}

impl Ranked for String {
    open spec fn at_most(a: Seq<char>, b: Seq<char>) -> bool {
        text_at_most(a, b)
    }

    fn ranks_at_most(&self, other: &Self) -> (yes: bool) {
        match order_text(self.as_str(), other.as_str()) {
            Order::Greater => false,
            _ => true,
        }
    }
}

/// The texts in ascending order, each one once.
pub open spec fn text_set(s: Seq<Seq<char>>) -> Seq<Seq<char>> {
    distinct(sorted(s, rank::<String>()))
}

/// A type whose values can be told apart.
pub trait Same: View + Sized {
    fn is_same(&self, other: &Self) -> (yes: bool)
        ensures
            yes == (self@ == other@),
    ;
}

impl Same for String {
    fn is_same(&self, other: &Self) -> (yes: bool) {
        *self == *other
    }
}

/// Removes the elements that repeat the one before them.
pub fn dedup<T: Same>(v: Vec<T>) -> (r: Vec<T>)
    ensures
        views(r@) == distinct(views(v@)),
{
    let ghost all = views(v@);
    let mut rest = v;
    let mut out: Vec<T> = Vec::new();
    let ghost mut n: int = 0;
    assert(views(out@) =~= distinct(all.take(0)));
    assert(all.skip(0) =~= all);
    while rest.len() > 0
        invariant
            0 <= n <= all.len(),
            views(rest@) == all.skip(n),
            views(out@) == distinct(all.take(n)),
            n == 0 ==> out@.len() == 0,
            n > 0 ==> out@.len() > 0 && out@.last()@ == all[n - 1],
        decreases rest.len(),
    {
        let ghost before = rest@;
        assert(views(before).len() == before.len());
        let x = rest.remove(0);
        let ghost kept = out@;
        assert(x@ == all.skip(n)[0]);
        proof {
            assert forall|i: int| 0 <= i < rest@.len() implies views(rest@)[i] == all.skip(
                n + 1,
            )[i] by {
                assert(rest@[i] == before[i + 1]);
                assert(views(before)[i + 1] == all.skip(n)[i + 1]);
            }
            assert(views(rest@) =~= all.skip(n + 1));
            let t = all.take(n + 1);
            assert(t.drop_last() =~= all.take(n));
            assert(t.last() == x@);
            assert(n > 0 ==> t[n - 1] == all[n - 1]);
            if n == 0 {
                assert(distinct(t) =~= seq![x@]);
            }
        }
        let m: usize = out.len();
        if m == 0 || !out[m - 1].is_same(&x) {
            let ghost seen = x@;
            out.push(x);
            assert(views(out@) =~= views(kept).push(seen));
        }
        proof {
            n = n + 1;
        }
    }
    proof {
        assert(views(rest@).len() == 0);
        assert(all.take(n) =~= all);
    }
    out
}

/// Sorts strings and removes duplicates.
pub fn sort_dedup(v: Vec<String>) -> (r: Vec<String>)
    ensures
        views(r@) == text_set(views(v@)),
{
    dedup(sort(v))
}

// ---------------------------------------------------------------- lemmas ----

pub proof fn lemma_placed_len<A>(s: Seq<A>, x: A, le: spec_fn(A, A) -> bool)
    ensures
        placed(s, x, le).len() == s.len() + 1,
    decreases s.len(),
{
    if s.len() > 0 && !le(s.last(), x) {
        lemma_placed_len(s.drop_last(), x, le);
    }
}

/// Sorting keeps the number of elements.
pub proof fn lemma_sorted_len<A>(s: Seq<A>, le: spec_fn(A, A) -> bool)
    ensures
        sorted(s, le).len() == s.len(),
    decreases s.len(),
{
    if s.len() > 0 {
        lemma_sorted_len(s.drop_last(), le);
        lemma_placed_len(sorted(s.drop_last(), le), s.last(), le);
    }
}

proof fn lemma_placed_multiset<A>(s: Seq<A>, x: A, le: spec_fn(A, A) -> bool)
    ensures
        placed(s, x, le).to_multiset() == s.to_multiset().insert(x),
    decreases s.len(),
{
    broadcast use vstd::seq_lib::to_multiset_build;

    if s.len() > 0 && !le(s.last(), x) {
        let t = s.drop_last();
        lemma_placed_multiset(t, x, le);
        assert(s =~= t.push(s.last()));
        assert(placed(s, x, le).to_multiset() =~= s.to_multiset().insert(x));
    }
}

/// Sorting loses nothing, adds nothing and repeats nothing.
pub proof fn lemma_sorted_same_elements<A>(s: Seq<A>, le: spec_fn(A, A) -> bool)
    ensures
        sorted(s, le).to_multiset() == s.to_multiset(),
    decreases s.len(),
{
    broadcast use vstd::seq_lib::to_multiset_build;

    if s.len() > 0 {
        let t = s.drop_last();
        lemma_sorted_same_elements(t, le);
        lemma_placed_multiset(sorted(t, le), s.last(), le);
        assert(s =~= t.push(s.last()));
    }
}

/// Whether each element may stand before every later one.
pub open spec fn ascending<A>(s: Seq<A>, le: spec_fn(A, A) -> bool) -> bool {
    forall|i: int, j: int| 0 <= i < j < s.len() ==> le(#[trigger] s[i], #[trigger] s[j])
}

/// An order that decides every pair and chains.
pub open spec fn is_total_preorder<A>(le: spec_fn(A, A) -> bool) -> bool {
    &&& forall|a: A, b: A| #[trigger] le(a, b) || le(b, a)
    &&& forall|a: A, b: A, c: A| #[trigger] le(a, b) && #[trigger] le(b, c) ==> le(a, c)
}

/// Whether every element may stand before `y`.
spec fn below<A>(s: Seq<A>, y: A, le: spec_fn(A, A) -> bool) -> bool {
    forall|i: int| 0 <= i < s.len() ==> le(#[trigger] s[i], y)
}

proof fn lemma_placed_below<A>(s: Seq<A>, x: A, y: A, le: spec_fn(A, A) -> bool)
    requires
        below(s, y, le),
        le(x, y),
    ensures
        below(placed(s, x, le), y, le),
    decreases s.len(),
{
    if s.len() > 0 && !le(s.last(), x) {
        let t = s.drop_last();
        assert forall|i: int| 0 <= i < t.len() implies le(#[trigger] t[i], y) by {
            assert(le(s[i], y));
        }
        lemma_placed_below(t, x, y, le);
        let q = placed(t, x, le);
        assert forall|i: int| 0 <= i < q.push(s.last()).len() implies le(
            #[trigger] q.push(s.last())[i],
            y,
        ) by {
            if i < q.len() {
                assert(le(q[i], y));
            } else {
                assert(le(s[s.len() - 1], y));
            }
        }
    }
}

proof fn lemma_placed_ascending<A>(s: Seq<A>, x: A, le: spec_fn(A, A) -> bool)
    requires
        is_total_preorder(le),
        ascending(s, le),
    ensures
        ascending(placed(s, x, le), le),
    decreases s.len(),
{
    let p = placed(s, x, le);
    if s.len() == 0 {
    } else if le(s.last(), x) {
        assert forall|i: int, j: int| 0 <= i < j < p.len() implies le(
            #[trigger] p[i],
            #[trigger] p[j],
        ) by {
            if j == s.len() {
                if i < s.len() - 1 {
                    assert(le(s[i], s[s.len() - 1]));
                }
            }
        }
    } else {
        let t = s.drop_last();
        assert forall|i: int, j: int| 0 <= i < j < t.len() implies le(
            #[trigger] t[i],
            #[trigger] t[j],
        ) by {
            assert(le(s[i], s[j]));
        }
        lemma_placed_ascending(t, x, le);
        let q = placed(t, x, le);
        let y = s.last();
        assert(le(s.last(), x) || le(x, s.last()));
        assert forall|i: int| 0 <= i < t.len() implies le(#[trigger] t[i], y) by {
            assert(le(s[i], s[s.len() - 1]));
        }
        lemma_placed_below(t, x, y, le);
        assert forall|i: int, j: int| 0 <= i < j < p.len() implies le(
            #[trigger] p[i],
            #[trigger] p[j],
        ) by {
            if j < q.len() {
                assert(le(q[i], q[j]));
            } else {
                assert(le(q[i], y));
            }
        }
    }
}

/// What was sorted by a total order is in ascending order.
pub proof fn lemma_sorted_ascending<A>(s: Seq<A>, le: spec_fn(A, A) -> bool)
    requires
        is_total_preorder(le),
    ensures
        ascending(sorted(s, le), le),
    decreases s.len(),
{
    if s.len() > 0 {
        lemma_sorted_ascending(s.drop_last(), le);
        lemma_placed_ascending(sorted(s.drop_last(), le), s.last(), le);
    }
}

/// Texts are totally ordered.
pub proof fn lemma_text_order_total()
    ensures
        is_total_preorder(rank::<String>()),
{
    let le = rank::<String>();
    assert forall|a: Seq<char>, b: Seq<char>| #[trigger] le(a, b) || le(b, a) by {
        crate::text::lemma_text_order_flip(a, b);
    }
    assert forall|a: Seq<char>, b: Seq<char>, c: Seq<char>| #[trigger]
        le(a, b) && #[trigger] le(b, c) implies le(a, c) by {
        crate::text::lemma_text_order_transitive(a, b, c);
    }
}

/// What is sorted holds exactly what was there.
pub proof fn lemma_sorted_contains<A>(s: Seq<A>, le: spec_fn(A, A) -> bool, x: A)
    ensures
        sorted(s, le).contains(x) <==> s.contains(x),
{
    broadcast use vstd::seq_lib::to_multiset_contains;

    lemma_sorted_same_elements(s, le);
    assert(sorted(s, le).to_multiset().count(x) == s.to_multiset().count(x));
}

/// Removing repetitions loses no value.
pub proof fn lemma_distinct_contains<A>(s: Seq<A>, x: A)
    ensures
        distinct(s).contains(x) <==> s.contains(x),
    decreases s.len(),
{
    if s.len() >= 2 {
        let t = s.drop_last();
        lemma_distinct_contains(t, x);
        assert(s =~= t.push(s.last()));
        if s.contains(x) {
            let i = choose|i: int| 0 <= i < s.len() && s[i] == x;
            if i == s.len() - 1 && s[s.len() - 2] == s.last() {
                assert(t[s.len() - 2] == x);
                assert(t.contains(x));
            } else if i < s.len() - 1 {
                assert(t[i] == x);
                assert(t.contains(x));
                let j = choose|j: int| 0 <= j < distinct(t).len() && distinct(t)[j] == x;
                if s[s.len() - 2] != s.last() {
                    assert(distinct(s)[j] == x);
                }
            } else {
                assert(distinct(s).last() == x);
                assert(distinct(s)[distinct(s).len() - 1] == x);
            }
        }
        if distinct(s).contains(x) {
            let j = choose|j: int| 0 <= j < distinct(s).len() && distinct(s)[j] == x;
            if s[s.len() - 2] == s.last() {
                assert(distinct(t).contains(x));
            } else if j < distinct(t).len() {
                assert(distinct(t)[j] == x);
                assert(distinct(t).contains(x));
            } else {
                assert(s[s.len() - 1] == x);
            }
            if t.contains(x) {
                let i = choose|i: int| 0 <= i < t.len() && t[i] == x;
                assert(s[i] == x);
            }
        }
    }
}

/// A set of texts holds exactly the texts that were there.
pub proof fn lemma_text_set_contains(s: Seq<Seq<char>>, x: Seq<char>)
    ensures
        text_set(s).contains(x) <==> s.contains(x),
{
    lemma_sorted_contains(s, rank::<String>(), x);
    lemma_distinct_contains(sorted(s, rank::<String>()), x);
}

/// Sorting commutes with a map that keeps the order.
pub proof fn lemma_sorted_map<A, B>(
    s: Seq<A>,
    f: spec_fn(A) -> B,
    le: spec_fn(A, A) -> bool,
    le2: spec_fn(B, B) -> bool,
)
    requires
        forall|a: A, b: A| #[trigger] le(a, b) == le2(f(a), f(b)),
    ensures
        sorted(s.map_values(f), le2) == sorted(s, le).map_values(f),
    decreases s.len(),
{
    let t = s.map_values(f);
    if s.len() > 0 {
        assert(t.drop_last() =~= s.drop_last().map_values(f));
        lemma_sorted_map(s.drop_last(), f, le, le2);
        lemma_placed_map(sorted(s.drop_last(), le), s.last(), f, le, le2);
    } else {
        assert(t =~= s.map_values(f));
    }
}

proof fn lemma_placed_map<A, B>(
    s: Seq<A>,
    x: A,
    f: spec_fn(A) -> B,
    le: spec_fn(A, A) -> bool,
    le2: spec_fn(B, B) -> bool,
)
    requires
        forall|a: A, b: A| #[trigger] le(a, b) == le2(f(a), f(b)),
    ensures
        placed(s.map_values(f), f(x), le2) == placed(s, x, le).map_values(f),
    decreases s.len(),
{
    let t = s.map_values(f);
    if s.len() == 0 || le(s.last(), x) {
        assert(t.push(f(x)) =~= s.push(x).map_values(f));
        if s.len() > 0 {
            assert(t.last() == f(s.last()));
        }
    } else {
        assert(t.drop_last() =~= s.drop_last().map_values(f));
        lemma_placed_map(s.drop_last(), x, f, le, le2);
        assert(t.last() == f(s.last()));
        assert(placed(s.drop_last(), x, le).map_values(f).push(f(s.last())) =~= placed(
            s.drop_last(),
            x,
            le,
        ).push(s.last()).map_values(f));
    }
}

} // verus!
