//! Collecting what a function makes of each element.

use crate::text::{viewed, views};
use vstd::prelude::*;

verus! {

/// What `f` keeps of each element.
pub fn pick<T: View, U: View, F: Fn(&T) -> Option<U>>(
    v: &Vec<T>,
    f: F,
    Ghost(rule): Ghost<spec_fn(T::V) -> Option<U::V>>,
) -> (r: Vec<U>)
    requires
        forall|x: &T| #[trigger] f.requires((x,)),
        forall|x: &T, o: Option<U>| #[trigger] f.ensures((x,), o) ==> viewed(o) == rule(x@),
    ensures
        views(r@) == views(v@).filter_map(rule),
{
    let ghost all = views(v@);
    let mut out: Vec<U> = Vec::new();
    let mut i: usize = 0;
    assert(views(out@) =~= all.take(0).filter_map(rule));
    while i < v.len()
        invariant
            i <= v.len(),
            all == views(v@),
            views(out@) == all.take(i as int).filter_map(rule),
            forall|x: &T| #[trigger] f.requires((x,)),
            forall|x: &T, o: Option<U>| #[trigger] f.ensures((x,), o) ==> viewed(o) == rule(x@),
        decreases v.len() - i,
    {
        let got = f(&v[i]);
        proof {
            all.lemma_filter_map_take_succ(rule, i as int);
        }
        if let Some(x) = got {
            let ghost seen = x@;
            let ghost kept = out@;
            out.push(x);
            assert(views(out@) =~= views(kept) + seq![seen]);
        }
        i += 1;
    }
    assert(all.take(all.len() as int) =~= all);
    out
}

/// What `f` makes of each element, one after the other.
pub fn spread<T: View, U: View, F: Fn(&T) -> Vec<U>>(
    v: &Vec<T>,
    f: F,
    Ghost(rule): Ghost<spec_fn(T::V) -> Seq<U::V>>,
) -> (r: Vec<U>)
    requires
        forall|x: &T| #[trigger] f.requires((x,)),
        forall|x: &T, o: Vec<U>| #[trigger] f.ensures((x,), o) ==> views(o@) == rule(x@),
    ensures
        views(r@) == views(v@).flat_map(rule),
{
    let ghost all = views(v@);
    let mut out: Vec<U> = Vec::new();
    let mut i: usize = 0;
    assert(views(out@) =~= all.take(0).flat_map(rule)) by {
        assert(all.take(0).map_values(rule) =~= seq![]);
    }
    while i < v.len()
        invariant
            i <= v.len(),
            all == views(v@),
            views(out@) == all.take(i as int).flat_map(rule),
            forall|x: &T| #[trigger] f.requires((x,)),
            forall|x: &T, o: Vec<U>| #[trigger] f.ensures((x,), o) ==> views(o@) == rule(x@),
        decreases v.len() - i,
    {
        let mut got = f(&v[i]);
        let ghost seen = views(got@);
        let ghost part = got@;
        let ghost kept = out@;
        proof {
            all.lemma_flat_map_take_append(rule, i as int);
        }
        out.append(&mut got);
        assert(out@ =~= kept + part);
        assert(views(out@) =~= views(kept) + seen);
        i += 1;
    }
    assert(all.take(all.len() as int) =~= all);
    out
}

/// Puts the elements of `b` behind those of `a`.
pub fn concat<T: View>(a: Vec<T>, b: Vec<T>) -> (r: Vec<T>)
    ensures
        views(r@) == views(a@) + views(b@),
{
    let mut a = a;
    let mut b = b;
    let ghost x = a@;
    let ghost y = b@;
    a.append(&mut b);
    assert(a@ =~= x + y);
    assert(views(a@) =~= views(x) + views(y));
    a
}

/// Puts one element behind those of `a`, if there is one.
pub fn concat_some<T: View>(a: Vec<T>, b: Option<T>) -> (r: Vec<T>)
    ensures
        views(r@) == views(a@) + some_of(viewed(b)),
{
    let mut a = a;
    let ghost x = a@;
    if let Some(y) = b {
        let ghost seen = y@;
        a.push(y);
        assert(views(a@) =~= views(x) + seq![seen]);
    } else {
        assert(views(a@) =~= views(x) + seq![]);
    }
    a
}

/// An optional element as a sequence.
pub open spec fn some_of<A>(o: Option<A>) -> Seq<A> {
    match o {
        Some(x) => seq![x],
        None => seq![],
    }
}

/// What a function keeps of everything, it keeps in place.
pub proof fn lemma_filter_map_total<A, B>(s: Seq<A>, f: spec_fn(A) -> Option<B>)
    requires
        forall|x: A| (#[trigger] f(x)) is Some,
    ensures
        s.filter_map(f).len() == s.len(),
        forall|i: int| 0 <= i < s.len() ==> (#[trigger] s.filter_map(f)[i]) == f(s[i])->0,
    decreases s.len(),
{
    if s.len() > 0 {
        let t = s.drop_last();
        lemma_filter_map_total(t, f);
        assert forall|i: int| 0 <= i < s.len() implies (#[trigger] s.filter_map(f)[i])
            == f(s[i])->0 by {
            if i < t.len() {
                assert(s.filter_map(f)[i] == t.filter_map(f)[i]);
                assert(t[i] == s[i]);
            }
        }
    }
}

/// What a function keeps of an element is kept.
pub proof fn lemma_filter_map_keeps<A, B>(s: Seq<A>, f: spec_fn(A) -> Option<B>, i: int)
    requires
        0 <= i < s.len(),
        f(s[i]) is Some,
    ensures
        s.filter_map(f).contains(f(s[i])->0),
    decreases s.len(),
{
    let t = s.drop_last();
    if i < t.len() {
        lemma_filter_map_keeps(t, f, i);
        let j = choose|j: int| 0 <= j < t.filter_map(f).len() && t.filter_map(f)[j] == f(s[i])->0;
        assert(s.filter_map(f)[j] == f(s[i])->0);
    } else {
        let n = t.filter_map(f).len();
        assert(s.filter_map(f)[n as int] == f(s[i])->0);
    }
}

/// What holds of everything that a function keeps holds of what is kept.
pub proof fn lemma_filter_map_all<A, B>(
    s: Seq<A>,
    f: spec_fn(A) -> Option<B>,
    p: spec_fn(B) -> bool,
)
    requires
        forall|x: A| (#[trigger] f(x)) is Some ==> p(f(x)->0),
    ensures
        forall|i: int| 0 <= i < s.filter_map(f).len() ==> p(#[trigger] s.filter_map(f)[i]),
    decreases s.len(),
{
    if s.len() > 0 {
        lemma_filter_map_all(s.drop_last(), f, p);
        let rest = s.drop_last().filter_map(f);
        assert forall|i: int| 0 <= i < s.filter_map(f).len() implies p(
            #[trigger] s.filter_map(f)[i],
        ) by {
            if i < rest.len() {
                assert(s.filter_map(f)[i] == rest[i]);
            } else {
                assert(s.filter_map(f)[i] == f(s.last())->0);
            }
        }
    }
}

/// What holds of everything that a function makes holds of all of it together.
pub proof fn lemma_flat_map_all<A, B>(s: Seq<A>, f: spec_fn(A) -> Seq<B>, p: spec_fn(B) -> bool)
    requires
        forall|x: A, i: int| 0 <= i < f(x).len() ==> p(#[trigger] f(x)[i]),
    ensures
        forall|i: int| 0 <= i < s.flat_map(f).len() ==> p(#[trigger] s.flat_map(f)[i]),
    decreases s.len(),
{
    if s.len() == 0 {
        assert(s.map_values(f) =~= seq![]);
    } else {
        let t = s.drop_last();
        lemma_flat_map_all(t, f, p);
        assert(t.push(s.last()) =~= s);
        t.lemma_flat_map_push(f, s.last());
        let rest = t.flat_map(f);
        assert forall|i: int| 0 <= i < s.flat_map(f).len() implies p(
            #[trigger] s.flat_map(f)[i],
        ) by {
            if i < rest.len() {
                assert(s.flat_map(f)[i] == rest[i]);
            } else {
                assert(s.flat_map(f)[i] == f(s.last())[i - rest.len()]);
            }
        }
    }
}

/// What a function makes of an element is there.
pub proof fn lemma_flat_map_keeps<A, B>(s: Seq<A>, f: spec_fn(A) -> Seq<B>, i: int, x: B)
    requires
        0 <= i < s.len(),
        f(s[i]).contains(x),
    ensures
        s.flat_map(f).contains(x),
    decreases s.len(),
{
    let t = s.drop_last();
    assert(t.push(s.last()) =~= s);
    t.lemma_flat_map_push(f, s.last());
    let rest = t.flat_map(f);
    if i < t.len() {
        lemma_flat_map_keeps(t, f, i, x);
        let j = choose|j: int| 0 <= j < rest.len() && rest[j] == x;
        assert(s.flat_map(f)[j] == x);
    } else {
        let made = f(s.last());
        let j = choose|j: int| 0 <= j < made.len() && made[j] == x;
        assert(s.flat_map(f)[rest.len() + j] == x);
    }
}

} // verus!
