//! The mathematical model of reduction: domains are `Seq<Seq<V>>`, indexed
//! like the problem's keys, and constraints are `Constraint<R>` over indices.
use vstd::prelude::*;

use crate::problem::Constraint;
use crate::relation::Relation;

verus! {

/// Some value of `dy` stands in `rel` with `v`.
pub open spec fn supported<V, R: Relation<V>>(rel: R, v: V, dy: Seq<V>) -> bool {
    exists|j: int| 0 <= j < dy.len() && rel.spec_holds(v, #[trigger] dy[j])
}

/// The values of `dx` that have a support in `dy`, in the order of `dx`.
pub open spec fn revise<V, R: Relation<V>>(rel: R, dx: Seq<V>, dy: Seq<V>) -> Seq<V> {
    dx.filter(|v: V| supported(rel, v, dy))
}

/// Every constraint names variables below `n`.
pub open spec fn cons_in_range<R>(cons: Seq<Constraint<R>>, n: nat) -> bool {
    forall|i: int|
        0 <= i < cons.len() ==> (#[trigger] cons[i]).x < n && cons[i].y < n
}

/// Revising the domain of `c.x` against `c.y`; `None` where it would empty.
pub open spec fn step<V, R: Relation<V>>(doms: Seq<Seq<V>>, c: Constraint<R>) -> Option<
    Seq<Seq<V>>,
> {
    let nd = revise(c.rel, doms[c.x as int], doms[c.y as int]);
    if nd.len() == 0 {
        None
    } else {
        Some(doms.update(c.x as int, nd))
    }
}

/// The first `i` constraints applied in order, stopping at the first that
/// empties a domain.
pub open spec fn sweep<V, R: Relation<V>>(
    doms: Seq<Seq<V>>,
    cons: Seq<Constraint<R>>,
    i: nat,
) -> Option<Seq<Seq<V>>>
    decreases i,
{
    if i == 0 {
        Some(doms)
    } else {
        match sweep(doms, cons, (i - 1) as nat) {
            None => None,
            Some(d) => step(d, cons[i - 1]),
        }
    }
}

/// The number of options over all domains.
pub open spec fn total<V>(doms: Seq<Seq<V>>) -> nat
    decreases doms.len(),
{
    if doms.len() == 0 {
        0
    } else {
        total(doms.drop_last()) + doms.last().len()
    }
}

/// Full sweeps repeated until one removes nothing: the reduced domains, or
/// `None` where some domain would become empty.
pub open spec fn fixpoint<V, R: Relation<V>>(doms: Seq<Seq<V>>, cons: Seq<Constraint<R>>) -> Option<
    Seq<Seq<V>>,
>
    decreases total(doms),
{
    match sweep(doms, cons, cons.len()) {
        None => None,
        Some(d) => if total(d) < total(doms) {
            fixpoint(d, cons)
        } else {
            Some(d)
        },
    }
}

/// `b` arises from `a` by removing options: no domain grows or gains a value.
pub open spec fn shrunk<V>(a: Seq<Seq<V>>, b: Seq<Seq<V>>) -> bool {
    &&& b.len() == a.len()
    &&& forall|k: int| 0 <= k < a.len() ==> #[trigger] b[k].len() <= a[k].len()
    &&& forall|k: int, v: V| 0 <= k < a.len() && #[trigger] b[k].contains(v) ==> a[k].contains(v)
}

/// The assignment `a` satisfies every constraint.
pub open spec fn satisfies<V, R: Relation<V>>(a: Seq<V>, cons: Seq<Constraint<R>>) -> bool {
    forall|i: int|
        0 <= i < cons.len() ==> (#[trigger] cons[i]).rel.spec_holds(
            a[cons[i].x as int],
            a[cons[i].y as int],
        )
}

/// The assignment `a` takes each variable to one of its options.
pub open spec fn within<V>(a: Seq<V>, doms: Seq<Seq<V>>) -> bool {
    &&& a.len() == doms.len()
    &&& forall|k: int| 0 <= k < a.len() ==> #[trigger] doms[k].contains(a[k])
}

/// A solution of the problem with domains `doms` and constraints `cons`.
pub open spec fn is_solution<V, R: Relation<V>>(
    a: Seq<V>,
    doms: Seq<Seq<V>>,
    cons: Seq<Constraint<R>>,
) -> bool {
    within(a, doms) && satisfies(a, cons)
}

/// Each variable's domain holds the one value that `a` gives it.
pub open spec fn singletons<V>(a: Seq<V>) -> Seq<Seq<V>> {
    a.map_values(|v: V| seq![v])
}

/// The first option of each domain.
pub open spec fn firsts<V>(doms: Seq<Seq<V>>) -> Seq<V> {
    doms.map_values(|d: Seq<V>| d[0])
}

proof fn lemma_filter_shrinks<V>(s: Seq<V>, p: spec_fn(V) -> bool)
    ensures
        s.filter(p).len() <= s.len(),
        s.filter(p).len() == s.len() ==> s.filter(p) == s,
        forall|v: V| #[trigger] s.filter(p).contains(v) ==> s.contains(v) && p(v),
        forall|v: V| s.contains(v) && p(v) ==> #[trigger] s.filter(p).contains(v),
    decreases s.len(),
{
    broadcast use vstd::seq_lib::group_filter_ensures;
    broadcast use vstd::seq::Seq::lemma_filter_contains_rev;

    reveal(Seq::filter);
    if s.len() > 0 {
        lemma_filter_shrinks(s.drop_last(), p);
        if s.filter(p).len() == s.len() {
            assert(s.drop_last().push(s.last()) =~= s);
        }
    }
    assert forall|v: V| #[trigger] s.filter(p).contains(v) implies s.contains(v) && p(v) by {
        let i = choose|i: int| 0 <= i < s.filter(p).len() && s.filter(p)[i] == v;
        assert(p(s.filter(p)[i]));
    }
    assert forall|v: V| s.contains(v) && p(v) implies #[trigger] s.filter(p).contains(v) by {
        let i = choose|i: int| 0 <= i < s.len() && s[i] == v;
        assert(p(s[i]));
    }
}

pub(crate) proof fn lemma_total_le<V>(a: Seq<Seq<V>>, b: Seq<Seq<V>>)
    requires
        b.len() == a.len(),
        forall|k: int| 0 <= k < a.len() ==> #[trigger] b[k].len() <= a[k].len(),
    ensures
        total(b) <= total(a),
        total(b) == total(a) ==> forall|k: int| 0 <= k < a.len() ==> #[trigger] b[k].len() == a[k].len(),
    decreases a.len(),
{
    if a.len() > 0 {
        let (a2, b2) = (a.drop_last(), b.drop_last());
        assert forall|k: int| 0 <= k < a2.len() implies #[trigger] b2[k].len() <= a2[k].len() by {
            assert(b[k].len() <= a[k].len());
        }
        lemma_total_le(a2, b2);
        assert(b.last().len() <= a.last().len());
        if total(b) == total(a) {
            assert forall|k: int| 0 <= k < a.len() implies #[trigger] b[k].len() == a[k].len() by {
                if k < a.len() - 1 {
                    assert(b2[k].len() == a2[k].len());
                }
            }
        }
    }
}

pub(crate) proof fn lemma_shrunk_trans<V>(a: Seq<Seq<V>>, b: Seq<Seq<V>>, c: Seq<Seq<V>>)
    requires
        shrunk(a, b),
        shrunk(b, c),
    ensures
        shrunk(a, c),
{
    assert forall|k: int| 0 <= k < a.len() implies #[trigger] c[k].len() <= a[k].len() by {
        assert(c[k].len() <= b[k].len());
    }
    assert forall|k: int, v: V| 0 <= k < a.len() && #[trigger] c[k].contains(v) implies a[k].contains(v) by {
        assert(b[k].contains(v));
    }
}

/// One constraint only removes options of its first variable.
pub(crate) proof fn lemma_step_shrinks<V, R: Relation<V>>(d: Seq<Seq<V>>, c: Constraint<R>)
    requires
        c.x < d.len(),
        c.y < d.len(),
        step(d, c) is Some,
    ensures
        shrunk(d, step(d, c)->0),
        step(d, c)->0[c.x as int].len() == d[c.x as int].len() ==> step(d, c)->0 == d,
{
    let e = step(d, c)->0;
    let dx = d[c.x as int];
    lemma_filter_shrinks(dx, |v: V| supported(c.rel, v, d[c.y as int]));
    assert forall|k: int, v: V| 0 <= k < d.len() && #[trigger] e[k].contains(v) implies d[k].contains(v) by {
        if k != c.x {
            assert(e[k] == d[k]);
        }
    }
    if e[c.x as int].len() == dx.len() {
        assert(e =~= d);
    }
}

/// A sweep only removes options; where it keeps every length, it changes nothing.
pub proof fn lemma_sweep_shrinks<V, R: Relation<V>>(
    d: Seq<Seq<V>>,
    cons: Seq<Constraint<R>>,
    i: nat,
)
    requires
        cons_in_range(cons, d.len()),
        i <= cons.len(),
        sweep(d, cons, i) is Some,
    ensures
        shrunk(d, sweep(d, cons, i)->0),
        (forall|k: int| 0 <= k < d.len() ==> #[trigger] sweep(d, cons, i)->0[k].len() == d[k].len())
            ==> sweep(d, cons, i)->0 == d,
    decreases i,
{
    if i > 0 {
        let j = (i - 1) as nat;
        lemma_sweep_shrinks(d, cons, j);
        let g = sweep(d, cons, j)->0;
        let c = cons[j as int];
        assert(c.x < d.len() && c.y < d.len());
        lemma_step_shrinks(g, c);
        let e = sweep(d, cons, i)->0;
        lemma_shrunk_trans(d, g, e);
        if forall|k: int| 0 <= k < d.len() ==> #[trigger] e[k].len() == d[k].len() {
            assert forall|k: int| 0 <= k < d.len() implies #[trigger] g[k].len() == d[k].len() by {
                assert(e[k].len() <= g[k].len());
            }
            assert(e[c.x as int].len() == g[c.x as int].len());
        }
    }
}

/// Later sweeps are shrunk from earlier ones.
proof fn lemma_sweep_mono<V, R: Relation<V>>(d: Seq<Seq<V>>, cons: Seq<Constraint<R>>, i: nat, j: nat)
    requires
        cons_in_range(cons, d.len()),
        i <= j <= cons.len(),
        sweep(d, cons, j) is Some,
    ensures
        sweep(d, cons, i) is Some,
        shrunk(sweep(d, cons, i)->0, sweep(d, cons, j)->0),
    decreases j - i,
{
    if i < j {
        lemma_sweep_mono(d, cons, i, (j - 1) as nat);
        let g = sweep(d, cons, (j - 1) as nat)->0;
        lemma_sweep_shrinks(d, cons, (j - 1) as nat);
        let c = cons[j - 1];
        assert(c.x < d.len() && c.y < d.len());
        lemma_step_shrinks(g, c);
        lemma_shrunk_trans(sweep(d, cons, i)->0, g, sweep(d, cons, j)->0);
    } else {
        let e = sweep(d, cons, i)->0;
        assert(shrunk(e, e));
    }
}

/// A sweep that leaves the total size unchanged leaves the domains unchanged.
proof fn lemma_sweep_total<V, R: Relation<V>>(d: Seq<Seq<V>>, cons: Seq<Constraint<R>>)
    requires
        cons_in_range(cons, d.len()),
        sweep(d, cons, cons.len()) is Some,
    ensures
        shrunk(d, sweep(d, cons, cons.len())->0),
        total(sweep(d, cons, cons.len())->0) <= total(d),
        total(sweep(d, cons, cons.len())->0) == total(d) ==> sweep(d, cons, cons.len())->0 == d,
{
    lemma_sweep_shrinks(d, cons, cons.len());
    lemma_total_le(d, sweep(d, cons, cons.len())->0);
}

/// Reduction only removes options, and what it returns is stable under one
/// more sweep.
pub proof fn lemma_fixpoint_shrinks<V, R: Relation<V>>(d: Seq<Seq<V>>, cons: Seq<Constraint<R>>)
    requires
        cons_in_range(cons, d.len()),
        fixpoint(d, cons) is Some,
    ensures
        shrunk(d, fixpoint(d, cons)->0),
        sweep(fixpoint(d, cons)->0, cons, cons.len()) == fixpoint(d, cons),
    decreases total(d),
{
    lemma_sweep_total(d, cons);
    let e = sweep(d, cons, cons.len())->0;
    if total(e) < total(d) {
        lemma_fixpoint_shrinks(e, cons);
        lemma_shrunk_trans(d, e, fixpoint(e, cons)->0);
    }
}


/// Reducing twice: the second reduction finds nothing to remove.
pub proof fn lemma_reduce_idempotent<V, R: Relation<V>>(d: Seq<Seq<V>>, cons: Seq<Constraint<R>>)
    requires
        cons_in_range(cons, d.len()),
        fixpoint(d, cons) is Some,
    ensures
        fixpoint(fixpoint(d, cons)->0, cons) == fixpoint(d, cons),
{
    lemma_fixpoint_shrinks(d, cons);
}

/// Reduction is monotone: no domain grows and no value comes back.
pub proof fn lemma_reduce_monotone<V, R: Relation<V>>(d: Seq<Seq<V>>, cons: Seq<Constraint<R>>)
    requires
        cons_in_range(cons, d.len()),
        fixpoint(d, cons) is Some,
    ensures
        fixpoint(d, cons)->0.len() == d.len(),
        forall|k: int| 0 <= k < d.len() ==> #[trigger] fixpoint(d, cons)->0[k].len() <= d[k].len(),
        forall|k: int, v: V|
            0 <= k < d.len() && #[trigger] fixpoint(d, cons)->0[k].contains(v) ==> d[k].contains(v),
{
    lemma_fixpoint_shrinks(d, cons);
}

/// Domains that one sweep leaves as they are: every option of every
/// constrained variable has a support.
pub proof fn lemma_stable_supported<V, R: Relation<V>>(e: Seq<Seq<V>>, cons: Seq<Constraint<R>>, i: int)
    requires
        cons_in_range(cons, e.len()),
        sweep(e, cons, cons.len()) == Some(e),
        0 <= i < cons.len(),
    ensures
        revise(cons[i].rel, e[cons[i].x as int], e[cons[i].y as int]) == e[cons[i].x as int],
        e[cons[i].x as int].len() > 0,
{
    lemma_sweep_mono(e, cons, i as nat, cons.len());
    lemma_sweep_shrinks(e, cons, i as nat);
    let g = sweep(e, cons, i as nat)->0;
    assert forall|k: int| 0 <= k < e.len() implies #[trigger] g[k].len() == e[k].len() by {
        assert(e[k].len() <= g[k].len());
    }
    lemma_sweep_mono(e, cons, (i + 1) as nat, cons.len());
    let c = cons[i];
    assert(c.x < e.len() && c.y < e.len());
    lemma_step_shrinks(g, c);
    let h = sweep(e, cons, (i + 1) as nat)->0;
    assert(h[c.x as int].len() <= e[c.x as int].len());
    assert(h[c.x as int] == revise(c.rel, e[c.x as int], e[c.y as int]));
    lemma_filter_shrinks(e[c.x as int], |v: V| supported(c.rel, v, e[c.y as int]));
}

/// Stable domains that are all singletons hold a solution: their values.
pub proof fn lemma_stable_singletons_satisfy<V, R: Relation<V>>(
    e: Seq<Seq<V>>,
    cons: Seq<Constraint<R>>,
)
    requires
        cons_in_range(cons, e.len()),
        sweep(e, cons, cons.len()) == Some(e),
        forall|k: int| 0 <= k < e.len() ==> #[trigger] e[k].len() == 1,
    ensures
        satisfies(firsts(e), cons),
        within(firsts(e), e),
{
    let a = firsts(e);
    assert forall|i: int| 0 <= i < cons.len() implies (#[trigger] cons[i]).rel.spec_holds(
        a[cons[i].x as int],
        a[cons[i].y as int],
    ) by {
        let c = cons[i];
        assert(c.x < e.len() && c.y < e.len());
        lemma_stable_supported(e, cons, i);
        let dx = e[c.x as int];
        let dy = e[c.y as int];
        lemma_filter_shrinks(dx, |v: V| supported(c.rel, v, dy));
        assert(dx.contains(dx[0]));
        assert(supported(c.rel, dx[0], dy));
        let j = choose|j: int| 0 <= j < dy.len() && c.rel.spec_holds(dx[0], #[trigger] dy[j]);
        assert(j == 0);
    }
    assert forall|k: int| 0 <= k < a.len() implies #[trigger] e[k].contains(a[k]) by {
        assert(e[k][0] == a[k]);
    }
}

/// One constraint never removes the value that a solution gives.
proof fn lemma_step_keeps<V, R: Relation<V>>(
    d: Seq<Seq<V>>,
    cons: Seq<Constraint<R>>,
    c: Constraint<R>,
    a: Seq<V>,
)
    requires
        cons_in_range(cons, d.len()),
        cons.contains(c),
        within(a, d),
        satisfies(a, cons),
    ensures
        step(d, c) is Some,
        within(a, step(d, c)->0),
{
    let i = choose|i: int| 0 <= i < cons.len() && cons[i] == c;
    assert(c.x < d.len() && c.y < d.len());
    assert(c.rel.spec_holds(a[c.x as int], a[c.y as int]));
    let dx = d[c.x as int];
    let dy = d[c.y as int];
    assert(dy.contains(a[c.y as int]));
    assert(supported(c.rel, a[c.x as int], dy));
    assert(dx.contains(a[c.x as int]));
    lemma_filter_shrinks(dx, |v: V| supported(c.rel, v, dy));
    let nd = revise(c.rel, dx, dy);
    assert(nd.contains(a[c.x as int]));
    assert(nd.len() > 0);
    let e = step(d, c)->0;
    assert(e[c.x as int] == nd);
    assert forall|k: int| 0 <= k < a.len() implies #[trigger] e[k].contains(a[k]) by {
        if k != c.x {
            assert(d[k].contains(a[k]));
        }
    }
}

proof fn lemma_sweep_keeps<V, R: Relation<V>>(
    d: Seq<Seq<V>>,
    cons: Seq<Constraint<R>>,
    i: nat,
    a: Seq<V>,
)
    requires
        cons_in_range(cons, d.len()),
        i <= cons.len(),
        within(a, d),
        satisfies(a, cons),
    ensures
        sweep(d, cons, i) is Some,
        within(a, sweep(d, cons, i)->0),
    decreases i,
{
    if i > 0 {
        lemma_sweep_keeps(d, cons, (i - 1) as nat, a);
        lemma_sweep_shrinks(d, cons, (i - 1) as nat);
        let g = sweep(d, cons, (i - 1) as nat)->0;
        assert(cons.contains(cons[i - 1]));
        lemma_step_keeps(g, cons, cons[i - 1], a);
    }
}

/// Reduction never removes a solution: where domains admit one, reduction
/// succeeds and the reduced domains still admit it.
pub proof fn lemma_reduce_keeps_solution<V, R: Relation<V>>(
    d: Seq<Seq<V>>,
    cons: Seq<Constraint<R>>,
    a: Seq<V>,
)
    requires
        cons_in_range(cons, d.len()),
        is_solution(a, d, cons),
    ensures
        fixpoint(d, cons) is Some,
        is_solution(a, fixpoint(d, cons)->0, cons),
    decreases total(d),
{
    lemma_sweep_keeps(d, cons, cons.len(), a);
    lemma_sweep_total(d, cons);
    let e = sweep(d, cons, cons.len())->0;
    if total(e) < total(d) {
        lemma_reduce_keeps_solution(e, cons, a);
    }
}

/// Fixing every variable to the value that a solution gives yields domains
/// that reduce to themselves, all of them singletons.
pub proof fn lemma_solution_singletons_reduce_to_self<V, R: Relation<V>>(
    a: Seq<V>,
    cons: Seq<Constraint<R>>,
)
    requires
        cons_in_range(cons, a.len()),
        satisfies(a, cons),
    ensures
        fixpoint(singletons(a), cons) == Some(singletons(a)),
        forall|k: int| 0 <= k < a.len() ==> (#[trigger] singletons(a)[k]).len() == 1,
{
    let s = singletons(a);
    assert forall|k: int| 0 <= k < a.len() implies #[trigger] s[k].contains(a[k]) by {
        assert(s[k][0] == a[k]);
    }
    lemma_reduce_keeps_solution(s, cons, a);
    lemma_fixpoint_shrinks(s, cons);
    let e = fixpoint(s, cons)->0;
    assert forall|k: int| 0 <= k < a.len() implies #[trigger] e[k] == s[k] by {
        assert(e[k].contains(a[k]));
        assert(e[k].len() <= 1);
        assert(e[k] =~= seq![a[k]]);
    }
    assert(e =~= s);
}


/// Revising a prefix one option longer keeps that option exactly when it has a support.
pub proof fn lemma_revise_take<V, R: Relation<V>>(rel: R, s: Seq<V>, dy: Seq<V>, j: int)
    requires
        0 <= j < s.len(),
    ensures
        revise(rel, s.take(j + 1), dy) == (if supported(rel, s[j], dy) {
            revise(rel, s.take(j), dy).push(s[j])
        } else {
            revise(rel, s.take(j), dy)
        }),
{
    reveal(Seq::filter);
    assert(s.take(j + 1).drop_last() =~= s.take(j));
    assert(s.take(j + 1).last() == s[j]);
}


/// Once a sweep has failed, every longer sweep fails.
pub(crate) proof fn lemma_sweep_none_after<V, R: Relation<V>>(
    d: Seq<Seq<V>>,
    cons: Seq<Constraint<R>>,
    i: nat,
    j: nat,
)
    requires
        i <= j,
        sweep(d, cons, i) is None,
    ensures
        sweep(d, cons, j) is None,
    decreases j - i,
{
    if i < j {
        lemma_sweep_none_after(d, cons, i, (j - 1) as nat);
    }
}


/// Every domain holds at least one option.
pub open spec fn all_nonempty<V>(doms: Seq<Seq<V>>) -> bool {
    forall|k: int| 0 <= k < doms.len() ==> #[trigger] doms[k].len() >= 1
}

proof fn lemma_sweep_nonempty<V, R: Relation<V>>(d: Seq<Seq<V>>, cons: Seq<Constraint<R>>, i: nat)
    requires
        cons_in_range(cons, d.len()),
        i <= cons.len(),
        all_nonempty(d),
        sweep(d, cons, i) is Some,
    ensures
        all_nonempty(sweep(d, cons, i)->0),
    decreases i,
{
    if i > 0 {
        lemma_sweep_nonempty(d, cons, (i - 1) as nat);
        lemma_sweep_shrinks(d, cons, (i - 1) as nat);
        let g = sweep(d, cons, (i - 1) as nat)->0;
        let e = sweep(d, cons, i)->0;
        let c = cons[i - 1];
        assert(c.x < d.len());
        assert forall|k: int| 0 <= k < e.len() implies #[trigger] e[k].len() >= 1 by {
            if k != c.x {
                assert(e[k] == g[k]);
            }
        }
    }
}

/// Reduction that succeeds leaves no domain empty that was not empty before.
pub proof fn lemma_fixpoint_nonempty<V, R: Relation<V>>(d: Seq<Seq<V>>, cons: Seq<Constraint<R>>)
    requires
        cons_in_range(cons, d.len()),
        all_nonempty(d),
        fixpoint(d, cons) is Some,
    ensures
        all_nonempty(fixpoint(d, cons)->0),
    decreases total(d),
{
    lemma_sweep_nonempty(d, cons, cons.len());
    lemma_sweep_total(d, cons);
    let e = sweep(d, cons, cons.len())->0;
    if total(e) < total(d) {
        lemma_fixpoint_nonempty(e, cons);
    }
}


/// Fixing variable `i` to one of its options only removes options.
pub proof fn lemma_restrict_shrunk<V>(d: Seq<Seq<V>>, i: int, w: int)
    requires
        0 <= i < d.len(),
        0 <= w < d[i].len(),
    ensures
        shrunk(d, d.update(i, seq![d[i][w]])),
{
    let e = d.update(i, seq![d[i][w]]);
    assert forall|k: int, v: V| 0 <= k < d.len() && #[trigger] e[k].contains(v) implies d[k].contains(v) by {
        if k == i {
            assert(e[k][0] == v);
        }
    }
}


/// No domain repeats a value.
pub open spec fn all_distinct<V>(doms: Seq<Seq<V>>) -> bool {
    forall|k: int| 0 <= k < doms.len() ==> #[trigger] doms[k].no_duplicates()
}

proof fn lemma_filter_distinct<V>(s: Seq<V>, p: spec_fn(V) -> bool)
    requires
        s.no_duplicates(),
    ensures
        s.filter(p).no_duplicates(),
    decreases s.len(),
{
    reveal(Seq::filter);
    if s.len() > 0 {
        let t = s.drop_last();
        assert(t.no_duplicates()) by {
            assert forall|i: int, j: int| 0 <= i < t.len() && 0 <= j < t.len() && i != j implies t[i] != t[j] by {
                assert(s[i] != s[j]);
            }
        }
        lemma_filter_distinct(t, p);
        lemma_filter_shrinks(t, p);
        let f = t.filter(p);
        if p(s.last()) {
            assert(!t.contains(s.last())) by {
                if t.contains(s.last()) {
                    let i = choose|i: int| 0 <= i < t.len() && t[i] == s.last();
                    assert(s[i] == s[s.len() - 1]);
                }
            }
            assert(!f.contains(s.last()));
            let g = f.push(s.last());
            assert forall|i: int, j: int| 0 <= i < g.len() && 0 <= j < g.len() && i != j implies g[i] != g[j] by {
                if i < f.len() && j < f.len() {
                    assert(f[i] != f[j]);
                } else if i < f.len() {
                    assert(f.contains(f[i]));
                } else if j < f.len() {
                    assert(f.contains(f[j]));
                }
            }
            assert(s.filter(p) == g);
        }
    }
}

proof fn lemma_sweep_distinct<V, R: Relation<V>>(d: Seq<Seq<V>>, cons: Seq<Constraint<R>>, i: nat)
    requires
        cons_in_range(cons, d.len()),
        i <= cons.len(),
        all_distinct(d),
        sweep(d, cons, i) is Some,
    ensures
        all_distinct(sweep(d, cons, i)->0),
    decreases i,
{
    if i > 0 {
        lemma_sweep_distinct(d, cons, (i - 1) as nat);
        lemma_sweep_shrinks(d, cons, (i - 1) as nat);
        let g = sweep(d, cons, (i - 1) as nat)->0;
        let e = sweep(d, cons, i)->0;
        let c = cons[i - 1];
        assert(c.x < d.len());
        lemma_filter_distinct(g[c.x as int], |v: V| supported(c.rel, v, g[c.y as int]));
        assert forall|k: int| 0 <= k < e.len() implies #[trigger] e[k].no_duplicates() by {
            if k != c.x {
                assert(e[k] == g[k]);
            }
        }
    }
}

/// Reduction keeps domains free of repeated values.
pub proof fn lemma_fixpoint_distinct<V, R: Relation<V>>(d: Seq<Seq<V>>, cons: Seq<Constraint<R>>)
    requires
        cons_in_range(cons, d.len()),
        all_distinct(d),
        fixpoint(d, cons) is Some,
    ensures
        all_distinct(fixpoint(d, cons)->0),
    decreases total(d),
{
    lemma_sweep_distinct(d, cons, cons.len());
    lemma_sweep_total(d, cons);
    let e = sweep(d, cons, cons.len())->0;
    if total(e) < total(d) {
        lemma_fixpoint_distinct(e, cons);
    }
}


/// A problem with an empty domain has no solution.
pub proof fn lemma_empty_domain_no_solution<V, R: Relation<V>>(
    a: Seq<V>,
    doms: Seq<Seq<V>>,
    cons: Seq<Constraint<R>>,
    k: int,
)
    requires
        0 <= k < doms.len(),
        doms[k].len() == 0,
    ensures
        !is_solution(a, doms, cons),
{
    if is_solution(a, doms, cons) {
        assert(doms[k].contains(a[k]));
    }
}


/// The product of the domain sizes.
pub open spec fn product<V>(doms: Seq<Seq<V>>) -> nat
    decreases doms.len(),
{
    if doms.len() == 0 {
        1
    } else {
        product(doms.drop_last()) * doms.last().len()
    }
}



/// `s` holds values of `r` in the order in which `r` holds them.
pub open spec fn sorted_in<V>(s: Seq<V>, r: Seq<V>) -> bool {
    &&& forall|i: int| 0 <= i < s.len() ==> r.contains(#[trigger] s[i])
    &&& forall|i: int, j: int| 0 <= i < j < s.len() ==> r.index_of(#[trigger] s[i]) < r.index_of(#[trigger] s[j])
}

/// Each domain of `doms` keeps the order of the same domain of `init`.
pub open spec fn all_sorted<V>(doms: Seq<Seq<V>>, init: Seq<Seq<V>>) -> bool {
    &&& doms.len() == init.len()
    &&& forall|k: int| 0 <= k < doms.len() ==> #[trigger] sorted_in(doms[k], init[k])
}

/// The position of each value of `a` in its domain of `doms`.
pub open spec fn positions<V>(a: Seq<V>, doms: Seq<Seq<V>>) -> Seq<int> {
    Seq::new(a.len(), |k: int| doms[k].index_of(a[k]))
}

/// `x` comes before `y` in lexicographic order.
pub open spec fn lex_lt(x: Seq<int>, y: Seq<int>) -> bool {
    exists|d: int|
        0 <= d < x.len() && d < y.len() && (forall|e: int| 0 <= e < d ==> x[e] == y[e]) && #[trigger] x[d]
            < y[d]
}

/// A sequence without repeats is in its own order.
pub proof fn lemma_distinct_sorted<V>(s: Seq<V>)
    requires
        s.no_duplicates(),
    ensures
        sorted_in(s, s),
{
    assert forall|i: int| 0 <= i < s.len() implies #[trigger] s.index_of(s[i]) == i by {
        assert(s.contains(s[i]));
        let j = s.index_of(s[i]);
        assert(s[j] == s[i]);
    }
    assert forall|i: int, j: int| 0 <= i < j < s.len() implies s.index_of(#[trigger] s[i]) < s.index_of(#[trigger] s[j]) by {
        assert(s.index_of(s[i]) == i);
        assert(s.index_of(s[j]) == j);
    }
    assert forall|i: int| 0 <= i < s.len() implies s.contains(#[trigger] s[i]) by {}
}

proof fn lemma_filter_sorted<V>(s: Seq<V>, p: spec_fn(V) -> bool, r: Seq<V>)
    requires
        sorted_in(s, r),
    ensures
        sorted_in(s.filter(p), r),
    decreases s.len(),
{
    reveal(Seq::filter);
    lemma_filter_shrinks(s, p);
    let f = s.filter(p);
    assert forall|i: int| 0 <= i < f.len() implies r.contains(#[trigger] f[i]) by {
        assert(f.contains(f[i]));
        let j = choose|j: int| 0 <= j < s.len() && s[j] == f[i];
    }
    if s.len() > 0 {
        let t = s.drop_last();
        assert(sorted_in(t, r)) by {
            assert forall|i: int| 0 <= i < t.len() implies r.contains(#[trigger] t[i]) by {
                assert(r.contains(s[i]));
            }
            assert forall|i: int, j: int| 0 <= i < j < t.len() implies r.index_of(#[trigger] t[i]) < r.index_of(#[trigger] t[j]) by {
                assert(r.index_of(s[i]) < r.index_of(s[j]));
            }
        }
        lemma_filter_sorted(t, p, r);
        lemma_filter_shrinks(t, p);
        let g = t.filter(p);
        if p(s.last()) {
            assert(f == g.push(s.last()));
            assert forall|i: int, j: int| 0 <= i < j < f.len() implies r.index_of(#[trigger] f[i]) < r.index_of(#[trigger] f[j]) by {
                if j < g.len() {
                    assert(r.index_of(g[i]) < r.index_of(g[j]));
                } else {
                    assert(g.contains(g[i]));
                    let k = choose|k: int| 0 <= k < t.len() && t[k] == g[i];
                    assert(s[k] == f[i]);
                    assert(r.index_of(s[k]) < r.index_of(s[s.len() - 1]));
                }
            }
        } else {
            assert(f == g);
        }
    }
}

proof fn lemma_sweep_sorted<V, R: Relation<V>>(
    d: Seq<Seq<V>>,
    cons: Seq<Constraint<R>>,
    i: nat,
    init: Seq<Seq<V>>,
)
    requires
        cons_in_range(cons, d.len()),
        i <= cons.len(),
        all_sorted(d, init),
        sweep(d, cons, i) is Some,
    ensures
        all_sorted(sweep(d, cons, i)->0, init),
    decreases i,
{
    if i > 0 {
        lemma_sweep_sorted(d, cons, (i - 1) as nat, init);
        lemma_sweep_shrinks(d, cons, (i - 1) as nat);
        let g = sweep(d, cons, (i - 1) as nat)->0;
        let e = sweep(d, cons, i)->0;
        let c = cons[i - 1];
        assert(c.x < d.len());
        assert(sorted_in(g[c.x as int], init[c.x as int]));
        lemma_filter_sorted(g[c.x as int], |v: V| supported(c.rel, v, g[c.y as int]), init[c.x as int]);
        assert forall|k: int| 0 <= k < e.len() implies #[trigger] sorted_in(e[k], init[k]) by {
            if k != c.x {
                assert(e[k] == g[k]);
                assert(sorted_in(g[k], init[k]));
            }
        }
    }
}

/// Reduction keeps every domain in the order of `init`.
pub proof fn lemma_fixpoint_sorted<V, R: Relation<V>>(
    d: Seq<Seq<V>>,
    cons: Seq<Constraint<R>>,
    init: Seq<Seq<V>>,
)
    requires
        cons_in_range(cons, d.len()),
        all_sorted(d, init),
        fixpoint(d, cons) is Some,
    ensures
        all_sorted(fixpoint(d, cons)->0, init),
    decreases total(d),
{
    lemma_sweep_sorted(d, cons, cons.len(), init);
    lemma_sweep_total(d, cons);
    let e = sweep(d, cons, cons.len())->0;
    if total(e) < total(d) {
        lemma_fixpoint_sorted(e, cons, init);
    }
}


/// The product of the domain sizes, read as the number of cursor positions.
pub proof fn lemma_width_product<V>(doms: Seq<Seq<V>>)
    ensures
        crate::cursor::width(doms.map_values(|d: Seq<V>| d.len() as int), 0) == product(doms),
    decreases doms.len(),
{
    let b = doms.map_values(|d: Seq<V>| d.len() as int);
    if doms.len() > 0 {
        lemma_width_product(doms.drop_last());
        assert(b.drop_last() =~= doms.drop_last().map_values(|d: Seq<V>| d.len() as int));
        crate::cursor::lemma_width_drop_last(b, 0);
    }
}

/// A problem with an empty domain has a product of zero.
pub proof fn lemma_product_zero<V>(doms: Seq<Seq<V>>, k: int)
    requires
        0 <= k < doms.len(),
        doms[k].len() == 0,
    ensures
        product(doms) == 0,
    decreases doms.len(),
{
    if k < doms.len() - 1 {
        assert(doms.drop_last()[k] == doms[k]);
        lemma_product_zero(doms.drop_last(), k);
        let y = doms.last().len();
        assert(product(doms) == product(doms.drop_last()) * y);
        assert(0 * y == 0) by (nonlinear_arith);
    } else {
        assert(doms.last().len() == 0);
        assert(product(doms) == product(doms.drop_last()) * 0);
    }
}

} // verus!
