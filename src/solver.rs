use vstd::prelude::*;

use crate::cursor::{
    advanced, in_bounds, lemma_advance_rank, lemma_advance_rank_exact, lemma_rank_bounds,
    lemma_rank_maxed, lemma_rank_zeros, rank, width,
};
use crate::model::{
    all_distinct, all_nonempty, all_sorted, cons_in_range, firsts, fixpoint, is_solution,
    lemma_distinct_sorted, lemma_fixpoint_distinct, lemma_fixpoint_nonempty, lemma_fixpoint_shrinks,
    lemma_fixpoint_sorted, lemma_product_zero, lemma_reduce_keeps_solution, lemma_restrict_shrunk,
    lemma_shrunk_trans, lemma_stable_singletons_satisfy, lemma_width_product, lex_lt, positions,
    product, shrunk, sorted_in, sweep, within,
};
use crate::problem::{Constraint, CSP};
use crate::relation::{Relation, VarKey};

verus! {

/// The values of an assignment, in key order.
pub open spec fn values_of<K, V>(a: Seq<(K, V)>) -> Seq<V> {
    a.map_values(|p: (K, V)| p.1)
}

/// The keys of an assignment, in order.
pub open spec fn keys_of<K, V>(a: Seq<(K, V)>) -> Seq<K> {
    a.map_values(|p: (K, V)| p.0)
}

/// A lazy enumerator of the solutions of a problem. Depth `d` of the search
/// fixes the variable at key position `d`; `problem_stack[d]` holds the
/// domains reduced with the choices above `d`, and `branches[d]` the option
/// tried at depth `d`.
pub struct CSPSolution<K, V, R> {
    problem_stack: Vec<CSP<K, V, R>>,
    nvars: usize,
    branches: Vec<usize>,
    done: bool,
    init: Ghost<Seq<Seq<V>>>,
    produced: Ghost<Seq<Seq<V>>>,
}

impl<K: VarKey + Copy, V: Copy, R: Relation<V> + Copy> CSPSolution<K, V, R> {
    /// The keys of the problem, in the order of the assignments produced.
    pub closed spec fn keys(&self) -> Seq<K> {
        self.problem_stack@[0].keys@
    }

    /// The problem's constraints.
    pub closed spec fn constrs(&self) -> Seq<Constraint<R>> {
        self.problem_stack@[0].constrs@
    }

    /// The problem's domains as they were handed in.
    pub closed spec fn init(&self) -> Seq<Seq<V>> {
        self.init@
    }

    /// Whether the enumeration has ended.
    pub closed spec fn is_done(&self) -> bool {
        self.done
    }

    spec fn bounds(&self) -> Seq<int> {
        self.problem_stack@[0].doms().map_values(|d: Seq<V>| d.len() as int)
    }

    spec fn cursor(&self) -> Seq<int> {
        self.branches@.map_values(|b: usize| b as int)
    }

    /// An upper bound on the number of assignments still to come.
    pub closed spec fn remaining(&self) -> nat {
        if self.done {
            0
        } else {
            (width(self.bounds(), 0) - rank(self.cursor(), self.bounds(), 0)) as nat
        }
    }

    /// What holds of one snapshot at depth `d`.
    spec fn snapshot_ok(&self, d: int) -> bool {
        let p = self.problem_stack@[d];
        &&& p.wf()
        &&& p.keys@ == self.keys()
        &&& p.constrs@ == self.constrs()
        &&& sweep(p.doms(), self.constrs(), self.constrs().len()) == Some(p.doms())
        &&& shrunk(self.init@, p.doms())
        &&& shrunk(self.problem_stack@[0].doms(), p.doms())
        &&& all_nonempty(p.doms())
        &&& all_distinct(self.init@) ==> all_distinct(p.doms())
        &&& all_distinct(self.init@) ==> all_sorted(p.doms(), self.init@)
        &&& self.constrs().len() == 0 ==> forall|e: int|
            d <= e < p.doms().len() ==> #[trigger] p.doms()[e] == self.init@[e]
        &&& forall|k: int| 0 <= k < d ==> #[trigger] p.doms()[k].len() == 1
    }

    /// The search state: snapshots that hold their facts, and cursor entries
    /// that index their depth's domain.
    spec fn searching(&self) -> bool {
        &&& 1 <= self.problem_stack@.len() <= self.nvars + 1
        &&& self.nvars == self.keys().len()
        &&& self.branches@.len() == self.nvars
        &&& self.init@.len() == self.nvars
        &&& cons_in_range(self.constrs(), self.nvars as nat)
        &&& forall|d: int| 0 <= d < self.problem_stack@.len() ==> #[trigger] self.snapshot_ok(d)
        &&& forall|d: int|
            0 <= d < self.problem_stack@.len() && d < self.nvars ==> #[trigger] self.branches@[d]
                < self.problem_stack@[d].doms()[d].len()
        &&& in_bounds(self.cursor(), self.bounds())
    }

    /// The values of the assignments produced so far, in order.
    pub closed spec fn produced(&self) -> Seq<Seq<V>> {
        self.produced@
    }

    spec fn solution(&self, a: Seq<V>) -> bool {
        is_solution(a, self.init@, self.constrs())
    }

    /// The number of options at depth `e` in its snapshot.
    spec fn size(&self, e: int) -> int {
        self.problem_stack@[e].doms()[e].len() as int
    }

    /// The cursor entry at depth `e` is on its last option.
    spec fn maxed(&self, e: int) -> bool {
        self.branches@[e] + 1 == self.size(e)
    }

    /// The produced assignments come in strictly increasing order of their
    /// positions in the domains as handed in.
    pub closed spec fn increasing(&self) -> bool {
        forall|i: int, j: int|
            0 <= i < j < self.produced@.len() ==> lex_lt(
                positions(#[trigger] self.produced@[i], self.init@),
                positions(#[trigger] self.produced@[j], self.init@),
            )
    }

    /// Without constraints, the number produced is the rank of the cursor, or
    /// the product of the domain sizes once the enumeration has ended.
    spec fn counted(&self) -> bool {
        self.constrs().len() == 0 ==> {
            &&& !self.done ==> self.produced@.len() == rank(self.cursor(), self.bounds(), 0)
            &&& self.done ==> self.produced@.len() == product(self.init@)
        }
    }

    /// The value chosen at depth `e`.
    spec fn ch(&self, e: int) -> V {
        self.problem_stack@[e].doms()[e][self.branches@[e] as int]
    }

    /// `a` takes the chosen values at the depths above `d`.
    spec fn agrees(&self, a: Seq<V>, d: int) -> bool {
        forall|e: int| 0 <= e < d ==> #[trigger] a[e] == self.ch(e)
    }

    /// At depth `d`, the search has gone past the value of `a`.
    spec fn passed_at(&self, a: Seq<V>, d: int) -> bool {
        &&& 0 <= d < self.nvars
        &&& d < self.problem_stack@.len()
        &&& self.agrees(a, d)
        &&& self.problem_stack@[d].doms()[d].take(self.branches@[d] as int).contains(a[d])
    }

    spec fn passed(&self, a: Seq<V>) -> bool {
        exists|d: int| self.passed_at(a, d)
    }

    /// The produced assignments are the solutions that the search has gone past.
    spec fn emit_ok(&self) -> bool {
        &&& forall|a: Seq<V>| #[trigger] self.produced@.contains(a) ==> self.solution(a) && self.passed(a)
        &&& self.cover_ok()
    }

    spec fn cover_ok(&self) -> bool {
        forall|a: Seq<V>| self.solution(a) && #[trigger] self.passed(a) ==> self.produced@.contains(a)
    }

    spec fn within_at(&self, a: Seq<V>, d: int) -> bool {
        within(a, self.problem_stack@[d].doms())
    }

    /// Down to depth `lim`, each snapshot holds the chosen values above it as singletons.
    spec fn sing_ok(&self, lim: int) -> bool {
        forall|d: int, e: int|
            0 <= e < d <= lim && d < self.problem_stack@.len() ==> #[trigger] self.problem_stack@[d].doms()[e]
                == seq![self.ch(e)]
    }

    /// Below depth `lim`, each snapshot is the one before it with the variable
    /// of that depth fixed to its chosen option, then reduced.
    spec fn chain_ok(&self, lim: int) -> bool {
        forall|d: int|
            0 <= d < lim && d + 1 < self.problem_stack@.len() ==> fixpoint(
                #[trigger] self.problem_stack@[d].doms().update(d, seq![self.ch(d)]),
                self.constrs(),
            ) == Some(self.problem_stack@[d + 1].doms())
    }

    /// Down to depth `lim`, each snapshot admits every solution that takes the chosen values above it.
    spec fn within_ok(&self, lim: int) -> bool {
        forall|d: int, a: Seq<V>|
            0 <= d <= lim && d < self.problem_stack@.len() && self.solution(a) && self.agrees(a, d)
                ==> #[trigger] self.within_at(a, d)
    }

    /// Every solution that takes the chosen values down to depth `s` is produced.
    spec fn sub_done(&self, s: int) -> bool {
        forall|a: Seq<V>| self.solution(a) && #[trigger] self.agrees(a, s + 1) ==> self.produced@.contains(a)
    }

    /// The assignment of the chosen values.
    spec fn current(&self) -> Seq<V> {
        Seq::new(self.nvars as nat, |e: int| self.ch(e))
    }

    /// The enumerator's invariant: while it runs, the top snapshot fixes
    /// every variable.
    pub closed spec fn wf(&self) -> bool {
        &&& self.problem_stack@.len() >= 1
        &&& self.problem_stack@[0].wf()
        &&& self.nvars == self.keys().len()
        &&& forall|a: Seq<V>| #[trigger] self.produced@.contains(a) ==> self.solution(a)
        &&& all_distinct(self.init@) ==> self.produced@.no_duplicates()
        &&& all_distinct(self.init@) ==> self.increasing()
        &&& self.counted()
        &&& self.done ==> forall|a: Seq<V>| self.solution(a) ==> #[trigger] self.produced@.contains(a)
        &&& !self.done ==> {
            &&& self.searching()
            &&& self.problem_stack@.len() == self.nvars + 1
            &&& self.emit_ok()
            &&& self.sing_ok(self.nvars as int)
            &&& self.chain_ok(self.nvars as int)
            &&& self.within_ok(self.nvars as int)
        }
    }

    proof fn lemma_cursor_bounds(&self)
        requires
            self.searching(),
        ensures
            0 <= rank(self.cursor(), self.bounds(), 0) < width(self.bounds(), 0),
    {
        lemma_rank_bounds(self.cursor(), self.bounds(), 0);
    }

    /// Starts the enumeration of the solutions of `csp`: reduces it, and
    /// searches for the first solution.
    pub fn new(csp: CSP<K, V, R>) -> (r: CSPSolution<K, V, R>)
        requires
            csp.wf(),
        ensures
            r.wf(),
            r.keys() == csp.keys@,
            r.constrs() == csp.constrs@,
            r.init() == csp.doms(),
            r.produced() == Seq::<Seq<V>>::empty(),
            r.is_done() ==> forall|a: Seq<V>| !is_solution(a, csp.doms(), csp.constrs@),
    {
        let ghost init = csp.doms();
        let mut csp = csp;
        let red = csp.reduce();
        let nvars = csp.keys.len();
        let mut branches: Vec<usize> = Vec::new();
        let mut i: usize = 0;
        while i < nvars
            invariant
                i <= nvars,
                branches@.len() == i,
                forall|k: int| 0 <= k < i ==> branches@[k] == 0,
            decreases nvars - i,
        {
            branches.push(0);
            i = i + 1;
        }
        let mut nonempty = true;
        let mut k: usize = 0;
        while k < nvars
            invariant
                csp.wf(),
                nvars == csp.keys@.len(),
                k <= nvars,
                nonempty == forall|j: int| 0 <= j < k ==> #[trigger] csp.doms()[j].len() >= 1,
            decreases nvars - k,
        {
            assert(csp.doms()[k as int] == csp.vars@[k as int]@);
            if csp.vars[k].options.len() == 0 {
                nonempty = false;
            }
            k = k + 1;
        }
        let feasible = red.is_some() && nonempty;
        let ghost cons = csp.constrs@;
        proof {
            if cons.len() == 0 {
                assert(fixpoint(init, cons) == Some(init));
                assert(csp.doms() == init);
                if !feasible {
                    let j = choose|j: int| 0 <= j < nvars && !(#[trigger] csp.doms()[j].len() >= 1);
                    lemma_product_zero(init, j);
                }
            }
            if !feasible {
                assert forall|a: Seq<V>| is_solution(a, init, cons) implies false by {
                    lemma_reduce_keeps_solution(init, cons, a);
                    if red.is_some() {
                        let j = choose|j: int| 0 <= j < nvars && !(#[trigger] csp.doms()[j].len() >= 1);
                        assert(csp.doms()[j].contains(a[j]));
                    }
                }
            }
        }
        let mut stack: Vec<CSP<K, V, R>> = Vec::new();
        stack.push(csp);
        let mut ret = CSPSolution {
            problem_stack: stack,
            nvars,
            branches,
            done: !feasible,
            init: Ghost(init),
            produced: Ghost(Seq::empty()),
        };
        if feasible {
            proof {
                let p = ret.problem_stack@[0];
                lemma_fixpoint_shrinks(init, p.constrs@);
                if all_distinct(init) {
                    lemma_fixpoint_distinct(init, p.constrs@);
                    assert forall|k: int| 0 <= k < init.len() implies #[trigger] sorted_in(init[k], init[k]) by {
                        lemma_distinct_sorted(init[k]);
                    }
                    lemma_fixpoint_sorted(init, p.constrs@, init);
                }
                assert(shrunk(p.doms(), p.doms()));
                assert(all_nonempty(p.doms()));
                assert(ret.snapshot_ok(0));
                assert forall|e: int| 0 <= e < nvars implies 0 <= #[trigger] ret.cursor()[e] < ret.bounds()[e] by {
                    assert(p.doms()[e].len() >= 1);
                }
                assert(ret.searching());
                assert forall|a: Seq<V>| ret.solution(a) && #[trigger] ret.passed(a) implies ret.produced@.contains(a) by {
                    let d = choose|d: int| ret.passed_at(a, d);
                    assert(ret.problem_stack@[0].doms()[0].take(0).len() == 0);
                }
                assert forall|d: int, a: Seq<V>|
                    0 <= d <= 0 && d < ret.problem_stack@.len() && ret.solution(a) && ret.agrees(a, d)
                        implies #[trigger] ret.within_at(a, d) by {
                    lemma_reduce_keeps_solution(init, p.constrs@, a);
                }
                assert(ret.within_ok(nvars as int)) by {
                    assert forall|d: int, a: Seq<V>|
                        0 <= d <= nvars && d < ret.problem_stack@.len() && ret.solution(a) && ret.agrees(a, d)
                            implies #[trigger] ret.within_at(a, d) by {
                        lemma_reduce_keeps_solution(init, p.constrs@, a);
                    }
                }
            }
            if nvars > 0 {
                proof {
                    assert forall|e: int| 0 < e < nvars implies #[trigger] ret.branches@[e] == 0 by {}
                    assert forall|e: int| 0 <= e < ret.cursor().len() implies #[trigger] ret.cursor()[e] == 0 by {
                        assert(ret.branches@[e] == 0);
                    }
                    lemma_rank_zeros(ret.cursor(), ret.bounds());
                }
                if !ret.find_consistent(0) {
                    ret.done = true;
                }
            }
        }
        proof {
            if ret.done {
                assert forall|a: Seq<V>| !is_solution(a, init, cons) by {
                    if is_solution(a, init, cons) {
                        assert(ret.solution(a));
                        assert(ret.produced@.contains(a));
                    }
                }
            }
        }
        ret
    }

    /// Changing one cursor entry to a value that indexes its domain keeps the search state.
    proof fn lemma_set_branch(prev: Self, next: Self, j: int, v: usize)
        requires
            prev.searching(),
            next.problem_stack@ == prev.problem_stack@,
            next.nvars == prev.nvars,
            next.init == prev.init,
            0 <= j < prev.nvars,
            next.branches@ == prev.branches@.update(j, v),
            v < prev.bounds()[j],
            j < prev.problem_stack@.len() ==> v < prev.problem_stack@[j].doms()[j].len(),
        ensures
            next.searching(),
    {
        assert forall|d: int| 0 <= d < next.problem_stack@.len() implies #[trigger] next.snapshot_ok(d) by {
            assert(prev.snapshot_ok(d));
        }
        assert forall|d: int|
            0 <= d < next.problem_stack@.len() && d < next.nvars implies #[trigger] next.branches@[d]
                < next.problem_stack@[d].doms()[d].len() by {
            if d != j {
                assert(prev.branches@[d] < prev.problem_stack@[d].doms()[d].len());
            }
        }
        assert forall|e: int| 0 <= e < next.nvars implies 0 <= #[trigger] next.cursor()[e]
            < next.bounds()[e] by {
            if e != j {
                assert(prev.cursor()[e] < prev.bounds()[e]);
            }
        }
    }

    proof fn lemma_take_step(s: Seq<V>, b: int, v: V)
        requires
            0 <= b < s.len(),
        ensures
            s.take(b + 1).contains(v) <==> (s.take(b).contains(v) || v == s[b]),
            s.take(s.len() as int) == s,
    {
        assert(s.take(s.len() as int) =~= s);
        let t1 = s.take(b + 1);
        let t0 = s.take(b);
        if t1.contains(v) {
            let i = choose|i: int| 0 <= i < t1.len() && #[trigger] t1[i] == v;
            if i < b {
                assert(s.take(b)[i] == v);
            }
        }
        if t0.contains(v) {
            let i = choose|i: int| 0 <= i < t0.len() && #[trigger] t0[i] == v;
            assert(s.take(b + 1)[i] == v);
        }
        if v == s[b] {
            assert(s.take(b + 1)[b] == v);
        }
    }

    /// At a depth whose last option is chosen, the whole subtree below the
    /// depth above is produced once the subtree of the chosen option is.
    proof fn lemma_exhausted(&self, cur: int, last: int, p: Seq<Seq<V>>)
        requires
            self.searching(),
            0 <= cur <= last < self.nvars,
            last < self.problem_stack@.len(),
            self.within_ok(last),
            forall|a: Seq<V>| self.solution(a) && #[trigger] self.passed(a) ==> p.contains(a),
            forall|a: Seq<V>| self.solution(a) && #[trigger] self.agrees(a, cur + 1) ==> p.contains(a),
            self.branches@[cur] + 1 == self.problem_stack@[cur].doms()[cur].len(),
        ensures
            forall|a: Seq<V>| self.solution(a) && #[trigger] self.agrees(a, cur) ==> p.contains(a),
    {
        assert forall|a: Seq<V>| self.solution(a) && #[trigger] self.agrees(a, cur) implies p.contains(a) by {
            assert(self.within_at(a, cur));
            let dom = self.problem_stack@[cur].doms()[cur];
            let b = self.branches@[cur] as int;
            assert(dom.contains(a[cur]));
            Self::lemma_take_step(dom, b, a[cur]);
            if dom.take(b).contains(a[cur]) {
                assert(self.passed_at(a, cur));
                assert(self.passed(a));
            } else {
                assert(a[cur] == self.ch(cur));
                assert(self.agrees(a, cur + 1));
            }
        }
    }

    /// After the cursor advanced at depth `s`, the produced assignments are
    /// again those that the search has gone past.
    proof fn lemma_advance_emit(o: Self, n: Self, s: int)
        requires
            o.searching(),
            n.searching(),
            n.problem_stack@ == o.problem_stack@,
            n.nvars == o.nvars,
            n.init == o.init,
            0 <= s < o.nvars,
            s < o.problem_stack@.len(),
            advanced(o.cursor(), n.cursor(), s),
            forall|a: Seq<V>| o.solution(a) && #[trigger] o.passed(a) ==> n.produced@.contains(a),
            forall|a: Seq<V>| #[trigger] n.produced@.contains(a) ==> o.solution(a) && (o.passed(a) || o.agrees(a, s + 1)),
            forall|a: Seq<V>| o.solution(a) && #[trigger] o.agrees(a, s + 1) ==> n.produced@.contains(a),
        ensures
            n.emit_ok(),
    {
        assert forall|e: int| 0 <= e < s implies #[trigger] n.ch(e) == o.ch(e) by {
            assert(n.cursor()[e] == o.cursor()[e]);
        }
        assert(n.branches@[s] == o.branches@[s] + 1) by {
            assert(n.cursor()[s] == o.cursor()[s] + 1);
        }
        let dom = o.problem_stack@[s].doms()[s];
        let b = o.branches@[s] as int;
        assert(b + 1 < dom.len() + 1) by {
            assert(n.branches@[s] < n.problem_stack@[s].doms()[s].len());
        }
        assert forall|a: Seq<V>| #[trigger] n.produced@.contains(a) implies n.solution(a) && n.passed(a) by {
            if !o.agrees(a, s + 1) {
                let d = choose|d: int| o.passed_at(a, d);
                if d < s {
                    assert(n.passed_at(a, d)) by {
                        assert(n.branches@[d] == o.branches@[d]) by {
                            assert(n.cursor()[d] == o.cursor()[d]);
                        }
                    }
                } else if d == s {
                    Self::lemma_take_step(dom, b, a[s]);
                    assert(n.passed_at(a, s));
                } else {
                    assert(o.agrees(a, s + 1));
                }
            }
            if o.agrees(a, s + 1) {
                assert(a[s] == o.ch(s));
                Self::lemma_take_step(dom, b, a[s]);
                assert forall|e: int| 0 <= e < s implies #[trigger] a[e] == n.ch(e) by {
                    assert(a[e] == o.ch(e));
                }
                assert(n.agrees(a, s));
                assert(n.passed_at(a, s));
            }
        }
        assert forall|a: Seq<V>| n.solution(a) && #[trigger] n.passed(a) implies n.produced@.contains(a) by {
            let d = choose|d: int| n.passed_at(a, d);
            if d < s {
                assert(n.branches@[d] == o.branches@[d]) by {
                    assert(n.cursor()[d] == o.cursor()[d]);
                }
                assert(o.passed_at(a, d));
                assert(o.passed(a));
            } else if d == s {
                Self::lemma_take_step(dom, b, a[s]);
                assert forall|e: int| 0 <= e < s implies #[trigger] a[e] == o.ch(e) by {
                    assert(a[e] == n.ch(e));
                }
                if dom.take(b).contains(a[s]) {
                    assert(o.passed_at(a, s));
                    assert(o.passed(a));
                } else {
                    assert forall|e: int| 0 <= e < s + 1 implies #[trigger] a[e] == o.ch(e) by {
                        if e < s {
                            assert(a[e] == n.ch(e));
                        }
                    }
                    assert(o.agrees(a, s + 1));
                }
            } else {
                assert(n.branches@[d] == 0) by {
                    assert(n.cursor()[d] == 0);
                }
                assert(n.problem_stack@[d].doms()[d].take(0).len() == 0);
            }
        }
    }

    /// A state that keeps the snapshots and cursor down to depth `lim`, with
    /// cursor entries below it at zero, keeps what holds down to `lim`.
    proof fn lemma_frame(o: Self, n: Self, lim: int)
        requires
            o.searching(),
            n.nvars == o.nvars,
            n.init == o.init,
            n.produced == o.produced,
            n.branches@ == o.branches@,
            0 <= lim < o.problem_stack@.len(),
            lim < n.problem_stack@.len(),
            forall|d: int| 0 <= d <= lim ==> #[trigger] n.problem_stack@[d] == o.problem_stack@[d],
            forall|d: int| lim < d < o.nvars ==> #[trigger] o.branches@[d] == 0,
            o.emit_ok(),
            o.sing_ok(lim),
            o.within_ok(lim),
            o.chain_ok(lim),
        ensures
            n.chain_ok(lim),
            n.emit_ok(),
            n.sing_ok(lim),
            n.within_ok(lim),
    {
        assert(n.problem_stack@[0] == o.problem_stack@[0]);
        assert forall|e: int| 0 <= e <= lim implies #[trigger] n.ch(e) == o.ch(e) by {
            assert(n.problem_stack@[e] == o.problem_stack@[e]);
        }
        assert forall|a: Seq<V>, d: int| #[trigger] n.passed_at(a, d) <==> o.passed_at(a, d) by {
            if 0 <= d <= lim {
                assert(n.problem_stack@[d] == o.problem_stack@[d]);
            } else if lim < d < o.nvars {
                assert(o.branches@[d] == 0);
                assert(n.problem_stack@[d].doms()[d].take(0).len() == 0);
                if d < o.problem_stack@.len() {
                    assert(o.problem_stack@[d].doms()[d].take(0).len() == 0);
                }
            }
        }
        assert forall|a: Seq<V>| #[trigger] n.passed(a) <==> o.passed(a) by {
            if n.passed(a) {
                let d = choose|d: int| n.passed_at(a, d);
                assert(o.passed_at(a, d));
            }
            if o.passed(a) {
                let d = choose|d: int| o.passed_at(a, d);
                assert(n.passed_at(a, d));
            }
        }
        assert forall|a: Seq<V>| #[trigger] n.produced@.contains(a) implies n.solution(a) && n.passed(a) by {
            assert(o.produced@.contains(a));
        }
        assert forall|d: int|
            0 <= d < lim && d + 1 < n.problem_stack@.len() implies fixpoint(
                #[trigger] n.problem_stack@[d].doms().update(d, seq![n.ch(d)]),
                n.constrs(),
            ) == Some(n.problem_stack@[d + 1].doms()) by {
            assert(n.problem_stack@[d + 1] == o.problem_stack@[d + 1]);
            assert(o.problem_stack@[d].doms().update(d, seq![o.ch(d)]) == n.problem_stack@[d].doms().update(d, seq![n.ch(d)]));
        }
        assert forall|d: int, e: int|
            0 <= e < d <= lim && d < n.problem_stack@.len() implies #[trigger] n.problem_stack@[d].doms()[e]
                == seq![n.ch(e)] by {
            assert(o.problem_stack@[d].doms()[e] == seq![o.ch(e)]);
        }
        assert forall|d: int, a: Seq<V>|
            0 <= d <= lim && d < n.problem_stack@.len() && n.solution(a) && n.agrees(a, d)
                implies #[trigger] n.within_at(a, d) by {
            assert(o.agrees(a, d));
            assert(o.within_at(a, d));
        }
    }

    /// Advancing at depth `s` keeps what held of the snapshots down to `s`.
    proof fn lemma_advance_keeps(o: Self, n: Self, s: int, lim: int)
        requires
            n.problem_stack@ == o.problem_stack@,
            n.nvars == o.nvars,
            n.init == o.init,
            0 <= s <= lim,
            advanced(o.cursor(), n.cursor(), s),
            o.sing_ok(lim),
            o.within_ok(lim),
            o.chain_ok(lim),
        ensures
            n.sing_ok(s),
            n.within_ok(s),
            n.chain_ok(s),
    {
        assert forall|e: int| 0 <= e < s implies #[trigger] n.ch(e) == o.ch(e) by {
            assert(n.cursor()[e] == o.cursor()[e]);
        }
        assert forall|d: int, e: int|
            0 <= e < d <= s && d < n.problem_stack@.len() implies #[trigger] n.problem_stack@[d].doms()[e]
                == seq![n.ch(e)] by {
            assert(o.problem_stack@[d].doms()[e] == seq![o.ch(e)]);
        }
        assert forall|d: int, a: Seq<V>|
            0 <= d <= s && d < n.problem_stack@.len() && n.solution(a) && n.agrees(a, d)
                implies #[trigger] n.within_at(a, d) by {
            assert forall|e: int| 0 <= e < d implies #[trigger] a[e] == o.ch(e) by {
                assert(a[e] == n.ch(e));
            }
            assert(o.agrees(a, d));
            assert(o.within_at(a, d));
        }
        assert forall|d: int|
            0 <= d < s && d + 1 < n.problem_stack@.len() implies fixpoint(
                #[trigger] n.problem_stack@[d].doms().update(d, seq![n.ch(d)]),
                n.constrs(),
            ) == Some(n.problem_stack@[d + 1].doms()) by {
            assert(o.problem_stack@[d].doms().update(d, seq![o.ch(d)]) == n.problem_stack@[d].doms().update(d, seq![n.ch(d)]));
        }
    }

    /// Replacing the record of produced assignments keeps the search facts.
    proof fn lemma_produced_frame(o: Self, n: Self)
        requires
            n.problem_stack == o.problem_stack,
            n.branches == o.branches,
            n.nvars == o.nvars,
            n.init == o.init,
            n.done == o.done,
            o.searching(),
            o.sing_ok(o.nvars as int),
            o.within_ok(o.nvars as int),
            o.chain_ok(o.nvars as int),
        ensures
            n.chain_ok(n.nvars as int),
            n.searching(),
            n.sing_ok(n.nvars as int),
            n.within_ok(n.nvars as int),
            forall|a: Seq<V>| #[trigger] n.passed(a) <==> o.passed(a),
    {
        assert forall|d: int| 0 <= d < n.problem_stack@.len() implies #[trigger] n.snapshot_ok(d) by {
            assert(o.snapshot_ok(d));
        }
        assert forall|d: int, a: Seq<V>|
            0 <= d <= n.nvars && d < n.problem_stack@.len() && n.solution(a) && n.agrees(a, d)
                implies #[trigger] n.within_at(a, d) by {
            assert(o.agrees(a, d));
            assert(o.within_at(a, d));
        }
        assert forall|a: Seq<V>| #[trigger] n.passed(a) <==> o.passed(a) by {
            if n.passed(a) {
                let d = choose|d: int| n.passed_at(a, d);
                assert(o.passed_at(a, d));
            }
            if o.passed(a) {
                let d = choose|d: int| o.passed_at(a, d);
                assert(n.passed_at(a, d));
            }
        }
        assert forall|d: int|
            0 <= d < n.nvars && d + 1 < n.problem_stack@.len() implies fixpoint(
                #[trigger] n.problem_stack@[d].doms().update(d, seq![n.ch(d)]),
                n.constrs(),
            ) == Some(n.problem_stack@[d + 1].doms()) by {
            assert(o.problem_stack@[d].doms().update(d, seq![o.ch(d)]) == n.problem_stack@[d].doms().update(d, seq![n.ch(d)]));
        }
    }

    /// Without constraints every snapshot keeps the domains as handed in
    /// from its own depth on, so each depth offers all its options.
    proof fn lemma_unconstrained_sizes(&self)
        requires
            self.searching(),
            self.constrs().len() == 0,
        ensures
            self.problem_stack@[0].doms() == self.init@,
            self.bounds() == self.init@.map_values(|d: Seq<V>| d.len() as int),
            forall|e: int| 0 <= e < self.nvars && e < self.problem_stack@.len() ==> #[trigger] self.size(e) == self.bounds()[e],
    {
        assert(self.snapshot_ok(0));
        assert(self.problem_stack@[0].doms() =~= self.init@);
        assert forall|e: int| 0 <= e < self.nvars && e < self.problem_stack@.len() implies #[trigger] self.size(e) == self.bounds()[e] by {
            assert(self.snapshot_ok(e));
        }
    }

    /// Moves the cursor to the next position after depth `last`: deeper
    /// entries go to zero, and the deepest entry at or above `last` that is
    /// not on its last option moves by one. `None`, with the cursor all zero
    /// and the end of the enumeration, where every entry is on its last option.
    fn incr_branches(&mut self, last: usize) -> (r: Option<usize>)
        requires
            old(self).searching(),
            !old(self).done,
            last < old(self).nvars,
            last < old(self).problem_stack@.len(),
            old(self).cover_ok(),
            old(self).within_ok(last as int),
            old(self).sub_done(last as int),
        ensures
            final(self).problem_stack@ == old(self).problem_stack@,
            final(self).nvars == old(self).nvars,
            final(self).init == old(self).init,
            final(self).produced == old(self).produced,
            match r {
                Some(s) => {
                    &&& forall|a: Seq<V>|
                        old(self).solution(a) && #[trigger] old(self).agrees(a, s + 1)
                            ==> final(self).produced@.contains(a)
                    &&& !final(self).done
                    &&& s <= last
                    &&& final(self).searching()
                    &&& advanced(old(self).cursor(), final(self).cursor(), s as int)
                    &&& forall|e: int|
                        s < e < final(self).nvars ==> #[trigger] final(self).branches@[e] == 0
                    &&& old(self).branches@[s as int] + 1 < old(self).size(s as int)
                    &&& forall|e: int| s < e <= last ==> #[trigger] old(self).maxed(e)
                },
                None => {
                    &&& final(self).done
                    &&& forall|a: Seq<V>| #[trigger] old(self).solution(a) ==> final(self).produced@.contains(a)
                    &&& forall|e: int| 0 <= e <= last ==> #[trigger] old(self).maxed(e)
                    &&& forall|e: int| 0 <= e < final(self).nvars ==> #[trigger] final(self).branches@[e] == 0
                },
            },
    {
        let ghost c0 = self.cursor();
        let ghost o = *self;
        let mut j: usize = last + 1;
        while j < self.nvars
            invariant
                self.searching(),
                !self.done,
                self.problem_stack@ == old(self).problem_stack@,
                self.nvars == old(self).nvars,
                self.init == old(self).init,
                self.produced == old(self).produced,
                last < self.nvars,
                last < self.problem_stack@.len(),
                last + 1 <= j <= self.nvars,
                forall|e: int| 0 <= e <= last ==> #[trigger] self.cursor()[e] == c0[e],
                forall|e: int| last < e < j ==> #[trigger] self.branches@[e] == 0,
                c0.len() == self.nvars,
                c0 == old(self).cursor(),
            decreases self.nvars - j,
        {
            proof {
                if j < self.problem_stack@.len() {
                    assert(self.snapshot_ok(j as int));
                }
                assert(self.bounds()[j as int] >= 1) by {
                    assert(0 <= self.cursor()[j as int] < self.bounds()[j as int]);
                }
            }
            let ghost prev = *self;
            self.branches.set(j, 0);
            proof {
                Self::lemma_set_branch(prev, *self, j as int, 0);
                assert forall|e: int| 0 <= e <= last implies #[trigger] self.cursor()[e] == c0[e] by {
                    assert(prev.cursor()[e] == c0[e]);
                }
            }
            j = j + 1;
        }
        let mut cur: usize = last;
        loop
            invariant
                self.searching(),
                !self.done,
                self.problem_stack@ == old(self).problem_stack@,
                self.nvars == old(self).nvars,
                self.init == old(self).init,
                self.produced == old(self).produced,
                o == *old(self),
                o.searching(),
                o.cover_ok(),
                o.within_ok(last as int),
                forall|a: Seq<V>| o.solution(a) && #[trigger] o.agrees(a, cur + 1) ==> self.produced@.contains(a),
                forall|e: int| cur < e <= last ==> #[trigger] o.maxed(e),
                cur <= last < self.nvars,
                last < self.problem_stack@.len(),
                forall|e: int| 0 <= e <= cur ==> #[trigger] self.cursor()[e] == c0[e],
                forall|e: int| cur < e < self.nvars ==> #[trigger] self.branches@[e] == 0,
                c0.len() == self.nvars,
                c0 == old(self).cursor(),
            decreases cur,
        {
            proof {
                assert(self.snapshot_ok(cur as int));
                assert(self.problem_stack@[cur as int].doms()[cur as int]
                    == self.problem_stack@[cur as int].vars@[cur as int]@);
            }
            let n = self.problem_stack[cur].vars[cur].options.len();
            if self.branches[cur] + 1 != n {
                let b = self.branches[cur] + 1;
                let ghost prev = *self;
                proof {
                    assert(self.snapshot_ok(0));
                    let p0 = self.problem_stack@[0];
                    let pc = self.problem_stack@[cur as int];
                    assert(pc.doms()[cur as int].len() <= p0.doms()[cur as int].len());
                    assert(prev.cursor()[cur as int] == c0[cur as int]);
                    assert(self.branches@[cur as int] == o.branches@[cur as int]);
                    assert(self.branches@[cur as int] < pc.doms()[cur as int].len());
                    assert(o.branches@[cur as int] + 1 < o.size(cur as int));
                }
                self.branches.set(cur, b);
                proof {
                    Self::lemma_set_branch(prev, *self, cur as int, b);
                    assert(self.cursor()[cur as int] == c0[cur as int] + 1);
                    assert forall|e: int| 0 <= e < cur implies #[trigger] self.cursor()[e] == c0[e] by {
                        assert(prev.cursor()[e] == c0[e]);
                    }
                    assert(self.cursor().len() == c0.len());
                    assert forall|e: int| cur < e < self.nvars implies #[trigger] self.cursor()[e] == 0 by {
                        assert(self.branches@[e] == 0);
                    }
                }
                return Some(cur);
            }
            proof {
                assert(self.bounds()[cur as int] >= 1) by {
                    assert(0 <= self.cursor()[cur as int] < self.bounds()[cur as int]);
                }
                assert(self.branches@[cur as int] == o.branches@[cur as int]) by {
                    assert(self.cursor()[cur as int] == c0[cur as int]);
                }
                o.lemma_exhausted(cur as int, last as int, self.produced@);
                assert(o.maxed(cur as int));
            }
            let ghost prev = *self;
            self.branches.set(cur, 0);
            proof {
                Self::lemma_set_branch(prev, *self, cur as int, 0);
                assert forall|e: int| 0 <= e < cur implies #[trigger] self.cursor()[e] == c0[e] by {
                    assert(prev.cursor()[e] == c0[e]);
                }
            }
            if cur > 0 {
                cur = cur - 1;
            } else {
                self.done = true;
                proof {
                    assert forall|a: Seq<V>| #[trigger] o.solution(a) implies self.produced@.contains(a) by {
                        assert(o.agrees(a, 0));
                    }
                    assert forall|e: int| 0 <= e < self.nvars implies #[trigger] self.branches@[e] == 0 by {
                        if e == 0 {
                            assert(self.cursor()[0] == 0);
                        }
                    }
                }
                return None;
            }
        }
    }

    /// Searches from depth `start` for the next position of the cursor whose
    /// choices reduce without emptying a domain at every depth. `false`, and
    /// the end of the enumeration, where the cursor runs out.
    fn find_consistent(&mut self, start: usize) -> (r: bool)
        requires
            old(self).searching(),
            !old(self).done,
            start < old(self).nvars,
            start < old(self).problem_stack@.len(),
            forall|e: int| start < e < old(self).nvars ==> #[trigger] old(self).branches@[e] == 0,
            old(self).emit_ok(),
            old(self).sing_ok(start as int),
            old(self).chain_ok(start as int),
            old(self).constrs().len() == 0 ==> old(self).produced@.len() == rank(
                old(self).cursor(),
                old(self).bounds(),
                0,
            ),
            old(self).within_ok(start as int),
            all_distinct(old(self).init@) ==> old(self).produced@.no_duplicates(),
            all_distinct(old(self).init@) ==> old(self).increasing(),
        ensures
            final(self).wf(),
            final(self).produced == old(self).produced,
            final(self).keys() == old(self).keys(),
            final(self).constrs() == old(self).constrs(),
            final(self).init == old(self).init,
            final(self).nvars == old(self).nvars,
            final(self).problem_stack@[0] == old(self).problem_stack@[0],
            r == !final(self).done,
            r ==> rank(final(self).cursor(), final(self).bounds(), 0) >= rank(
                old(self).cursor(),
                old(self).bounds(),
                0,
            ),
    {
        let ghost p0 = self.problem_stack@[0];
        let ghost b0 = self.bounds();
        let ghost r0 = rank(self.cursor(), b0, 0);
        let ghost cons = self.constrs();
        let mut cur: usize = start;
        loop
            invariant
                self.searching(),
                !self.done,
                self.problem_stack@[0] == p0,
                p0 == old(self).problem_stack@[0],
                self.bounds() == b0,
                b0 == old(self).bounds(),
                r0 == rank(old(self).cursor(), old(self).bounds(), 0),
                self.constrs() == cons,
                cons == old(self).constrs(),
                self.keys() == old(self).keys(),
                self.init == old(self).init,
                self.nvars == old(self).nvars,
                self.produced == old(self).produced,
                all_distinct(self.init@) ==> self.produced@.no_duplicates(),
                all_distinct(self.init@) ==> self.increasing(),
                self.emit_ok(),
                self.sing_ok(cur as int),
                self.chain_ok(cur as int),
                cons.len() == 0 ==> self.branches@ == old(self).branches@,
                cons.len() == 0 ==> old(self).produced@.len() == rank(old(self).cursor(), old(self).bounds(), 0),
                self.within_ok(cur as int),
                cur <= self.nvars,
                cur < self.problem_stack@.len(),
                forall|e: int| cur < e < self.nvars ==> #[trigger] self.branches@[e] == 0,
                rank(self.cursor(), b0, 0) >= r0,
            decreases width(b0, 0) - rank(self.cursor(), b0, 0), self.nvars - cur,
        {
            proof {
                self.lemma_cursor_bounds();
            }
            if cur >= self.nvars {
                proof {
                    assert(self.snapshot_ok(0));
                    if cons.len() == 0 {
                        assert(self.branches@ == old(self).branches@);
                        assert(self.cursor() =~= old(self).cursor());
                        assert(self.bounds() == old(self).bounds());
                        assert(old(self).constrs().len() == 0);
                        assert(self.produced@.len() == old(self).produced@.len());
                        assert(rank(self.cursor(), self.bounds(), 0) == rank(old(self).cursor(), old(self).bounds(), 0));
                        assert(old(self).produced@.len() == rank(old(self).cursor(), old(self).bounds(), 0));
                        assert(self.produced@.len() == rank(self.cursor(), self.bounds(), 0));
                    }
                    assert(self.counted());
                }
                return true;
            }
            let ghost before = *self;
            self.problem_stack.truncate(cur + 1);
            proof {
                assert forall|d: int| 0 <= d < self.problem_stack@.len() implies #[trigger] self.snapshot_ok(d) by {
                    assert(before.snapshot_ok(d));
                    assert(self.problem_stack@[d] == before.problem_stack@[d]);
                }
                assert forall|d: int|
                    0 <= d < self.problem_stack@.len() && d < self.nvars implies #[trigger] self.branches@[d]
                        < self.problem_stack@[d].doms()[d].len() by {
                    assert(before.branches@[d] < before.problem_stack@[d].doms()[d].len());
                }
                assert(self.snapshot_ok(cur as int));
                Self::lemma_frame(before, *self, cur as int);
            }
            let mut csp = self.problem_stack[cur].snapshot();
            let which = self.branches[cur];
            let ghost pd = csp.doms();
            csp.restrict(cur, which);
            let ghost restricted = csp.doms();
            let red = csp.reduce();
            if red.is_none() {
                let ghost c1 = self.cursor();
                let ghost o = *self;
                proof {
                    if cons.len() == 0 {
                        assert(fixpoint(restricted, cons) == Some(restricted));
                    }
                    assert(self.snapshot_ok(0));
                    assert(self.snapshot_ok(cur as int));
                    assert forall|a: Seq<V>| self.solution(a) && #[trigger] self.agrees(a, cur + 1) implies self.produced@.contains(a) by {
                        assert(self.agrees(a, cur as int));
                        assert(self.within_at(a, cur as int));
                        assert forall|k: int| 0 <= k < a.len() implies #[trigger] restricted[k].contains(a[k]) by {
                            if k == cur {
                                assert(a[k] == self.ch(cur as int));
                                assert(restricted[k][0] == a[k]);
                            } else {
                                assert(pd[k].contains(a[k]));
                            }
                        }
                        lemma_reduce_keeps_solution(restricted, cons, a);
                    }
                }
                match self.incr_branches(cur) {
                    None => {
                        proof {
                            assert forall|a: Seq<V>| #[trigger] self.produced@.contains(a) implies self.solution(a) by {
                                assert(o.produced@.contains(a));
                            }
                            assert forall|a: Seq<V>| self.solution(a) implies #[trigger] self.produced@.contains(a) by {
                                assert(o.solution(a));
                            }
                        }
                        return false;
                    },
                    Some(t) => {
                        proof {
                            lemma_advance_rank(c1, self.cursor(), b0, t as int, 0);
                            self.lemma_cursor_bounds();
                            Self::lemma_advance_emit(o, *self, t as int);
                            Self::lemma_advance_keeps(o, *self, t as int, cur as int);
                        }
                        cur = t;
                    },
                }
            } else {
                proof {
                    lemma_restrict_shrunk(pd, cur as int, which as int);
                    lemma_fixpoint_shrinks(restricted, cons);
                    let e = csp.doms();
                    lemma_shrunk_trans(self.init@, pd, restricted);
                    lemma_shrunk_trans(self.init@, restricted, e);
                    lemma_shrunk_trans(p0.doms(), pd, restricted);
                    lemma_shrunk_trans(p0.doms(), restricted, e);
                    assert(all_nonempty(restricted)) by {
                        assert forall|k: int| 0 <= k < restricted.len() implies #[trigger] restricted[k].len() >= 1 by {
                            if k != cur {
                                assert(pd[k].len() >= 1);
                            }
                        }
                    }
                    lemma_fixpoint_nonempty(restricted, cons);
                    if cons.len() == 0 {
                        assert(fixpoint(restricted, cons) == Some(restricted));
                        let ini = self.init@;
                        assert forall|e2: int| cur + 1 <= e2 < e.len() implies #[trigger] e[e2] == ini[e2] by {
                            assert(pd[e2] == ini[e2]);
                        }
                    }
                    if all_distinct(self.init@) {
                        assert(all_distinct(pd));
                        assert forall|k: int| 0 <= k < restricted.len() implies #[trigger] restricted[k].no_duplicates() by {
                            if k != cur {
                                assert(pd[k].no_duplicates());
                            }
                        }
                        lemma_fixpoint_distinct(restricted, cons);
                        let ini = self.init@;
                        assert(all_sorted(pd, ini));
                        assert forall|k: int| 0 <= k < restricted.len() implies #[trigger] sorted_in(restricted[k], ini[k]) by {
                            assert(sorted_in(pd[k], ini[k]));
                            if k == cur {
                                assert(restricted[k][0] == pd[k][which as int]);
                                assert(ini[k].contains(pd[k][which as int]));
                            }
                        }
                        lemma_fixpoint_sorted(restricted, cons, ini);
                    }
                    assert forall|k: int| 0 <= k < cur + 1 implies #[trigger] e[k].len() == 1 by {
                        assert(e[k].len() <= restricted[k].len());
                        assert(e[k].len() >= 1);
                        if k != cur {
                            assert(pd[k].len() == 1);
                        }
                    }
                }
                let ghost nd = csp.doms();
                let ghost before = *self;
                self.problem_stack.push(csp);
                proof {
                    Self::lemma_frame(before, *self, cur as int);
                    assert(self.problem_stack@[cur + 1].doms() == nd);
                    assert forall|d: int|
                        0 <= d < cur + 1 && d + 1 < self.problem_stack@.len() implies fixpoint(
                            #[trigger] self.problem_stack@[d].doms().update(d, seq![self.ch(d)]),
                            self.constrs(),
                        ) == Some(self.problem_stack@[d + 1].doms()) by {
                        if d == cur {
                            assert(self.problem_stack@[d] == before.problem_stack@[d]);
                            assert(self.ch(d) == pd[d][which as int]);
                            assert(self.problem_stack@[d].doms().update(d, seq![self.ch(d)]) == restricted);
                        }
                    }
                    assert forall|e2: int| 0 <= e2 <= cur implies #[trigger] self.ch(e2) == before.ch(e2) by {
                        assert(self.problem_stack@[e2] == before.problem_stack@[e2]);
                    }
                    assert forall|k: int| 0 <= k < cur + 1 implies #[trigger] nd[k] == seq![self.ch(k)] by {
                        if k < cur {
                            assert(pd[k] == seq![before.ch(k)]);
                        }
                        assert(restricted[k] == seq![self.ch(k)]);
                        assert(nd[k].len() == 1);
                        assert(nd[k].contains(nd[k][0]));
                        assert(restricted[k].contains(nd[k][0]));
                        assert(nd[k] =~= seq![self.ch(k)]);
                    }
                    assert forall|d: int, e2: int|
                        0 <= e2 < d <= cur + 1 && d < self.problem_stack@.len() implies #[trigger] self.problem_stack@[d].doms()[e2]
                            == seq![self.ch(e2)] by {
                        if d <= cur {
                            assert(self.sing_ok(cur as int));
                        }
                    }
                    assert forall|d: int, a: Seq<V>|
                        0 <= d <= cur + 1 && d < self.problem_stack@.len() && self.solution(a) && self.agrees(a, d)
                            implies #[trigger] self.within_at(a, d) by {
                        if d == cur + 1 {
                            assert(self.agrees(a, cur as int));
                            assert(self.within_at(a, cur as int));
                            assert forall|k: int| 0 <= k < a.len() implies #[trigger] restricted[k].contains(a[k]) by {
                                if k == cur {
                                    assert(a[k] == self.ch(cur as int));
                                    assert(restricted[k][0] == a[k]);
                                } else {
                                    assert(pd[k].contains(a[k]));
                                }
                            }
                            lemma_reduce_keeps_solution(restricted, cons, a);
                        }
                    }
                    assert forall|d: int| 0 <= d < self.problem_stack@.len() implies #[trigger] self.snapshot_ok(d) by {
                        if d < before.problem_stack@.len() {
                            assert(before.snapshot_ok(d));
                            assert(self.problem_stack@[d] == before.problem_stack@[d]);
                        }
                    }
                    assert forall|d: int|
                        0 <= d < self.problem_stack@.len() && d < self.nvars implies #[trigger] self.branches@[d]
                            < self.problem_stack@[d].doms()[d].len() by {
                        if d < before.problem_stack@.len() {
                            assert(before.branches@[d] < before.problem_stack@[d].doms()[d].len());
                        } else {
                            assert(self.snapshot_ok(d));
                            assert(self.problem_stack@[d].doms()[d].len() >= 1);
                        }
                    }
                }
                cur = cur + 1;
            }
        }
    }

    /// Advances past the current solution to the next one.
    fn incr_consistent(&mut self) -> (r: bool)
        requires
            old(self).problem_stack@.len() == old(self).nvars + 1,
            old(self).problem_stack@[0].wf(),
            old(self).nvars == old(self).keys().len(),
            !old(self).done,
            old(self).searching(),
            old(self).sing_ok(old(self).nvars as int),
            old(self).chain_ok(old(self).nvars as int),
            old(self).within_ok(old(self).nvars as int),
            old(self).cover_ok(),
            old(self).constrs().len() == 0 ==> old(self).produced@.len() == rank(
                old(self).cursor(),
                old(self).bounds(),
                0,
            ) + 1,
            forall|a: Seq<V>|
                #[trigger] old(self).produced@.contains(a) ==> old(self).solution(a) && (old(
                    self,
                ).passed(a) || old(self).agrees(a, old(self).nvars as int)),
            old(self).sub_done(old(self).nvars - 1),
            all_distinct(old(self).init@) ==> old(self).produced@.no_duplicates(),
            all_distinct(old(self).init@) ==> old(self).increasing(),
        ensures
            final(self).wf(),
            final(self).keys() == old(self).keys(),
            final(self).constrs() == old(self).constrs(),
            final(self).init == old(self).init,
            final(self).produced == old(self).produced,
            final(self).problem_stack@[0] == old(self).problem_stack@[0],
            r == !final(self).done,
            r ==> rank(final(self).cursor(), final(self).bounds(), 0) > rank(
                old(self).cursor(),
                old(self).bounds(),
                0,
            ),
    {
        proof {
            assert(self.snapshot_ok(0));
            assert forall|a: Seq<V>| #[trigger] self.produced@.contains(a) implies self.solution(a) by {}
        }
        if self.nvars == 0 {
            proof {
                if self.constrs().len() == 0 {
                    self.lemma_unconstrained_sizes();
                }
                let s1: int = self.nvars - 1;
                assert forall|a: Seq<V>| self.solution(a) implies #[trigger] self.produced@.contains(a) by {
                    assert(self.agrees(a, s1 + 1));
                }
            }
            self.done = true;
            return false;
        }
        let last = self.nvars - 1;
        let ghost c1 = self.cursor();
        let ghost o = *self;
        match self.incr_branches(last) {
            None => {
                proof {
                    assert forall|a: Seq<V>| #[trigger] self.produced@.contains(a) implies self.solution(a) by {
                        assert(o.produced@.contains(a));
                    }
                    assert forall|a: Seq<V>| self.solution(a) implies #[trigger] self.produced@.contains(a) by {
                        assert(o.solution(a));
                    }
                    if o.constrs().len() == 0 {
                        o.lemma_unconstrained_sizes();
                        let b = o.bounds();
                        assert forall|e: int| 0 <= e < b.len() implies #[trigger] c1[e] == b[e] - 1 by {
                            assert(o.maxed(e));
                        }
                        lemma_rank_maxed(c1, b, 0);
                        lemma_width_product(o.init@);
                    }
                }
                false
            },
            Some(s) => {
                proof {
                    lemma_advance_rank(c1, self.cursor(), self.bounds(), s as int, 0);
                    assert forall|a: Seq<V>| #[trigger] self.produced@.contains(a) implies o.solution(a) && (
                    o.passed(a) || o.agrees(a, s + 1)) by {
                        assert(o.produced@.contains(a));
                        if !o.passed(a) {
                            assert(o.agrees(a, o.nvars as int));
                            assert forall|e: int| 0 <= e < s + 1 implies #[trigger] a[e] == o.ch(e) by {}
                        }
                    }
                    Self::lemma_advance_emit(o, *self, s as int);
                    Self::lemma_advance_keeps(o, *self, s as int, o.nvars as int);
                    assert forall|e: int| s < e < self.nvars implies #[trigger] self.branches@[e] == 0 by {}
                    if o.constrs().len() == 0 {
                        o.lemma_unconstrained_sizes();
                        let b = o.bounds();
                        assert forall|e: int| s < e < b.len() implies #[trigger] c1[e] == b[e] - 1 by {
                            assert(o.maxed(e));
                        }
                        lemma_advance_rank_exact(c1, self.cursor(), b, s as int, 0);
                    }
                }
                self.find_consistent(s)
            },
        }
    }

    /// The assignment at the top of the stack, in key order.
    fn result(&self) -> (r: Vec<(K, V)>)
        requires
            self.wf(),
            !self.done,
        ensures
            keys_of(r@) == self.keys(),
            values_of(r@) == self.current(),
            is_solution(values_of(r@), self.init(), self.constrs()),
    {
        let n = self.nvars;
        let top = &self.problem_stack[n];
        proof {
            assert(self.snapshot_ok(n as int));
            lemma_stable_singletons_satisfy(top.doms(), self.constrs());
        }
        let mut out: Vec<(K, V)> = Vec::new();
        let mut k: usize = 0;
        while k < n
            invariant
                self.wf(),
                !self.done,
                n == self.nvars,
                *top == self.problem_stack@[n as int],
                top.wf(),
                top.keys@ == self.keys(),
                forall|j: int| 0 <= j < n ==> #[trigger] top.doms()[j].len() == 1,
                k <= n,
                out@.len() == k,
                forall|j: int| 0 <= j < k ==> #[trigger] out@[j] == (top.keys@[j], top.doms()[j][0]),
            decreases n - k,
        {
            assert(top.doms()[k as int] == top.vars@[k as int]@);
            assert(top.doms()[k as int].len() == 1);
            out.push((top.keys[k], top.vars[k].options[0]));
            k = k + 1;
        }
        proof {
            let e = top.doms();
            assert(keys_of(out@) =~= self.keys());
            assert(values_of(out@) =~= firsts(e));
            assert(self.snapshot_ok(n as int));
            let a = firsts(e);
            assert forall|j: int| 0 <= j < a.len() implies #[trigger] self.init@[j].contains(a[j]) by {
                assert(e[j].contains(a[j]));
            }
            assert forall|j: int| 0 <= j < a.len() implies #[trigger] a[j] == self.current()[j] by {
                assert(e[j] == seq![self.ch(j)]);
            }
            assert(a =~= self.current());
        }
        out
    }

    /// The next solution, as pairs of key and value in key order; `None`
    /// once every solution has been produced. Where no domain repeats a
    /// value, solutions come in increasing lexicographic order of the
    /// positions of their values in the domains.
    pub fn next(&mut self) -> (r: Option<Vec<(K, V)>>)
        requires
            old(self).wf(),
        ensures
            final(self).wf(),
            final(self).keys() == old(self).keys(),
            final(self).constrs() == old(self).constrs(),
            final(self).init() == old(self).init(),
            r is None <==> old(self).is_done(),
            r is None ==> final(self).is_done(),
            match r {
                Some(a) => {
                    &&& keys_of(a@) == old(self).keys()
                    &&& is_solution(values_of(a@), old(self).init(), old(self).constrs())
                    &&& final(self).produced() == old(self).produced().push(values_of(a@))
                    &&& all_distinct(old(self).init()) ==> forall|i: int|
                        0 <= i < old(self).produced().len() ==> lex_lt(
                            positions(#[trigger] old(self).produced()[i], old(self).init()),
                            positions(values_of(a@), old(self).init()),
                        )
                    &&& final(self).remaining() < old(self).remaining()
                },
                None => final(self).produced() == old(self).produced(),
            },
            final(self).is_done() ==> forall|a: Seq<V>|
                is_solution(a, final(self).init(), final(self).constrs())
                    ==> #[trigger] final(self).produced().contains(a),
    {
        if self.done {
            return None;
        }
        let res = self.result();
        let ghost before = *self;
        proof {
            self.lemma_cursor_bounds();
        }
        self.produced = Ghost(self.produced@.push(values_of(res@)));
        proof {
            Self::lemma_produced_frame(before, *self);
            let cur = before.current();
            assert forall|e: int| 0 <= e < self.nvars implies #[trigger] cur[e] == self.ch(e) by {}
            assert(self.agrees(cur, self.nvars as int));
            assert forall|a: Seq<V>| #[trigger] self.produced@.contains(a) implies self.solution(a) && (
            self.passed(a) || self.agrees(a, self.nvars as int)) by {
                if a != cur {
                    let i = choose|i: int| 0 <= i < self.produced@.len() && self.produced@[i] == a;
                    assert(before.produced@[i] == a);
                    assert(before.produced@.contains(a));
                    assert(before.passed(a));
                    let d = choose|d: int| before.passed_at(a, d);
                    assert(self.passed_at(a, d));
                }
            }
            assert(self.produced@[self.produced@.len() - 1] == cur);
            if all_distinct(self.init@) {
                let ini = self.init@;
                assert forall|i: int| 0 <= i < before.produced@.len() implies lex_lt(
                    positions(#[trigger] before.produced@[i], ini),
                    positions(cur, ini),
                ) by {
                    let p = before.produced@[i];
                    assert(before.produced@.contains(p));
                    assert(before.passed(p));
                    let d = choose|d: int| before.passed_at(p, d);
                    assert(before.snapshot_ok(d));
                    let dom = before.problem_stack@[d].doms()[d];
                    let b = before.branches@[d] as int;
                    let j = choose|j: int| 0 <= j < dom.take(b).len() && dom.take(b)[j] == p[d];
                    assert(dom[j] == p[d]);
                    assert(cur[d] == dom[b]);
                    assert(sorted_in(dom, ini[d]));
                    assert(ini[d].index_of(dom[j]) < ini[d].index_of(dom[b]));
                    let x = positions(p, ini);
                    let y = positions(cur, ini);
                    assert(p.len() == self.nvars);
                    assert forall|e: int| 0 <= e < d implies x[e] == y[e] by {
                        assert(p[e] == before.ch(e));
                    }
                    assert(x[d] < y[d]);
                }
                let pr = self.produced@;
                assert forall|i: int, j: int| 0 <= i < j < pr.len() implies lex_lt(
                    positions(#[trigger] pr[i], ini),
                    positions(#[trigger] pr[j], ini),
                ) by {
                    assert(pr[i] == before.produced@[i]);
                    if j < pr.len() - 1 {
                        assert(pr[j] == before.produced@[j]);
                    }
                }
                assert(self.increasing());
            }
            if all_distinct(self.init@) {
                assert(!before.produced@.contains(cur)) by {
                    if before.produced@.contains(cur) {
                        assert(before.passed(cur));
                        let d = choose|d: int| before.passed_at(cur, d);
                        assert(before.snapshot_ok(d));
                        let dom = before.problem_stack@[d].doms()[d];
                        let b = before.branches@[d] as int;
                        assert(dom.no_duplicates());
                        assert(cur[d] == dom[b]);
                        let i = choose|i: int| 0 <= i < dom.take(b).len() && dom.take(b)[i] == cur[d];
                        assert(dom[i] == dom[b]);
                    }
                }
                let pr = self.produced@;
                assert forall|i: int, j: int| 0 <= i < pr.len() && 0 <= j < pr.len() && i != j implies pr[i] != pr[j] by {
                    if i < pr.len() - 1 && j < pr.len() - 1 {
                        assert(before.produced@[i] != before.produced@[j]);
                    } else if i < pr.len() - 1 {
                        assert(before.produced@.contains(before.produced@[i]));
                    } else if j < pr.len() - 1 {
                        assert(before.produced@.contains(before.produced@[j]));
                    }
                }
            }
            assert forall|a: Seq<V>| self.solution(a) && #[trigger] self.agrees(a, self.nvars - 1 + 1)
                implies self.produced@.contains(a) by {
                assert(a.len() == self.nvars);
                assert(a =~= cur);
            }
            assert forall|a: Seq<V>| self.solution(a) && #[trigger] self.passed(a) implies self.produced@.contains(a) by {
                let d = choose|d: int| self.passed_at(a, d);
                assert(before.passed_at(a, d));
                assert(before.passed(a));
                assert(before.produced@.contains(a));
                let i = choose|i: int| 0 <= i < before.produced@.len() && before.produced@[i] == a;
                assert(self.produced@[i] == a);
            }
        }
        let more = self.incr_consistent();
        self.done = !more;
        proof {
            assert(self.bounds() == before.bounds());
            if more {
                self.lemma_cursor_bounds();
            }
        }
        Some(res)
    }

    /// Every produced assignment is a solution of the problem as it was handed
    /// in, and once the enumeration has ended every solution has been produced.
    pub proof fn lemma_produces_exactly_solutions(&self)
        requires
            self.wf(),
        ensures
            forall|a: Seq<V>| #[trigger]
                self.produced().contains(a) ==> is_solution(a, self.init(), self.constrs()),
            self.is_done() ==> forall|a: Seq<V>|
                is_solution(a, self.init(), self.constrs()) ==> #[trigger] self.produced().contains(a),
    {
    }

    /// Where no domain repeats a value, no assignment is produced twice.
    pub proof fn lemma_no_repeats(&self)
        requires
            self.wf(),
            all_distinct(self.init()),
        ensures
            self.produced().no_duplicates(),
    {
    }

    /// Without constraints, the ended enumeration has produced as many
    /// assignments as the product of the domain sizes, repeated options
    /// included.
    pub proof fn lemma_unconstrained_count(&self)
        requires
            self.wf(),
            self.is_done(),
            self.constrs().len() == 0,
        ensures
            self.produced().len() == product(self.init()),
    {
    }

    /// Where no domain repeats a value, the assignments come in strictly
    /// increasing lexicographic order of their positions in the domains as
    /// handed in; with the completeness law this fixes the whole sequence.
    pub proof fn lemma_produced_in_order(&self)
        requires
            self.wf(),
            all_distinct(self.init()),
        ensures
            forall|i: int, j: int|
                0 <= i < j < self.produced().len() ==> lex_lt(
                    positions(#[trigger] self.produced()[i], self.init()),
                    positions(#[trigger] self.produced()[j], self.init()),
                ),
    {
    }
}

} // verus!
