use vstd::prelude::*;

use crate::domain::DVar;
use crate::model::{
    cons_in_range, fixpoint, is_solution, lemma_revise_take, lemma_shrunk_trans, lemma_step_shrinks,
    lemma_sweep_none_after, lemma_sweep_shrinks, lemma_total_le, revise, shrunk, step, supported,
    sweep, total,
};
use crate::relation::{Relation, VarKey};
use crate::solver::CSPSolution;

verus! {

/// A directed constraint: each option of variable `x` needs a value of
/// variable `y` that stands in `rel` with it. Variables are named by their
/// position among the problem's keys.
#[derive(Clone, Copy)]
pub struct Constraint<R> {
    pub x: usize,
    pub y: usize,
    pub rel: R,
}

/// A problem: keys in insertion order, the domain of each key at the same
/// position, and the constraints in insertion order.
pub struct CSP<K, V, R> {
    pub keys: Vec<K>,
    pub vars: Vec<DVar<V>>,
    pub constrs: Vec<Constraint<R>>,
}

impl<K: VarKey + Copy, V: Copy, R: Relation<V> + Copy> CSP<K, V, R> {
    /// The domains, by key position.
    pub open spec fn doms(&self) -> Seq<Seq<V>> {
        self.vars@.map_values(|d: DVar<V>| d@)
    }

    /// Keys are distinct, each has a domain, and constraints name known keys.
    pub open spec fn wf(&self) -> bool {
        &&& self.keys@.len() == self.vars@.len()
        &&& forall|i: int, j: int|
            0 <= i < j < self.keys@.len() ==> self.keys@[i] != self.keys@[j]
        &&& cons_in_range(self.constrs@, self.keys@.len())
    }

    pub fn new() -> (r: CSP<K, V, R>)
        ensures
            r.wf(),
            r.keys@.len() == 0,
            r.constrs@.len() == 0,
    {
        CSP { keys: Vec::new(), vars: Vec::new(), constrs: Vec::new() }
    }

    /// The position of `key` among the keys.
    pub fn position(&self, key: &K) -> (r: Option<usize>)
        requires
            self.wf(),
        ensures
            match r {
                Some(i) => i < self.keys@.len() && self.keys@[i as int] == *key,
                None => !self.keys@.contains(*key),
            },
    {
        let mut i: usize = 0;
        while i < self.keys.len()
            invariant
                i <= self.keys@.len(),
                forall|j: int| 0 <= j < i ==> self.keys@[j] != *key,
            decreases self.keys@.len() - i,
        {
            if self.keys[i].same(key) {
                return Some(i);
            }
            i = i + 1;
        }
        None
    }

    /// Gives `key` the domain `options`; a key added again takes the new options.
    pub fn add_var(&mut self, key: K, options: Vec<V>)
        requires
            old(self).wf(),
        ensures
            final(self).wf(),
            final(self).constrs@ == old(self).constrs@,
            old(self).keys@.contains(key) ==> final(self).keys@ == old(self).keys@
                && final(self).doms() == old(self).doms().update(
                old(self).keys@.index_of(key),
                options@,
            ),
            !old(self).keys@.contains(key) ==> final(self).keys@ == old(self).keys@.push(key)
                && final(self).doms() == old(self).doms().push(options@),
    {
        let var = DVar::new(options);
        match self.position(&key) {
            Some(i) => {
                self.vars.set(i, var);
                proof {
                    assert(self.keys@.index_of(key) == i) by {
                        assert(self.keys@[i as int] == key);
                    }
                    assert(self.doms() =~= old(self).doms().update(i as int, options@));
                }
            },
            None => {
                self.keys.push(key);
                self.vars.push(var);
                proof {
                    assert(self.doms() =~= old(self).doms().push(options@));
                }
            },
        }
    }

    /// Appends the constraint that each option of `key1` has a partner in
    /// `key2` under `constr`.
    pub fn add_constr(&mut self, key1: K, key2: K, constr: R)
        requires
            old(self).wf(),
            old(self).keys@.contains(key1),
            old(self).keys@.contains(key2),
        ensures
            final(self).wf(),
            final(self).keys@ == old(self).keys@,
            final(self).doms() == old(self).doms(),
            final(self).constrs@ == old(self).constrs@.push(
                Constraint {
                    x: old(self).keys@.index_of(key1) as usize,
                    y: old(self).keys@.index_of(key2) as usize,
                    rel: constr,
                },
            ),
    {
        let x = self.position(&key1).unwrap();
        let y = self.position(&key2).unwrap();
        proof {
            assert(self.keys@.index_of(key1) == x) by {
                assert(self.keys@[x as int] == key1);
            }
            assert(self.keys@.index_of(key2) == y) by {
                assert(self.keys@[y as int] == key2);
            }
        }
        self.constrs.push(Constraint { x, y, rel: constr });
    }

    /// Fixes the domain of `key` to the single value `what`.
    pub fn set(&mut self, key: &K, what: &V)
        requires
            old(self).wf(),
            old(self).keys@.contains(*key),
        ensures
            final(self).wf(),
            final(self).keys@ == old(self).keys@,
            final(self).constrs@ == old(self).constrs@,
            final(self).doms() == old(self).doms().update(
                old(self).keys@.index_of(*key),
                seq![*what],
            ),
    {
        let i = self.position(key).unwrap();
        proof {
            assert(self.keys@.index_of(*key) == i) by {
                assert(self.keys@[i as int] == *key);
            }
        }
        let mut var = DVar::new(Vec::new());
        var.set(what);
        self.vars.set(i, var);
        assert(self.doms() =~= old(self).doms().update(i as int, seq![*what]));
    }

    /// The current options of `key`, if it is a key of the problem.
    pub fn options(&self, key: &K) -> (r: Option<Vec<V>>)
        requires
            self.wf(),
        ensures
            match r {
                Some(o) => self.keys@.contains(*key) && o@ == self.doms()[self.keys@.index_of(
                    *key,
                )],
                None => !self.keys@.contains(*key),
            },
    {
        match self.position(key) {
            Some(i) => {
                proof {
                    assert(self.keys@.index_of(*key) == i) by {
                        assert(self.keys@[i as int] == *key);
                    }
                }
                Some(self.vars[i].copy().options)
            },
            None => None,
        }
    }

    /// An independent copy: same keys, domains and constraints.
    pub fn snapshot(&self) -> (r: CSP<K, V, R>)
        ensures
            r.keys@ == self.keys@,
            r.doms() == self.doms(),
            r.constrs@ == self.constrs@,
    {
        let mut keys: Vec<K> = Vec::new();
        let mut vars: Vec<DVar<V>> = Vec::new();
        let mut i: usize = 0;
        while i < self.keys.len()
            invariant
                i <= self.keys@.len(),
                keys@ == self.keys@.take(i as int),
            decreases self.keys@.len() - i,
        {
            keys.push(self.keys[i]);
            i = i + 1;
            assert(keys@ =~= self.keys@.take(i as int));
        }
        let mut i: usize = 0;
        while i < self.vars.len()
            invariant
                i <= self.vars@.len(),
                vars@.len() == i,
                forall|k: int| 0 <= k < i ==> (#[trigger] vars@[k])@ == self.vars@[k]@,
            decreases self.vars@.len() - i,
        {
            vars.push(self.vars[i].copy());
            i = i + 1;
        }
        let mut constrs: Vec<Constraint<R>> = Vec::new();
        let mut i: usize = 0;
        while i < self.constrs.len()
            invariant
                i <= self.constrs@.len(),
                constrs@ == self.constrs@.take(i as int),
            decreases self.constrs@.len() - i,
        {
            constrs.push(self.constrs[i]);
            i = i + 1;
            assert(constrs@ =~= self.constrs@.take(i as int));
        }
        assert(keys@ =~= self.keys@);
        assert(constrs@ =~= self.constrs@);
        let r = CSP { keys, vars, constrs };
        assert(r.doms() =~= self.doms());
        r
    }

    /// Keeps only the option at index `which` of variable `i`.
    pub fn restrict(&mut self, i: usize, which: usize)
        requires
            old(self).wf(),
            i < old(self).keys@.len(),
            which < old(self).doms()[i as int].len(),
        ensures
            final(self).wf(),
            final(self).keys@ == old(self).keys@,
            final(self).constrs@ == old(self).constrs@,
            final(self).doms() == old(self).doms().update(
                i as int,
                seq![old(self).doms()[i as int][which as int]],
            ),
    {
        let mut var = self.vars[i].copy();
        var.restrict(which);
        self.vars.set(i, var);
        assert(self.doms() =~= old(self).doms().update(
            i as int,
            seq![old(self).doms()[i as int][which as int]],
        ));
    }

    /// Whether some option of `dy` stands in `rel` with `v`.
    fn has_support(rel: &R, v: &V, dy: &DVar<V>) -> (r: bool)
        ensures
            r == supported(*rel, *v, dy@),
    {
        let mut j: usize = 0;
        while j < dy.options.len()
            invariant
                j <= dy@.len(),
                forall|k: int| 0 <= k < j ==> !rel.spec_holds(*v, #[trigger] dy@[k]),
            decreases dy@.len() - j,
        {
            if rel.holds(v, &dy.options[j]) {
                return true;
            }
            j = j + 1;
        }
        false
    }

    /// The options of `dx` with a support in `dy` under `rel`, in order.
    fn revised(rel: &R, dx: &DVar<V>, dy: &DVar<V>) -> (r: Vec<V>)
        ensures
            r@ == revise(*rel, dx@, dy@),
    {
        let mut good: Vec<V> = Vec::new();
        let mut j: usize = 0;
        while j < dx.options.len()
            invariant
                j <= dx@.len(),
                good@ == revise(*rel, dx@.take(j as int), dy@),
            decreases dx@.len() - j,
        {
            let xo = dx.options[j];
            proof {
                lemma_revise_take(*rel, dx@, dy@, j as int);
            }
            if Self::has_support(rel, &xo, dy) {
                good.push(xo);
            }
            j = j + 1;
        }
        assert(dx@.take(j as int) =~= dx@);
        good
    }

    /// One pass over the constraints in order. `None` where a domain would
    /// become empty; otherwise whether any option was removed.
    fn sweep_once(&mut self) -> (r: Option<bool>)
        requires
            old(self).wf(),
        ensures
            final(self).wf(),
            final(self).keys@ == old(self).keys@,
            final(self).constrs@ == old(self).constrs@,
            match sweep(old(self).doms(), old(self).constrs@, old(self).constrs@.len()) {
                None => r is None,
                Some(e) => r == Some(total(e) < total(old(self).doms())) && final(self).doms()
                    == e,
            },
    {
        let ghost d0 = self.doms();
        let ghost cons = self.constrs@;
        let mut changed = false;
        let mut i: usize = 0;
        while i < self.constrs.len()
            invariant
                self.wf(),
                self.keys@ == old(self).keys@,
                self.constrs@ == cons,
                cons == old(self).constrs@,
                d0 == old(self).doms(),
                i <= cons.len(),
                cons_in_range(cons, d0.len()),
                sweep(d0, cons, i as nat) == Some(self.doms()),
                changed == (self.doms() != d0),
            decreases cons.len() - i,
        {
            let c = self.constrs[i];
            proof {
                assert(c.x < d0.len() && c.y < d0.len());
                lemma_sweep_shrinks(d0, cons, i as nat);
            }
            let good = Self::revised(&c.rel, &self.vars[c.x], &self.vars[c.y]);
            let ghost before = self.doms();
            if good.len() == 0 {
                proof {
                    assert(step(before, c) is None);
                    assert(sweep(d0, cons, cons.len()) is None) by {
                        lemma_sweep_none_after(d0, cons, (i + 1) as nat, cons.len());
                    }
                }
                return None;
            }
            if good.len() < self.vars[c.x].options.len() {
                changed = true;
            }
            self.vars.set(c.x, DVar::new(good));
            proof {
                assert(self.doms() =~= before.update(c.x as int, good@));
                lemma_step_shrinks(before, c);
                if self.doms() == d0 {
                    assert(before[c.x as int].len() <= d0[c.x as int].len());
                }
            }
            i = i + 1;
        }
        proof {
            lemma_sweep_shrinks(d0, cons, cons.len());
            lemma_total_le(d0, self.doms());
            if self.doms() != d0 {
                if total(self.doms()) == total(d0) {
                    assert(self.doms() == d0);
                }
            }
        }
        Some(changed)
    }

    /// Prunes the domains to a fixpoint of the constraints. `None` where a
    /// domain would become empty; `Some(true)` where options were removed;
    /// `Some(false)` where the domains were already at a fixpoint.
    pub fn reduce(&mut self) -> (r: Option<bool>)
        requires
            old(self).wf(),
        ensures
            final(self).wf(),
            final(self).keys@ == old(self).keys@,
            final(self).constrs@ == old(self).constrs@,
            match fixpoint(old(self).doms(), old(self).constrs@) {
                None => r is None,
                Some(e) => r == Some(e != old(self).doms()) && final(self).doms() == e,
            },
    {
        let ghost d0 = self.doms();
        let ghost cons = self.constrs@;
        let mut reduced = false;
        loop
            invariant
                self.wf(),
                self.keys@ == old(self).keys@,
                self.constrs@ == cons,
                cons == old(self).constrs@,
                d0 == old(self).doms(),
                cons_in_range(cons, d0.len()),
                fixpoint(self.doms(), cons) == fixpoint(d0, cons),
                shrunk(d0, self.doms()),
                reduced == (self.doms() != d0),
            decreases total(self.doms()),
        {
            let ghost before = self.doms();
            let res = self.sweep_once();
            proof {
                if res is Some {
                    lemma_sweep_shrinks(before, cons, cons.len());
                    lemma_shrunk_trans(d0, before, self.doms());
                }
            }
            match res {
                None => {
                    return None;
                },
                Some(false) => {
                    proof {
                        lemma_total_le(before, self.doms());
                        lemma_sweep_shrinks(before, cons, cons.len());
                    }
                    return Some(reduced);
                },
                Some(true) => {
                    proof {
                        lemma_total_le(d0, before);
                        lemma_total_le(d0, self.doms());
                    }
                    reduced = true;
                },
            }
        }
    }

    /// A lazy enumerator of the solutions, taking the problem over.
    pub fn solutions(self) -> (r: CSPSolution<K, V, R>)
        requires
            self.wf(),
        ensures
            r.wf(),
            r.keys() == self.keys@,
            r.constrs() == self.constrs@,
            r.init() == self.doms(),
            r.produced() == Seq::<Seq<V>>::empty(),
            r.is_done() ==> forall|a: Seq<V>| !is_solution(a, self.doms(), self.constrs@),
    {
        CSPSolution::new(self)
    }
}


impl<K: VarKey + Copy, V: Copy, R: Relation<V> + Copy> Clone for CSP<K, V, R> {
    /// An independent copy with the same keys, domains and constraints.
    fn clone(&self) -> (r: Self)
        ensures
            r.keys@ == self.keys@,
            r.doms() == self.doms(),
            r.constrs@ == self.constrs@,
    {
        self.snapshot()
    }
}

/// A copy reduces as the problem it was taken from: the same outcome and the
/// same domains.
pub proof fn lemma_clone_reduce<K: VarKey + Copy, V: Copy, R: Relation<V> + Copy>(
    p: CSP<K, V, R>,
    q: CSP<K, V, R>,
)
    requires
        q.keys@ == p.keys@,
        q.doms() == p.doms(),
        q.constrs@ == p.constrs@,
    ensures
        fixpoint(q.doms(), q.constrs@) == fixpoint(p.doms(), p.constrs@),
{
}

} // verus!
