//! Two problem encodings built on the solver: N queens and sudoku.
use vstd::prelude::*;

use crate::model::satisfies;
use crate::problem::{Constraint, CSP};
use crate::relation::Relation;

verus! {

/// Relations over `i32` values.
#[derive(Clone, Copy)]
pub enum IntRel {
    /// The two values differ.
    Ne,
    /// The two values are equal.
    Eq,
    /// The values lie not exactly `d` apart.
    AbsDiffNe(i32),
    /// The first value is `c`, whatever the second.
    FirstIs(i32),
}

impl Relation<i32> for IntRel {
    open spec fn spec_holds(&self, x: i32, y: i32) -> bool {
        match *self {
            IntRel::Ne => x != y,
            IntRel::Eq => x == y,
            IntRel::AbsDiffNe(d) => abs(x - y) != d,
            IntRel::FirstIs(c) => x == c,
        }
    }

    fn holds(&self, x: &i32, y: &i32) -> (r: bool) {
        match *self {
            IntRel::Ne => *x != *y,
            IntRel::Eq => *x == *y,
            IntRel::AbsDiffNe(d) => {
                let diff: i64 = *x as i64 - *y as i64;
                let a: i64 = if diff < 0 {
                    -diff
                } else {
                    diff
                };
                a != d as i64
            },
            IntRel::FirstIs(c) => *x == c,
        }
    }
}

/// Relations over `usize` values used by the sudoku encoding.
#[derive(Clone, Copy)]
pub enum SudokuRel {
    /// The two values differ.
    Ne,
    /// Exactly one of: the first value is not `col`, the second is `val`.
    Place { col: usize, val: usize },
    /// `Place` with its arguments swapped.
    PlaceRev { col: usize, val: usize },
    /// The first value is not `col`, or the second is not `val`.
    Excl { col: usize, val: usize },
    /// `Excl` with its arguments swapped.
    ExclRev { col: usize, val: usize },
}

impl Relation<usize> for SudokuRel {
    open spec fn spec_holds(&self, x: usize, y: usize) -> bool {
        match *self {
            SudokuRel::Ne => x != y,
            SudokuRel::Place { col, val } => (x != col) != (y == val),
            SudokuRel::PlaceRev { col, val } => (y != col) != (x == val),
            SudokuRel::Excl { col, val } => x != col || y != val,
            SudokuRel::ExclRev { col, val } => y != col || x != val,
        }
    }

    fn holds(&self, x: &usize, y: &usize) -> (r: bool) {
        match *self {
            SudokuRel::Ne => *x != *y,
            SudokuRel::Place { col, val } => (*x != col) ^ (*y == val),
            SudokuRel::PlaceRev { col, val } => (*y != col) ^ (*x == val),
            SudokuRel::Excl { col, val } => *x != col || *y != val,
            SudokuRel::ExclRev { col, val } => *y != col || *x != val,
        }
    }
}

/// The absolute value of an integer.
pub open spec fn abs(v: int) -> int {
    if v < 0 {
        -v
    } else {
        v
    }
}

/// `1, 2, ..., n`.
pub open spec fn one_to(n: int) -> Seq<i32> {
    Seq::new(n as nat, |i: int| (i + 1) as i32)
}

/// Queens on rows `0..a.len()` in columns `a`: no two share a column or a diagonal.
pub open spec fn queens_ok(a: Seq<i32>) -> bool {
    forall|i: int, j: int|
        0 <= i < a.len() && 0 <= j < a.len() && i != j ==> #[trigger] a[i] != #[trigger] a[j]
            && abs(a[i] - a[j]) != abs(i - j)
}

fn one_to_vec(n: i32) -> (r: Vec<i32>)
    requires
        0 <= n < i32::MAX,
    ensures
        r@ == one_to(n as int),
{
    let mut v: Vec<i32> = Vec::new();
    let mut q: i32 = 1;
    while q <= n
        invariant
            n < i32::MAX,
            1 <= q <= n + 1,
            v@ == one_to(q - 1),
        decreases n + 1 - q,
    {
        v.push(q);
        q = q + 1;
        assert(v@ =~= one_to(q - 1));
    }
    v
}

/// The N queens problem: key `q` is the queen of row `q`, its value the
/// column; both run over `1..=n`.
pub fn n_queens(n: i32) -> (r: CSP<i32, i32, IntRel>)
    requires
        n < i32::MAX,
    ensures
        r.wf(),
        r.keys@ == one_to(if n < 0 { 0 } else { n as int }),
        forall|k: int| 0 <= k < r.keys@.len() ==> #[trigger] r.doms()[k] == one_to(n as int),
        forall|a: Seq<i32>|
            a.len() == r.keys@.len() ==> (satisfies(a, r.constrs@) <==> queens_ok(a)),
        forall|t: int| 0 <= t < r.constrs@.len() ==> pair_ok(#[trigger] r.constrs@[t], r.keys@.len() as int),
        forall|x: int, y: int|
            0 <= x < r.keys@.len() && 0 <= y < r.keys@.len() && x != y ==> #[trigger] has_pair(r.constrs@, x, y),
        r.constrs@.len() == 2 * r.keys@.len() * (r.keys@.len() - 1),
{
    let m: i32 = if n < 0 {
        0
    } else {
        n
    };
    let mut csp: CSP<i32, i32, IntRel> = CSP::new();
    let mut q: i32 = 1;
    while q <= m
        invariant
            m == (if n < 0 { 0 } else { n as int }),
            n < i32::MAX,
            1 <= q <= m + 1,
            csp.wf(),
            csp.constrs@.len() == 0,
            csp.keys@ == one_to(q - 1),
            forall|k: int| 0 <= k < csp.keys@.len() ==> #[trigger] csp.doms()[k] == one_to(n as int),
        decreases m + 1 - q,
    {
        let opts = one_to_vec(m);
        proof {
            assert(!csp.keys@.contains(q)) by {
                if csp.keys@.contains(q) {
                    let k = choose|k: int| 0 <= k < csp.keys@.len() && csp.keys@[k] == q;
                }
            }
        }
        csp.add_var(q, opts);
        q = q + 1;
        assert(csp.keys@ =~= one_to(q - 1));
    }
    let ghost keys = csp.keys@;
    let ghost doms = csp.doms();
    let mut i: i32 = 1;
    while i <= m
        invariant
            m == (if n < 0 { 0 } else { n as int }),
            n < i32::MAX,
            1 <= i <= m + 1,
            csp.wf(),
            csp.keys@ == keys,
            keys == one_to(m as int),
            csp.doms() == doms,
            forall|t: int| 0 <= t < csp.constrs@.len() ==> pair_ok(#[trigger] csp.constrs@[t], m as int),
            forall|x: int, y: int|
                0 <= x < i - 1 && 0 <= y < m && x != y ==> #[trigger] has_pair(csp.constrs@, x, y),
            csp.constrs@.len() == 2 * (m - 1) * (i - 1),
        decreases m + 1 - i,
    {
        let mut j: i32 = 1;
        while j <= m
            invariant
                m == (if n < 0 { 0 } else { n as int }),
                n < i32::MAX,
            n < i32::MAX,
                1 <= i <= m,
                1 <= j <= m + 1,
                csp.wf(),
                csp.keys@ == keys,
                keys == one_to(m as int),
                csp.doms() == doms,
                forall|t: int| 0 <= t < csp.constrs@.len() ==> pair_ok(#[trigger] csp.constrs@[t], m as int),
                forall|x: int, y: int|
                    0 <= x < i - 1 && 0 <= y < m && x != y ==> #[trigger] has_pair(csp.constrs@, x, y),
                forall|y: int| 0 <= y < j - 1 && i - 1 != y ==> #[trigger] has_pair(csp.constrs@, i - 1, y),
                csp.constrs@.len() == 2 * (m - 1) * (i - 1) + 2 * (j - 1) - (if i < j { 2int } else { 0 }),
            decreases m + 1 - j,
        {
            if i != j {
                let ghost before = csp.constrs@;
                proof {
                    lemma_index_of_one_to(m as int, i as int);
                    lemma_index_of_one_to(m as int, j as int);
                }
                csp.add_constr(i, j, IntRel::Ne);
                let d: i32 = if i > j {
                    i - j
                } else {
                    j - i
                };
                csp.add_constr(i, j, IntRel::AbsDiffNe(d));
                proof {
                    let c1 = csp.constrs@[before.len() as int];
                    let c2 = csp.constrs@[before.len() as int + 1];
                    assert(c1 == Constraint { x: (i - 1) as usize, y: (j - 1) as usize, rel: IntRel::Ne });
                    assert(c2 == Constraint {
                        x: (i - 1) as usize,
                        y: (j - 1) as usize,
                        rel: IntRel::AbsDiffNe(d),
                    });
                    assert(abs((i - 1) - (j - 1)) == d);
                    assert forall|x: int, y: int|
                        0 <= x < i - 1 && 0 <= y < m && x != y implies #[trigger] has_pair(csp.constrs@, x, y) by {
                        lemma_has_pair_grow(before, csp.constrs@, x, y);
                    }
                    assert forall|y: int| 0 <= y < j && i - 1 != y implies #[trigger] has_pair(csp.constrs@, i - 1, y) by {
                        if y < j - 1 {
                            lemma_has_pair_grow(before, csp.constrs@, i - 1, y);
                        } else {
                            assert(csp.constrs@[before.len() as int] == c1);
                            assert(csp.constrs@[before.len() as int + 1] == c2);
                        }
                    }
                    assert forall|t: int| 0 <= t < csp.constrs@.len() implies pair_ok(#[trigger] csp.constrs@[t], m as int) by {
                        if t < before.len() {
                            assert(pair_ok(before[t], m as int));
                        }
                    }
                }
            }
            j = j + 1;
        }
        proof {
            let (a, b) = (m as int, i as int);
            assert(2 * (a - 1) * (b - 1) + 2 * a - 2 == 2 * (a - 1) * b) by (nonlinear_arith);
        }
        i = i + 1;
    }
    proof {
        let a = m as int;
        assert(2 * (a - 1) * a == 2 * a * (a - 1)) by (nonlinear_arith);
        assert forall|a: Seq<i32>| a.len() == csp.keys@.len() implies (satisfies(a, csp.constrs@) <==> queens_ok(a)) by {
            lemma_queens_iff(csp.constrs@, a, m as int);
        }
    }
    csp
}

/// A queens constraint between two distinct rows below `m`.
pub open spec fn pair_ok(c: Constraint<IntRel>, m: int) -> bool {
    &&& c.x < m
    &&& c.y < m
    &&& c.x != c.y
    &&& (c.rel == IntRel::Ne || c.rel == IntRel::AbsDiffNe(abs(c.x - c.y) as i32))
}

/// Both queens constraints from row `x` to row `y` are present.
pub open spec fn has_pair(cons: Seq<Constraint<IntRel>>, x: int, y: int) -> bool {
    &&& cons.contains(Constraint { x: x as usize, y: y as usize, rel: IntRel::Ne })
    &&& cons.contains(
        Constraint { x: x as usize, y: y as usize, rel: IntRel::AbsDiffNe(abs(x - y) as i32) },
    )
}

proof fn lemma_index_of_one_to(m: int, q: int)
    requires
        1 <= q <= m,
        m < i32::MAX,
    ensures
        one_to(m).contains(q as i32),
        one_to(m).index_of(q as i32) == q - 1,
{
    assert(one_to(m)[q - 1] == q as i32);
}

proof fn lemma_has_pair_grow(a: Seq<Constraint<IntRel>>, b: Seq<Constraint<IntRel>>, x: int, y: int)
    requires
        has_pair(a, x, y),
        a.len() <= b.len(),
        forall|t: int| 0 <= t < a.len() ==> b[t] == a[t],
    ensures
        has_pair(b, x, y),
{
    let c1 = Constraint { x: x as usize, y: y as usize, rel: IntRel::Ne };
    let c2 = Constraint { x: x as usize, y: y as usize, rel: IntRel::AbsDiffNe(abs(x - y) as i32) };
    let t1 = choose|t: int| 0 <= t < a.len() && a[t] == c1;
    let t2 = choose|t: int| 0 <= t < a.len() && a[t] == c2;
    assert(b[t1] == c1);
    assert(b[t2] == c2);
}

proof fn lemma_queens_iff(cons: Seq<Constraint<IntRel>>, a: Seq<i32>, m: int)
    requires
        a.len() == m,
        0 <= m < i32::MAX,
        forall|t: int| 0 <= t < cons.len() ==> pair_ok(#[trigger] cons[t], m),
        forall|x: int, y: int| 0 <= x < m && 0 <= y < m && x != y ==> #[trigger] has_pair(cons, x, y),
    ensures
        satisfies(a, cons) <==> queens_ok(a),
{
    if satisfies(a, cons) {
        assert forall|i: int, j: int|
            0 <= i < a.len() && 0 <= j < a.len() && i != j implies #[trigger] a[i] != #[trigger] a[j]
                && abs(a[i] - a[j]) != abs(i - j) by {
            assert(has_pair(cons, i, j));
            let c1 = Constraint { x: i as usize, y: j as usize, rel: IntRel::Ne };
            let c2 = Constraint { x: i as usize, y: j as usize, rel: IntRel::AbsDiffNe(abs(i - j) as i32) };
            let t1 = choose|t: int| 0 <= t < cons.len() && cons[t] == c1;
            let t2 = choose|t: int| 0 <= t < cons.len() && cons[t] == c2;
            assert(cons[t1].rel.spec_holds(a[cons[t1].x as int], a[cons[t1].y as int]));
            assert(cons[t2].rel.spec_holds(a[cons[t2].x as int], a[cons[t2].y as int]));
        }
    }
    if queens_ok(a) {
        assert forall|t: int| 0 <= t < cons.len() implies (#[trigger] cons[t]).rel.spec_holds(
            a[cons[t].x as int],
            a[cons[t].y as int],
        ) by {
            assert(pair_ok(cons[t], m));
            let x = cons[t].x as int;
            let y = cons[t].y as int;
            assert(a[x] != a[y] && abs(a[x] - a[y]) != abs(x - y));
        }
    }
}


/// The digits `1..=9`.
pub open spec fn digits() -> Seq<usize> {
    Seq::new(9, |i: int| (i + 1) as usize)
}

/// A digit, `1..=9`.
pub open spec fn is_digit(v: int) -> bool {
    1 <= v <= 9
}

/// Every domain holds the digits.
pub open spec fn all_digits(doms: Seq<Seq<usize>>) -> bool {
    forall|k: int| 0 <= k < doms.len() ==> #[trigger] doms[k] == digits()
}

/// The keys hold every cell `(row, column)` of the grid.
pub open spec fn has_cells(ks: Seq<(usize, usize)>) -> bool {
    forall|i: usize, j: usize| is_digit(i as int) && is_digit(j as int) ==> #[trigger] ks.contains((i, j))
}

/// The keys hold `(10 + row, digit)`: where in that row the digit stands.
pub open spec fn has_row_places(ks: Seq<(usize, usize)>) -> bool {
    forall|i: usize, j: usize|
        is_digit(i as int) && is_digit(j as int) ==> #[trigger] ks.contains(((i + 10) as usize, j))
}

/// The keys hold `(digit, 10 + column)`: where in that column the digit stands.
pub open spec fn has_col_places(ks: Seq<(usize, usize)>) -> bool {
    forall|i: usize, j: usize|
        is_digit(i as int) && is_digit(j as int) ==> #[trigger] ks.contains((j, (i + 10) as usize))
}

/// `cons` holds the constraint that key `a` and key `b` differ.
pub open spec fn has_ne(
    cons: Seq<Constraint<SudokuRel>>,
    ks: Seq<(usize, usize)>,
    a: (usize, usize),
    b: (usize, usize),
) -> bool {
    cons.contains(
        Constraint { x: ks.index_of(a) as usize, y: ks.index_of(b) as usize, rel: SudokuRel::Ne },
    )
}

/// Any two cells of one row, and any two of one column, must differ.
pub open spec fn lines_differ(cons: Seq<Constraint<SudokuRel>>, ks: Seq<(usize, usize)>) -> bool {
    forall|r: usize, c1: usize, c2: usize|
        is_digit(r as int) && is_digit(c1 as int) && is_digit(c2 as int) && c1 != c2 ==> {
            &&& #[trigger] has_ne(cons, ks, (r, c1), (r, c2))
            &&& has_ne(cons, ks, (c1, r), (c2, r))
        }
}

/// `b` extends `a`.
pub open spec fn extends<T>(a: Seq<T>, b: Seq<T>) -> bool {
    a.len() <= b.len() && forall|t: int| 0 <= t < a.len() ==> b[t] == a[t]
}

proof fn lemma_lines_extend(a: Seq<Constraint<SudokuRel>>, b: Seq<Constraint<SudokuRel>>, ks: Seq<(usize, usize)>)
    requires
        lines_differ(a, ks),
        extends(a, b),
    ensures
        lines_differ(b, ks),
{
    assert forall|r: usize, c1: usize, c2: usize|
        is_digit(r as int) && is_digit(c1 as int) && is_digit(c2 as int) && c1 != c2 implies {
            &&& #[trigger] has_ne(b, ks, (r, c1), (r, c2))
            &&& has_ne(b, ks, (c1, r), (c2, r))
        } by {
        assert(has_ne(a, ks, (r, c1), (r, c2)));
        assert(has_ne(a, ks, (c1, r), (c2, r)));
        lemma_contains_extend(a, b, Constraint { x: ks.index_of((r, c1)) as usize, y: ks.index_of((r, c2)) as usize, rel: SudokuRel::Ne });
        lemma_contains_extend(a, b, Constraint { x: ks.index_of((c1, r)) as usize, y: ks.index_of((c2, r)) as usize, rel: SudokuRel::Ne });
    }
}

proof fn lemma_index_of_extend(ks1: Seq<(usize, usize)>, ks2: Seq<(usize, usize)>, a: (usize, usize))
    requires
        ks1.contains(a),
        extends(ks1, ks2),
        forall|i: int, j: int| 0 <= i < j < ks2.len() ==> ks2[i] != ks2[j],
    ensures
        ks2.index_of(a) == ks1.index_of(a),
{
    let i = ks1.index_of(a);
    assert(ks2[i] == a);
    assert(ks2.contains(a));
    let j = ks2.index_of(a);
    assert(ks2[j] == a);
}

proof fn lemma_lines_rekey(cons: Seq<Constraint<SudokuRel>>, ks1: Seq<(usize, usize)>, ks2: Seq<(usize, usize)>)
    requires
        lines_differ(cons, ks1),
        has_cells(ks1),
        extends(ks1, ks2),
        forall|i: int, j: int| 0 <= i < j < ks2.len() ==> ks2[i] != ks2[j],
    ensures
        lines_differ(cons, ks2),
{
    assert forall|r: usize, c1: usize, c2: usize|
        is_digit(r as int) && is_digit(c1 as int) && is_digit(c2 as int) && c1 != c2 implies {
            &&& #[trigger] has_ne(cons, ks2, (r, c1), (r, c2))
            &&& has_ne(cons, ks2, (c1, r), (c2, r))
        } by {
        assert(has_ne(cons, ks1, (r, c1), (r, c2)));
        assert(has_ne(cons, ks1, (c1, r), (c2, r)));
        lemma_index_of_extend(ks1, ks2, (r, c1));
        lemma_index_of_extend(ks1, ks2, (r, c2));
        lemma_index_of_extend(ks1, ks2, (c1, r));
        lemma_index_of_extend(ks1, ks2, (c2, r));
    }
}

proof fn lemma_contains_extend<T>(a: Seq<T>, b: Seq<T>, v: T)
    requires
        a.contains(v),
        extends(a, b),
    ensures
        b.contains(v),
{
    let t = choose|t: int| 0 <= t < a.len() && a[t] == v;
    assert(b[t] == v);
}

fn digits_vec() -> (r: Vec<usize>)
    ensures
        r@ == digits(),
{
    let mut v: Vec<usize> = Vec::new();
    let mut d: usize = 1;
    while d < 10
        invariant
            1 <= d <= 10,
            v@ =~= Seq::new((d - 1) as nat, |i: int| (i + 1) as usize),
        decreases 10 - d,
    {
        v.push(d);
        d = d + 1;
        assert(v@ =~= Seq::new((d - 1) as nat, |i: int| (i + 1) as usize));
    }
    v
}

/// Adds `key` with the digits as its domain.
fn add_digit_var(csp: &mut CSP<(usize, usize), usize, SudokuRel>, key: (usize, usize))
    requires
        old(csp).wf(),
        all_digits(old(csp).doms()),
    ensures
        final(csp).wf(),
        all_digits(final(csp).doms()),
        final(csp).keys@.contains(key),
        forall|k: (usize, usize)| old(csp).keys@.contains(k) ==> #[trigger] final(csp).keys@.contains(k),
        final(csp).constrs@ == old(csp).constrs@,
        extends(old(csp).keys@, final(csp).keys@),
        !old(csp).keys@.contains(key) ==> final(csp).keys@ == old(csp).keys@.push(key),
{
    let opts = digits_vec();
    csp.add_var(key, opts);
    proof {
        if old(csp).keys@.contains(key) {
            let i = old(csp).keys@.index_of(key);
            assert(csp.keys@[i] == key);
            assert forall|k: int| 0 <= k < csp.doms().len() implies #[trigger] csp.doms()[k] == digits() by {
                if k != i {
                    assert(old(csp).doms()[k] == digits());
                }
            }
        } else {
            assert(csp.keys@[csp.keys@.len() - 1] == key);
            assert forall|k: int| 0 <= k < csp.doms().len() implies #[trigger] csp.doms()[k] == digits() by {
                if k < old(csp).doms().len() {
                    assert(old(csp).doms()[k] == digits());
                }
            }
        }
        assert forall|k: (usize, usize)| old(csp).keys@.contains(k) implies #[trigger] csp.keys@.contains(k) by {
            let t = choose|t: int| 0 <= t < old(csp).keys@.len() && old(csp).keys@[t] == k;
            assert(csp.keys@[t] == k);
        }
    }
}

/// The key `(base + i, j)`, or `(j, base + i)` where `swap`.
pub open spec fn grid_key(base: usize, swap: bool, i: usize, j: usize) -> (usize, usize) {
    if swap {
        (j, (i + base) as usize)
    } else {
        ((i + base) as usize, j)
    }
}

/// `k` is a key `grid_key(base, swap, a, b)` for digits `a` and `b`.
pub open spec fn in_grid(k: (usize, usize), base: usize, swap: bool) -> bool {
    if swap {
        is_digit(k.0 as int) && is_digit(k.1 - base)
    } else {
        is_digit(k.0 - base) && is_digit(k.1 as int)
    }
}

/// `k` is a grid key whose digits `(a, b)` come before `(i, j)`.
pub open spec fn grid_before(k: (usize, usize), base: usize, swap: bool, i: int, j: int) -> bool {
    let a = if swap { k.1 - base } else { k.0 - base };
    let b = if swap { k.0 as int } else { k.1 as int };
    in_grid(k, base, swap) && (a < i || (a == i && b < j))
}

/// A key of the sudoku problem: a cell, a row place key or a column place key.
pub open spec fn sudoku_key(k: (usize, usize)) -> bool {
    in_grid(k, 0, false) || in_grid(k, 10, false) || in_grid(k, 10, true)
}

/// Adds a domain of digits for every key `(base + i, j)` (or `(j, base + i)`
/// where `swap`), with `i` and `j` digits.
fn add_grid_vars(csp: &mut CSP<(usize, usize), usize, SudokuRel>, base: usize, swap: bool)
    requires
        old(csp).wf(),
        all_digits(old(csp).doms()),
        base <= 10,
        forall|t: int| 0 <= t < old(csp).keys@.len() ==> !in_grid(#[trigger] old(csp).keys@[t], base, swap),
    ensures
        final(csp).keys@.len() == old(csp).keys@.len() + 81,
        forall|t: int|
            old(csp).keys@.len() <= t < final(csp).keys@.len() ==> in_grid(#[trigger] final(csp).keys@[t], base, swap),
        final(csp).wf(),
        all_digits(final(csp).doms()),
        forall|k: (usize, usize)| old(csp).keys@.contains(k) ==> #[trigger] final(csp).keys@.contains(k),
        forall|i: usize, j: usize|
            is_digit(i as int) && is_digit(j as int) ==> final(csp).keys@.contains(#[trigger] grid_key(base, swap, i, j)),
        final(csp).constrs@ == old(csp).constrs@,
        extends(old(csp).keys@, final(csp).keys@),
{
    let mut i: usize = 1;
    while i < 10
        invariant
            base <= 10,
            1 <= i <= 10,
            csp.wf(),
            all_digits(csp.doms()),
            csp.constrs@ == old(csp).constrs@,
            extends(old(csp).keys@, csp.keys@),
            forall|k: (usize, usize)| old(csp).keys@.contains(k) ==> #[trigger] csp.keys@.contains(k),
            forall|a: usize, b: usize|
                1 <= a < i && is_digit(b as int) ==> csp.keys@.contains(#[trigger] grid_key(base, swap, a, b)),
            forall|t: int| 0 <= t < old(csp).keys@.len() ==> !in_grid(#[trigger] old(csp).keys@[t], base, swap),
            csp.keys@.len() == old(csp).keys@.len() + 9 * (i - 1),
            forall|t: int|
                old(csp).keys@.len() <= t < csp.keys@.len() ==> grid_before(#[trigger] csp.keys@[t], base, swap, i as int, 0),
        decreases 10 - i,
    {
        let mut j: usize = 1;
        while j < 10
            invariant
                base <= 10,
                1 <= i < 10,
                1 <= j <= 10,
                csp.wf(),
                all_digits(csp.doms()),
                csp.constrs@ == old(csp).constrs@,
                extends(old(csp).keys@, csp.keys@),
                forall|k: (usize, usize)| old(csp).keys@.contains(k) ==> #[trigger] csp.keys@.contains(k),
                forall|a: usize, b: usize|
                    (1 <= a < i && is_digit(b as int)) || (a == i && 1 <= b < j)
                        ==> csp.keys@.contains(#[trigger] grid_key(base, swap, a, b)),
                forall|t: int| 0 <= t < old(csp).keys@.len() ==> !in_grid(#[trigger] old(csp).keys@[t], base, swap),
                csp.keys@.len() == old(csp).keys@.len() + 9 * (i - 1) + (j - 1),
                forall|t: int|
                    old(csp).keys@.len() <= t < csp.keys@.len() ==> grid_before(#[trigger] csp.keys@[t], base, swap, i as int, j as int),
            decreases 10 - j,
        {
            let key = if swap {
                (j, i + base)
            } else {
                (i + base, j)
            };
            let ghost before = csp.keys@;
            proof {
                assert(in_grid(key, base, swap));
                assert(!before.contains(key)) by {
                    if before.contains(key) {
                        let t = choose|t: int| 0 <= t < before.len() && before[t] == key;
                        if t < old(csp).keys@.len() {
                            assert(old(csp).keys@[t] == before[t]);
                        } else {
                            assert(grid_before(before[t], base, swap, i as int, j as int));
                        }
                    }
                }
            }
            add_digit_var(csp, key);
            proof {
                lemma_extends_trans(old(csp).keys@, before, csp.keys@);
                assert forall|t: int|
                    old(csp).keys@.len() <= t < csp.keys@.len() implies grid_before(#[trigger] csp.keys@[t], base, swap, i as int, j + 1) by {
                    if t < before.len() {
                        assert(csp.keys@[t] == before[t]);
                        assert(grid_before(before[t], base, swap, i as int, j as int));
                    }
                }
            }
            j = j + 1;
        }
        proof {
            assert forall|t: int|
                old(csp).keys@.len() <= t < csp.keys@.len() implies grid_before(#[trigger] csp.keys@[t], base, swap, i + 1, 0) by {
                assert(grid_before(csp.keys@[t], base, swap, i as int, 10));
            }
        }
        i = i + 1;
    }
    proof {
        assert forall|t: int|
            old(csp).keys@.len() <= t < csp.keys@.len() implies in_grid(#[trigger] csp.keys@[t], base, swap) by {
            assert(grid_before(csp.keys@[t], base, swap, 10, 0));
        }
    }
}


proof fn lemma_extends_trans<T>(a: Seq<T>, b: Seq<T>, c: Seq<T>)
    requires
        extends(a, b),
        extends(b, c),
    ensures
        extends(a, c),
{
}

/// Appends a constraint from `a` to `b`; the keys and domains stay.
fn push_constr(
    csp: &mut CSP<(usize, usize), usize, SudokuRel>,
    a: (usize, usize),
    b: (usize, usize),
    rel: SudokuRel,
)
    requires
        old(csp).wf(),
        old(csp).keys@.contains(a),
        old(csp).keys@.contains(b),
    ensures
        final(csp).wf(),
        final(csp).keys@ == old(csp).keys@,
        final(csp).doms() == old(csp).doms(),
        extends(old(csp).constrs@, final(csp).constrs@),
        final(csp).constrs@.last() == (Constraint {
            x: old(csp).keys@.index_of(a) as usize,
            y: old(csp).keys@.index_of(b) as usize,
            rel,
        }),
        final(csp).constrs@.len() == old(csp).constrs@.len() + 1,
{
    csp.add_constr(a, b, rel);
}

/// The pairs of cells in the same row or column handled before `(i, j, k)`
/// in loop order.
pub open spec fn lines_before(
    cons: Seq<Constraint<SudokuRel>>,
    ks: Seq<(usize, usize)>,
    i: int,
    j: int,
    k: int,
) -> bool {
    forall|r: usize, c1: usize, c2: usize|
        ((1 <= r < i && is_digit(c1 as int)) || (r == i && 1 <= c1 < j) || (r == i && c1 == j && 1
            <= c2 < k)) && is_digit(c2 as int) && c1 != c2 ==> {
            &&& #[trigger] has_ne(cons, ks, (r, c1), (r, c2))
            &&& has_ne(cons, ks, (c1, r), (c2, r))
        }
}

proof fn lemma_line_step(
    before: Seq<Constraint<SudokuRel>>,
    after: Seq<Constraint<SudokuRel>>,
    ks: Seq<(usize, usize)>,
    i: usize,
    j: usize,
    k: usize,
)
    requires
        lines_before(before, ks, i as int, j as int, k as int),
        extends(before, after),
        has_ne(after, ks, (i, j), (i, k)),
        has_ne(after, ks, (j, i), (k, i)),
    ensures
        lines_before(after, ks, i as int, j as int, k + 1),
{
    assert forall|r: usize, c1: usize, c2: usize|
        ((1 <= r < i && is_digit(c1 as int)) || (r == i && 1 <= c1 < j) || (r == i && c1 == j && 1
            <= c2 < k + 1)) && is_digit(c2 as int) && c1 != c2 implies {
            &&& #[trigger] has_ne(after, ks, (r, c1), (r, c2))
            &&& has_ne(after, ks, (c1, r), (c2, r))
        } by {
        if !(r == i && c1 == j && c2 == k) {
            assert(has_ne(before, ks, (r, c1), (r, c2)));
            assert(has_ne(before, ks, (c1, r), (c2, r)));
            lemma_contains_extend(before, after, Constraint { x: ks.index_of((r, c1)) as usize, y: ks.index_of((r, c2)) as usize, rel: SudokuRel::Ne });
            lemma_contains_extend(before, after, Constraint { x: ks.index_of((c1, r)) as usize, y: ks.index_of((c2, r)) as usize, rel: SudokuRel::Ne });
        }
    }
}

proof fn lemma_line_skip(cons: Seq<Constraint<SudokuRel>>, ks: Seq<(usize, usize)>, i: int, j: int)
    requires
        lines_before(cons, ks, i, j, j),
    ensures
        lines_before(cons, ks, i, j, j + 1),
{
}

/// Any two distinct cells of one row, and of one column, must differ.
fn add_line_constraints(csp: &mut CSP<(usize, usize), usize, SudokuRel>)
    requires
        old(csp).wf(),
        has_cells(old(csp).keys@),
    ensures
        final(csp).wf(),
        final(csp).keys@ == old(csp).keys@,
        final(csp).doms() == old(csp).doms(),
        extends(old(csp).constrs@, final(csp).constrs@),
        lines_differ(final(csp).constrs@, final(csp).keys@),
        final(csp).constrs@.len() == old(csp).constrs@.len() + 1296,
{
    let ghost ks = csp.keys@;
    let ghost ds = csp.doms();
    let ghost c0 = csp.constrs@;
    let mut i: usize = 1;
    while i < 10
        invariant
            1 <= i <= 10,
            csp.wf(),
            csp.keys@ == ks,
            ks == old(csp).keys@,
            has_cells(ks),
            csp.doms() == ds,
            ds == old(csp).doms(),
            c0 == old(csp).constrs@,
            extends(c0, csp.constrs@),
            forall|r: usize, c1: usize, c2: usize|
                1 <= r < i && is_digit(c1 as int) && is_digit(c2 as int) && c1 != c2 ==> {
                    &&& #[trigger] has_ne(csp.constrs@, ks, (r, c1), (r, c2))
                    &&& has_ne(csp.constrs@, ks, (c1, r), (c2, r))
                },
            csp.constrs@.len() == c0.len() + 144 * (i - 1),
        decreases 10 - i,
    {
        let mut j: usize = 1;
        while j < 10
            invariant
                1 <= i < 10,
                1 <= j <= 10,
                csp.wf(),
                csp.keys@ == ks,
                ks == old(csp).keys@,
                has_cells(ks),
                csp.doms() == ds,
                ds == old(csp).doms(),
                c0 == old(csp).constrs@,
                extends(c0, csp.constrs@),
                forall|r: usize, c1: usize, c2: usize|
                    ((1 <= r < i && is_digit(c1 as int)) || (r == i && 1 <= c1 < j)) && is_digit(
                        c2 as int,
                    ) && c1 != c2 ==> {
                        &&& #[trigger] has_ne(csp.constrs@, ks, (r, c1), (r, c2))
                        &&& has_ne(csp.constrs@, ks, (c1, r), (c2, r))
                    },
                csp.constrs@.len() == c0.len() + 144 * (i - 1) + 16 * (j - 1),
            decreases 10 - j,
        {
            let mut k: usize = 1;
            while k < 10
                invariant
                    1 <= i < 10,
                    1 <= j < 10,
                    1 <= k <= 10,
                    csp.wf(),
                    csp.keys@ == ks,
                    ks == old(csp).keys@,
                    has_cells(ks),
                    csp.doms() == ds,
                    ds == old(csp).doms(),
                    c0 == old(csp).constrs@,
                    extends(c0, csp.constrs@),
                    lines_before(csp.constrs@, ks, i as int, j as int, k as int),
                    csp.constrs@.len() == c0.len() + 144 * (i - 1) + 16 * (j - 1) + 2 * (k - 1) - (
                    if j < k { 2int } else { 0 }),
                decreases 10 - k,
            {
                if j != k {
                    let ghost before = csp.constrs@;
                    proof {
                        assert(ks.contains((i, j)));
                        assert(ks.contains((i, k)));
                        assert(ks.contains((j, i)));
                        assert(ks.contains((k, i)));
                    }
                    push_constr(csp, (i, j), (i, k), SudokuRel::Ne);
                    let ghost mid = csp.constrs@;
                    push_constr(csp, (j, i), (k, i), SudokuRel::Ne);
                    proof {
                        let after = csp.constrs@;
                        lemma_extends_trans(before, mid, after);
                        lemma_extends_trans(c0, before, after);
                        assert(after[mid.len() - 1] == mid.last());
                        assert(has_ne(after, ks, (i, j), (i, k)));
                        assert(has_ne(after, ks, (j, i), (k, i)));
                        lemma_line_step(before, after, ks, i, j, k);
                    }
                } else {
                    proof {
                        lemma_line_skip(csp.constrs@, ks, i as int, j as int);
                    }
                }
                k = k + 1;
            }
            j = j + 1;
        }
        i = i + 1;
    }
}


/// `csp` has keys `ks` and domains `ds`, and its constraints extend `c0`.
pub open spec fn kept(
    csp: CSP<(usize, usize), usize, SudokuRel>,
    ks: Seq<(usize, usize)>,
    ds: Seq<Seq<usize>>,
    c0: Seq<Constraint<SudokuRel>>,
) -> bool {
    &&& csp.wf()
    &&& csp.keys@ == ks
    &&& csp.doms() == ds
    &&& extends(c0, csp.constrs@)
}

/// Appends a constraint and keeps the frame.
fn push_kept(
    csp: &mut CSP<(usize, usize), usize, SudokuRel>,
    a: (usize, usize),
    b: (usize, usize),
    rel: SudokuRel,
    Ghost(ks): Ghost<Seq<(usize, usize)>>,
    Ghost(ds): Ghost<Seq<Seq<usize>>>,
    Ghost(c0): Ghost<Seq<Constraint<SudokuRel>>>,
)
    requires
        kept(*old(csp), ks, ds, c0),
        ks.contains(a),
        ks.contains(b),
    ensures
        kept(*final(csp), ks, ds, c0),
        final(csp).constrs@.len() == old(csp).constrs@.len() + 1,
{
    let ghost before = csp.constrs@;
    push_constr(csp, a, b, rel);
    proof {
        lemma_extends_trans(c0, before, csp.constrs@);
    }
}

/// Row or column `x` lies in band `b` (`0..3`) of the grid.
pub open spec fn in_band(b: int, x: int) -> bool {
    b * 3 + 1 <= x <= b * 3 + 3
}

/// The pairs of distinct cells of block `(bi, bj)` that come before
/// `(i, j, k, l)` in loop order have the constraint that they differ.
pub open spec fn block_before(
    cons: Seq<Constraint<SudokuRel>>,
    ks: Seq<(usize, usize)>,
    bi: int,
    bj: int,
    i: int,
    j: int,
    k: int,
    l: int,
) -> bool {
    forall|i2: usize, j2: usize, k2: usize, l2: usize|
        in_band(bi, i2 as int) && in_band(bj, j2 as int) && in_band(bi, k2 as int) && in_band(
            bj,
            l2 as int,
        ) && (i2 != k2 || j2 != l2) && (i2 < i || (i2 == i && j2 < j) || (i2 == i && j2 == j && k2
            < k) || (i2 == i && j2 == j && k2 == k && l2 < l)) ==> #[trigger] has_ne(
            cons,
            ks,
            (i2, j2),
            (k2, l2),
        )
}

/// Any two distinct cells of block `(bi, bj)` have the constraint that they differ.
pub open spec fn block_done(cons: Seq<Constraint<SudokuRel>>, ks: Seq<(usize, usize)>, bi: int, bj: int) -> bool {
    forall|i2: usize, j2: usize, k2: usize, l2: usize|
        in_band(bi, i2 as int) && in_band(bj, j2 as int) && in_band(bi, k2 as int) && in_band(
            bj,
            l2 as int,
        ) && (i2 != k2 || j2 != l2) ==> #[trigger] has_ne(cons, ks, (i2, j2), (k2, l2))
}

/// Any two distinct cells of one 3x3 block must differ.
pub open spec fn blocks_differ(cons: Seq<Constraint<SudokuRel>>, ks: Seq<(usize, usize)>) -> bool {
    forall|i: usize, j: usize, k: usize, l: usize|
        is_digit(i as int) && is_digit(j as int) && is_digit(k as int) && is_digit(l as int) && (i
            - 1) / 3 == (k - 1) / 3 && (j - 1) / 3 == (l - 1) / 3 && (i != k || j != l)
            ==> #[trigger] has_ne(cons, ks, (i, j), (k, l))
}

proof fn lemma_block_step(
    before: Seq<Constraint<SudokuRel>>,
    after: Seq<Constraint<SudokuRel>>,
    ks: Seq<(usize, usize)>,
    bi: int,
    bj: int,
    i: usize,
    j: usize,
    k: usize,
    l: usize,
)
    requires
        block_before(before, ks, bi, bj, i as int, j as int, k as int, l as int),
        extends(before, after),
        i != k || j != l ==> has_ne(after, ks, (i, j), (k, l)),
    ensures
        block_before(after, ks, bi, bj, i as int, j as int, k as int, l + 1),
{
    assert forall|i2: usize, j2: usize, k2: usize, l2: usize|
        in_band(bi, i2 as int) && in_band(bj, j2 as int) && in_band(bi, k2 as int) && in_band(
            bj,
            l2 as int,
        ) && (i2 != k2 || j2 != l2) && (i2 < i || (i2 == i && j2 < j) || (i2 == i && j2 == j && k2
            < k) || (i2 == i && j2 == j && k2 == k && l2 < l + 1)) implies #[trigger] has_ne(
            after,
            ks,
            (i2, j2),
            (k2, l2),
        ) by {
        if !(i2 == i && j2 == j && k2 == k && l2 == l) {
            assert(has_ne(before, ks, (i2, j2), (k2, l2)));
            lemma_contains_extend(before, after, Constraint { x: ks.index_of((i2, j2)) as usize, y: ks.index_of((k2, l2)) as usize, rel: SudokuRel::Ne });
        }
    }
}

proof fn lemma_block_extend(
    a: Seq<Constraint<SudokuRel>>,
    b: Seq<Constraint<SudokuRel>>,
    ks: Seq<(usize, usize)>,
    bi: int,
    bj: int,
)
    requires
        block_done(a, ks, bi, bj),
        extends(a, b),
    ensures
        block_done(b, ks, bi, bj),
{
    assert forall|i2: usize, j2: usize, k2: usize, l2: usize|
        in_band(bi, i2 as int) && in_band(bj, j2 as int) && in_band(bi, k2 as int) && in_band(
            bj,
            l2 as int,
        ) && (i2 != k2 || j2 != l2) implies #[trigger] has_ne(b, ks, (i2, j2), (k2, l2)) by {
        assert(has_ne(a, ks, (i2, j2), (k2, l2)));
        lemma_contains_extend(a, b, Constraint { x: ks.index_of((i2, j2)) as usize, y: ks.index_of((k2, l2)) as usize, rel: SudokuRel::Ne });
    }
}

/// Adds the constraints that distinct cells of block `(bi, bj)` differ.
fn add_block(csp: &mut CSP<(usize, usize), usize, SudokuRel>, bi: usize, bj: usize)
    requires
        old(csp).wf(),
        has_cells(old(csp).keys@),
        bi < 3,
        bj < 3,
    ensures
        kept(*final(csp), old(csp).keys@, old(csp).doms(), old(csp).constrs@),
        block_done(final(csp).constrs@, final(csp).keys@, bi as int, bj as int),
        final(csp).constrs@.len() == old(csp).constrs@.len() + 72,
{
    let ghost ks = csp.keys@;
    let ghost ds = csp.doms();
    let ghost c0 = csp.constrs@;
    let mut i: usize = bi * 3 + 1;
    while i < bi * 3 + 4
        invariant
            bi < 3,
            bj < 3,
            bi * 3 + 1 <= i <= bi * 3 + 4,
            kept(*csp, ks, ds, c0),
            has_cells(ks),
            ks == old(csp).keys@,
            ds == old(csp).doms(),
            c0 == old(csp).constrs@,
            block_before(csp.constrs@, ks, bi as int, bj as int, i as int, 0, 0, 0),
            csp.constrs@.len() == c0.len() + 24 * (i - bi * 3 - 1),
        decreases bi * 3 + 4 - i,
    {
        let mut j: usize = bj * 3 + 1;
        while j < bj * 3 + 4
            invariant
                bi < 3,
                bj < 3,
                bi * 3 + 1 <= i < bi * 3 + 4,
                bj * 3 + 1 <= j <= bj * 3 + 4,
                kept(*csp, ks, ds, c0),
                has_cells(ks),
                block_before(csp.constrs@, ks, bi as int, bj as int, i as int, j as int, 0, 0),
                c0 == old(csp).constrs@,
                csp.constrs@.len() == c0.len() + 24 * (i - bi * 3 - 1) + 8 * (j - bj * 3 - 1),
            decreases bj * 3 + 4 - j,
        {
            let mut k: usize = bi * 3 + 1;
            while k < bi * 3 + 4
                invariant
                    bi < 3,
                    bj < 3,
                    bi * 3 + 1 <= i < bi * 3 + 4,
                    bj * 3 + 1 <= j < bj * 3 + 4,
                    bi * 3 + 1 <= k <= bi * 3 + 4,
                    kept(*csp, ks, ds, c0),
                    has_cells(ks),
                    block_before(csp.constrs@, ks, bi as int, bj as int, i as int, j as int, k as int, 0),
                    csp.constrs@.len() == c0.len() + 24 * (i - bi * 3 - 1) + 8 * (j - bj * 3 - 1) + 3 * (k
                        - bi * 3 - 1) - (if i < k { 1int } else { 0 }),
                decreases bi * 3 + 4 - k,
            {
                let mut l: usize = bj * 3 + 1;
                while l < bj * 3 + 4
                    invariant
                        bi < 3,
                        bj < 3,
                        bi * 3 + 1 <= i < bi * 3 + 4,
                        bj * 3 + 1 <= j < bj * 3 + 4,
                        bi * 3 + 1 <= k < bi * 3 + 4,
                        bj * 3 + 1 <= l <= bj * 3 + 4,
                        kept(*csp, ks, ds, c0),
                        has_cells(ks),
                        block_before(
                            csp.constrs@,
                            ks,
                            bi as int,
                            bj as int,
                            i as int,
                            j as int,
                            k as int,
                            l as int,
                        ),
                        csp.constrs@.len() == c0.len() + 24 * (i - bi * 3 - 1) + 8 * (j - bj * 3 - 1) + 3
                            * (k - bi * 3 - 1) - (if i < k { 1int } else { 0 }) + (l - bj * 3 - 1) - (if i
                            == k && j < l { 1int } else { 0 }),
                    decreases bj * 3 + 4 - l,
                {
                    let ghost before = csp.constrs@;
                    if i != k || j != l {
                        proof {
                            assert(ks.contains((i, j)));
                            assert(ks.contains((k, l)));
                        }
                        push_constr(csp, (i, j), (k, l), SudokuRel::Ne);
                        proof {
                            lemma_extends_trans(c0, before, csp.constrs@);
                            assert(csp.constrs@[csp.constrs@.len() - 1] == csp.constrs@.last());
                            assert(has_ne(csp.constrs@, ks, (i, j), (k, l)));
                        }
                    }
                    proof {
                        assert(extends(before, csp.constrs@));
                        lemma_block_step(before, csp.constrs@, ks, bi as int, bj as int, i, j, k, l);
                    }
                    l = l + 1;
                }
                k = k + 1;
            }
            j = j + 1;
        }
        i = i + 1;
    }
}

/// Any two distinct cells of one 3x3 block must differ.
fn add_block_constraints(csp: &mut CSP<(usize, usize), usize, SudokuRel>)
    requires
        old(csp).wf(),
        has_cells(old(csp).keys@),
    ensures
        kept(*final(csp), old(csp).keys@, old(csp).doms(), old(csp).constrs@),
        blocks_differ(final(csp).constrs@, final(csp).keys@),
        final(csp).constrs@.len() == old(csp).constrs@.len() + 648,
{
    let ghost ks = csp.keys@;
    let ghost ds = csp.doms();
    let ghost c0 = csp.constrs@;
    let mut bi: usize = 0;
    while bi < 3
        invariant
            bi <= 3,
            kept(*csp, ks, ds, c0),
            has_cells(ks),
            ks == old(csp).keys@,
            ds == old(csp).doms(),
            c0 == old(csp).constrs@,
            forall|b1: int, b2: int| 0 <= b1 < bi && 0 <= b2 < 3 ==> #[trigger] block_done(csp.constrs@, ks, b1, b2),
            csp.constrs@.len() == c0.len() + 216 * bi,
        decreases 3 - bi,
    {
        let mut bj: usize = 0;
        while bj < 3
            invariant
                bi < 3,
                bj <= 3,
                kept(*csp, ks, ds, c0),
                has_cells(ks),
                forall|b1: int, b2: int|
                    (0 <= b1 < bi && 0 <= b2 < 3) || (b1 == bi && 0 <= b2 < bj) ==> #[trigger] block_done(
                        csp.constrs@,
                        ks,
                        b1,
                        b2,
                    ),
                c0 == old(csp).constrs@,
                csp.constrs@.len() == c0.len() + 216 * bi + 72 * bj,
            decreases 3 - bj,
        {
            let ghost before = csp.constrs@;
            add_block(csp, bi, bj);
            proof {
                lemma_extends_trans(c0, before, csp.constrs@);
                assert forall|b1: int, b2: int|
                    (0 <= b1 < bi && 0 <= b2 < 3) || (b1 == bi && 0 <= b2 < bj + 1) implies #[trigger] block_done(
                        csp.constrs@,
                        ks,
                        b1,
                        b2,
                    ) by {
                    if !(b1 == bi && b2 == bj) {
                        lemma_block_extend(before, csp.constrs@, ks, b1, b2);
                    }
                }
            }
            bj = bj + 1;
        }
        bi = bi + 1;
    }
    proof {
        assert forall|i: usize, j: usize, k: usize, l: usize|
            is_digit(i as int) && is_digit(j as int) && is_digit(k as int) && is_digit(l as int) && (i
                - 1) / 3 == (k - 1) / 3 && (j - 1) / 3 == (l - 1) / 3 && (i != k || j != l)
                implies #[trigger] has_ne(csp.constrs@, ks, (i, j), (k, l)) by {
            let b1 = (i - 1) / 3;
            let b2 = (j - 1) / 3;
            assert(block_done(csp.constrs@, ks, b1 as int, b2 as int));
            assert(in_band(b1 as int, i as int));
            assert(in_band(b2 as int, j as int));
            assert(in_band(b1 as int, k as int));
            assert(in_band(b2 as int, l as int));
        }
    }
}

/// The cell `(k, l)`, or `(l, k)` where `swap`.
pub open spec fn cell_key(swap: bool, k: usize, l: usize) -> (usize, usize) {
    if swap {
        (l, k)
    } else {
        (k, l)
    }
}

/// What the place key of row (column) `r` and value `v` asks of cell `l` of
/// line `k`: in its own line, the place is `l` exactly when the cell holds
/// `v`; in another line, the cell in that place does not hold `v`.
pub open spec fn place_fwd(r: usize, v: usize, k: usize, l: usize) -> SudokuRel {
    if k == r {
        SudokuRel::Place { col: l, val: v }
    } else {
        SudokuRel::Excl { col: l, val: v }
    }
}

/// `place_fwd` seen from the cell.
pub open spec fn place_rev(r: usize, v: usize, k: usize, l: usize) -> SudokuRel {
    if k == r {
        SudokuRel::PlaceRev { col: l, val: v }
    } else {
        SudokuRel::ExclRev { col: l, val: v }
    }
}

/// `cons` holds the constraint `rel` from key `a` to key `b`.
pub open spec fn has_rel(
    cons: Seq<Constraint<SudokuRel>>,
    ks: Seq<(usize, usize)>,
    a: (usize, usize),
    b: (usize, usize),
    rel: SudokuRel,
) -> bool {
    cons.contains(Constraint { x: ks.index_of(a) as usize, y: ks.index_of(b) as usize, rel })
}

/// The place key of `(r, v)` and the cell `(k, l)` are tied both ways.
pub open spec fn tied(
    cons: Seq<Constraint<SudokuRel>>,
    ks: Seq<(usize, usize)>,
    swap: bool,
    r: usize,
    v: usize,
    k: usize,
    l: usize,
) -> bool {
    &&& has_rel(cons, ks, grid_key(10, swap, r, v), cell_key(swap, k, l), place_fwd(r, v, k, l))
    &&& has_rel(cons, ks, cell_key(swap, k, l), grid_key(10, swap, r, v), place_rev(r, v, k, l))
}

/// Every place key is tied to every cell.
pub open spec fn places_tied(cons: Seq<Constraint<SudokuRel>>, ks: Seq<(usize, usize)>, swap: bool) -> bool {
    forall|r: usize, v: usize, k: usize, l: usize|
        is_digit(r as int) && is_digit(v as int) && is_digit(k as int) && is_digit(l as int)
            ==> #[trigger] tied(cons, ks, swap, r, v, k, l)
}

/// The ties that come before `(r, v, k, l)` in loop order are present.
pub open spec fn place_before(
    cons: Seq<Constraint<SudokuRel>>,
    ks: Seq<(usize, usize)>,
    swap: bool,
    r: int,
    v: int,
    k: int,
    l: int,
) -> bool {
    forall|r2: usize, v2: usize, k2: usize, l2: usize|
        is_digit(r2 as int) && is_digit(v2 as int) && is_digit(k2 as int) && is_digit(l2 as int) && (
        r2 < r || (r2 == r && v2 < v) || (r2 == r && v2 == v && k2 < k) || (r2 == r && v2 == v && k2
            == k && l2 < l)) ==> #[trigger] tied(cons, ks, swap, r2, v2, k2, l2)
}

proof fn lemma_tied_extend(
    a: Seq<Constraint<SudokuRel>>,
    b: Seq<Constraint<SudokuRel>>,
    ks: Seq<(usize, usize)>,
    swap: bool,
    r: usize,
    v: usize,
    k: usize,
    l: usize,
)
    requires
        tied(a, ks, swap, r, v, k, l),
        extends(a, b),
    ensures
        tied(b, ks, swap, r, v, k, l),
{
    let pk = grid_key(10, swap, r, v);
    let ck = cell_key(swap, k, l);
    lemma_contains_extend(a, b, Constraint { x: ks.index_of(pk) as usize, y: ks.index_of(ck) as usize, rel: place_fwd(r, v, k, l) });
    lemma_contains_extend(a, b, Constraint { x: ks.index_of(ck) as usize, y: ks.index_of(pk) as usize, rel: place_rev(r, v, k, l) });
}

proof fn lemma_place_step(
    before: Seq<Constraint<SudokuRel>>,
    after: Seq<Constraint<SudokuRel>>,
    ks: Seq<(usize, usize)>,
    swap: bool,
    r: usize,
    v: usize,
    k: usize,
    l: usize,
)
    requires
        place_before(before, ks, swap, r as int, v as int, k as int, l as int),
        extends(before, after),
        tied(after, ks, swap, r, v, k, l),
    ensures
        place_before(after, ks, swap, r as int, v as int, k as int, l + 1),
{
    assert forall|r2: usize, v2: usize, k2: usize, l2: usize|
        is_digit(r2 as int) && is_digit(v2 as int) && is_digit(k2 as int) && is_digit(l2 as int) && (
        r2 < r || (r2 == r && v2 < v) || (r2 == r && v2 == v && k2 < k) || (r2 == r && v2 == v && k2
            == k && l2 < l + 1)) implies #[trigger] tied(after, ks, swap, r2, v2, k2, l2) by {
        if !(r2 == r && v2 == v && k2 == k && l2 == l) {
            assert(tied(before, ks, swap, r2, v2, k2, l2));
            lemma_tied_extend(before, after, ks, swap, r2, v2, k2, l2);
        }
    }
}

/// Ties each place key to the cells: key `(10 + r, v)` (or `(v, 10 + r)`
/// where `swap`) names the column (row) where value `v` stands in row
/// (column) `r`.
fn add_place_constraints(csp: &mut CSP<(usize, usize), usize, SudokuRel>, swap: bool)
    requires
        old(csp).wf(),
        has_cells(old(csp).keys@),
        forall|i: usize, j: usize|
            is_digit(i as int) && is_digit(j as int) ==> old(csp).keys@.contains(
                #[trigger] grid_key(10, swap, i, j),
            ),
    ensures
        kept(*final(csp), old(csp).keys@, old(csp).doms(), old(csp).constrs@),
        places_tied(final(csp).constrs@, final(csp).keys@, swap),
        final(csp).constrs@.len() == old(csp).constrs@.len() + 13122,
{
    let ghost ks = csp.keys@;
    let ghost ds = csp.doms();
    let ghost c0 = csp.constrs@;
    let mut r: usize = 1;
    while r < 10
        invariant
            1 <= r <= 10,
            kept(*csp, ks, ds, c0),
            has_cells(ks),
            forall|a: usize, b: usize|
                is_digit(a as int) && is_digit(b as int) ==> ks.contains(#[trigger] grid_key(10, swap, a, b)),
            ks == old(csp).keys@,
            ds == old(csp).doms(),
            c0 == old(csp).constrs@,
            place_before(csp.constrs@, ks, swap, r as int, 0, 0, 0),
            csp.constrs@.len() == c0.len() + 1458 * (r - 1),
        decreases 10 - r,
    {
        let mut j: usize = 1;
        while j < 10
            invariant
                1 <= r < 10,
                1 <= j <= 10,
                kept(*csp, ks, ds, c0),
                has_cells(ks),
                forall|a: usize, b: usize|
                    is_digit(a as int) && is_digit(b as int) ==> ks.contains(#[trigger] grid_key(10, swap, a, b)),
                place_before(csp.constrs@, ks, swap, r as int, j as int, 0, 0),
                c0 == old(csp).constrs@,
                csp.constrs@.len() == c0.len() + 1458 * (r - 1) + 162 * (j - 1),
            decreases 10 - j,
        {
            let mut k: usize = 1;
            while k < 10
                invariant
                    1 <= r < 10,
                    1 <= j < 10,
                    1 <= k <= 10,
                    kept(*csp, ks, ds, c0),
                    has_cells(ks),
                    forall|a: usize, b: usize|
                        is_digit(a as int) && is_digit(b as int) ==> ks.contains(#[trigger] grid_key(10, swap, a, b)),
                    place_before(csp.constrs@, ks, swap, r as int, j as int, k as int, 0),
                    csp.constrs@.len() == c0.len() + 1458 * (r - 1) + 162 * (j - 1) + 18 * (k - 1),
                decreases 10 - k,
            {
                let mut l: usize = 1;
                while l < 10
                    invariant
                        1 <= r < 10,
                        1 <= j < 10,
                        1 <= k < 10,
                        1 <= l <= 10,
                        kept(*csp, ks, ds, c0),
                        has_cells(ks),
                        forall|a: usize, b: usize|
                            is_digit(a as int) && is_digit(b as int) ==> ks.contains(#[trigger] grid_key(10, swap, a, b)),
                        place_before(csp.constrs@, ks, swap, r as int, j as int, k as int, l as int),
                        csp.constrs@.len() == c0.len() + 1458 * (r - 1) + 162 * (j - 1) + 18 * (k - 1) + 2
                            * (l - 1),
                    decreases 10 - l,
                {
                    let place = if swap {
                        (j, r + 10)
                    } else {
                        (r + 10, j)
                    };
                    let cell = if swap {
                        (l, k)
                    } else {
                        (k, l)
                    };
                    let ghost before = csp.constrs@;
                    proof {
                        assert(grid_key(10, swap, r, j) == place);
                        assert(cell_key(swap, k, l) == cell);
                        assert(ks.contains(place));
                        assert(ks.contains((k, l)));
                        assert(ks.contains((l, k)));
                    }
                    let (fwd, rev) = if k == r {
                        (SudokuRel::Place { col: l, val: j }, SudokuRel::PlaceRev { col: l, val: j })
                    } else {
                        (SudokuRel::Excl { col: l, val: j }, SudokuRel::ExclRev { col: l, val: j })
                    };
                    push_constr(csp, place, cell, fwd);
                    let ghost mid = csp.constrs@;
                    push_constr(csp, cell, place, rev);
                    proof {
                        let after = csp.constrs@;
                        lemma_extends_trans(before, mid, after);
                        lemma_extends_trans(c0, before, after);
                        assert(fwd == place_fwd(r, j, k, l));
                        assert(rev == place_rev(r, j, k, l));
                        assert(after[mid.len() - 1] == mid.last());
                        assert(after[after.len() - 1] == after.last());
                        assert(tied(after, ks, swap, r, j, k, l));
                        lemma_place_step(before, after, ks, swap, r, j, k, l);
                    }
                    l = l + 1;
                }
                k = k + 1;
            }
            j = j + 1;
        }
        r = r + 1;
    }
}

proof fn lemma_places_carry(
    a: Seq<Constraint<SudokuRel>>,
    b: Seq<Constraint<SudokuRel>>,
    ks1: Seq<(usize, usize)>,
    ks2: Seq<(usize, usize)>,
    swap: bool,
)
    requires
        places_tied(a, ks1, swap),
        extends(a, b),
        has_cells(ks1),
        forall|i: usize, j: usize|
            is_digit(i as int) && is_digit(j as int) ==> ks1.contains(#[trigger] grid_key(10, swap, i, j)),
        extends(ks1, ks2),
        forall|i: int, j: int| 0 <= i < j < ks2.len() ==> ks2[i] != ks2[j],
    ensures
        places_tied(b, ks2, swap),
{
    assert forall|r: usize, v: usize, k: usize, l: usize|
        is_digit(r as int) && is_digit(v as int) && is_digit(k as int) && is_digit(l as int)
            implies #[trigger] tied(b, ks2, swap, r, v, k, l) by {
        assert(tied(a, ks1, swap, r, v, k, l));
        lemma_tied_extend(a, b, ks1, swap, r, v, k, l);
        let pk = grid_key(10, swap, r, v);
        let ck = cell_key(swap, k, l);
        assert(ks1.contains(pk));
        assert(ks1.contains((k, l)));
        assert(ks1.contains((l, k)));
        lemma_index_of_extend(ks1, ks2, pk);
        lemma_index_of_extend(ks1, ks2, ck);
    }
}

proof fn lemma_blocks_carry(
    a: Seq<Constraint<SudokuRel>>,
    b: Seq<Constraint<SudokuRel>>,
    ks1: Seq<(usize, usize)>,
    ks2: Seq<(usize, usize)>,
)
    requires
        blocks_differ(a, ks1),
        extends(a, b),
        has_cells(ks1),
        extends(ks1, ks2),
        forall|i: int, j: int| 0 <= i < j < ks2.len() ==> ks2[i] != ks2[j],
    ensures
        blocks_differ(b, ks2),
{
    assert forall|i: usize, j: usize, k: usize, l: usize|
        is_digit(i as int) && is_digit(j as int) && is_digit(k as int) && is_digit(l as int) && (i
            - 1) / 3 == (k - 1) / 3 && (j - 1) / 3 == (l - 1) / 3 && (i != k || j != l)
            implies #[trigger] has_ne(b, ks2, (i, j), (k, l)) by {
        assert(has_ne(a, ks1, (i, j), (k, l)));
        lemma_contains_extend(a, b, Constraint { x: ks1.index_of((i, j)) as usize, y: ks1.index_of((k, l)) as usize, rel: SudokuRel::Ne });
        lemma_index_of_extend(ks1, ks2, (i, j));
        lemma_index_of_extend(ks1, ks2, (k, l));
    }
}

/// Sudoku as a problem: cell `(r, c)` for rows and columns `1..=9`, with
/// digits as values; cells of one row, column or block differ. Place keys
/// `(10 + r, v)` and `(v, 10 + c)` say in which column of row `r`, and in
/// which row of column `c`, value `v` stands.
pub fn sudoku() -> (r: CSP<(usize, usize), usize, SudokuRel>)
    ensures
        r.wf(),
        all_digits(r.doms()),
        has_cells(r.keys@),
        has_row_places(r.keys@),
        has_col_places(r.keys@),
        lines_differ(r.constrs@, r.keys@),
        blocks_differ(r.constrs@, r.keys@),
        places_tied(r.constrs@, r.keys@, false),
        places_tied(r.constrs@, r.keys@, true),
        r.constrs@.len() == 28188,
        r.keys@.len() == 243,
        forall|t: int| 0 <= t < r.keys@.len() ==> sudoku_key(#[trigger] r.keys@[t]),
{
    let mut csp: CSP<(usize, usize), usize, SudokuRel> = CSP::new();
    add_grid_vars(&mut csp, 0, false);
    let ghost k1 = csp.keys@;
    proof {
        assert forall|i: usize, j: usize| is_digit(i as int) && is_digit(j as int) implies #[trigger] csp.keys@.contains((i, j)) by {
            assert(grid_key(0, false, i, j) == (i, j));
        }
    }
    add_line_constraints(&mut csp);
    let ghost ks1 = csp.keys@;
    let ghost lines = csp.constrs@;
    add_block_constraints(&mut csp);
    let ghost blocks = csp.constrs@;
    add_grid_vars(&mut csp, 10, false);
    let ghost ks2 = csp.keys@;
    add_place_constraints(&mut csp, false);
    let ghost rows = csp.constrs@;
    let ghost k2 = csp.keys@;
    add_grid_vars(&mut csp, 10, true);
    proof {
        assert forall|t: int| 0 <= t < csp.keys@.len() implies sudoku_key(#[trigger] csp.keys@[t]) by {
            if t < k2.len() {
                assert(csp.keys@[t] == k2[t]);
                if t < k1.len() {
                    assert(k2[t] == k1[t]);
                }
            }
        }
    }
    proof {
        lemma_extends_trans(ks1, ks2, csp.keys@);
    }
    proof {
        assert forall|i: usize, j: usize| is_digit(i as int) && is_digit(j as int) implies #[trigger] csp.keys@.contains((i, j)) by {
            assert(grid_key(0, false, i, j) == (i, j));
        }
    }
    add_place_constraints(&mut csp, true);
    proof {
        assert forall|i: usize, j: usize| is_digit(i as int) && is_digit(j as int) implies #[trigger] csp.keys@.contains(((i + 10) as usize, j)) by {
            assert(grid_key(10, false, i, j) == ((i + 10) as usize, j));
        }
        assert forall|i: usize, j: usize| is_digit(i as int) && is_digit(j as int) implies #[trigger] csp.keys@.contains((j, (i + 10) as usize)) by {
            assert(grid_key(10, true, i, j) == (j, (i + 10) as usize));
        }
        lemma_lines_extend(lines, csp.constrs@, ks1);
        lemma_blocks_carry(blocks, csp.constrs@, ks1, csp.keys@);
        lemma_places_carry(rows, csp.constrs@, ks2, csp.keys@, false);
        lemma_lines_rekey(csp.constrs@, ks1, csp.keys@);
    }
    csp
}

} // verus!
