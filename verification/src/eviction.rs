//! Eviction: what a run of decrements over neighbouring cells does to the
//! cells of a filter.
//!
//! A run starts at some cell, lowers it by one, goes on to the next cell, and
//! after the last cell goes on from the first. A run longer than the filter
//! passes some cells more than once.

use crate::buckets::sub_clamped;
use vstd::arithmetic::div_mod::{
    lemma_fundamental_div_mod, lemma_fundamental_div_mod_converse, lemma_mod_bound,
    lemma_small_mod,
};
use vstd::prelude::*;
use vstd::set_lib::{lemma_int_range, lemma_map_size, set_int_range};

verus! {

/// `value` less `by`, or zero if `by` exceeds it.
pub open spec fn lowered(value: u8, by: nat) -> u8 {
    if value <= by {
        0
    } else {
        (value - by) as u8
    }
}

/// How often the run of `p` cells that starts at cell `r`, and goes on from
/// cell 0 after cell `m - 1`, passes cell `c`.
pub open spec fn run_hits(c: int, r: int, p: nat, m: int) -> nat
    decreases p,
{
    if p == 0 {
        0
    } else {
        run_hits(c, r, (p - 1) as nat, m) + if (r + p - 1) % m == c {
            1nat
        } else {
            0nat
        }
    }
}

/// The cells after the run of `p` cells from cell `r` has been evicted: every
/// cell loses one for each time the run passes it, and stops at zero.
pub open spec fn evicted(cells: Seq<u8>, r: int, p: nat) -> Seq<u8> {
    Seq::new(cells.len(), |c: int| lowered(cells[c], run_hits(c, r, p, cells.len() as int)))
}

/// How many cells a run from cell `r` passes before it first reaches cell
/// `c`, among `m` cells.
pub open spec fn run_position(c: int, r: int, m: int) -> int {
    (c - r) % m
}

/// The cells that a run of `p` cells from cell `r` passes, among `m` cells.
pub open spec fn run_cells(r: int, p: nat, m: int) -> Set<int> {
    Set::new(|c: int| 0 <= c < m && run_position(c, r, m) < p)
}

/// The cell after cell `(r + i) % m` in a run is cell `(r + i + 1) % m`: the
/// next one, or cell 0 after the last.
pub proof fn lemma_next_in_run(r: int, i: int, m: int)
    requires
        0 <= r,
        0 <= i,
        0 < m,
    ensures
        (r + i + 1) % m == if (r + i) % m + 1 == m {
            0
        } else {
            (r + i) % m + 1
        },
{
    let a = r + i;
    lemma_fundamental_div_mod(a, m);
    lemma_mod_bound(a, m);
    if a % m + 1 == m {
        assert(a + 1 == (a / m + 1) * m + 0) by (nonlinear_arith)
            requires
                a == m * (a / m) + a % m,
                a % m + 1 == m,
        ;
        lemma_fundamental_div_mod_converse(a + 1, m, a / m + 1, 0);
    } else {
        assert(a + 1 == (a / m) * m + (a % m + 1)) by (nonlinear_arith)
            requires
                a == m * (a / m) + a % m,
        ;
        lemma_fundamental_div_mod_converse(a + 1, m, a / m, a % m + 1);
    }
}

/// The `n`-th step of a run from cell `r` is on cell `c` exactly when `n`
/// leaves, on division by the number of cells, the position of `c` in the
/// run.
pub proof fn lemma_step_on_cell(c: int, r: int, n: int, m: int)
    requires
        0 <= c < m,
        0 <= r < m,
        0 <= n,
    ensures
        ((r + n) % m == c) == (n % m == run_position(c, r, m)),
{
    let d = c - r;
    let j = d % m;
    lemma_fundamental_div_mod(d, m);
    lemma_mod_bound(d, m);
    lemma_fundamental_div_mod(r + n, m);
    lemma_mod_bound(r + n, m);
    lemma_fundamental_div_mod(n, m);
    lemma_mod_bound(n, m);
    if (r + n) % m == c {
        let t = (r + n) / m;
        assert(n == (t + d / m) * m + j) by (nonlinear_arith)
            requires
                r + n == m * t + c,
                d == m * (d / m) + j,
                d == c - r,
        ;
        lemma_fundamental_div_mod_converse(n, m, t + d / m, j);
    }
    if n % m == j {
        let s = n / m;
        assert(r + n == (s - d / m) * m + c) by (nonlinear_arith)
            requires
                n == m * s + j,
                d == m * (d / m) + j,
                d == c - r,
        ;
        lemma_fundamental_div_mod_converse(r + n, m, s - d / m, c);
    }
}

/// A run of `p` cells passes a cell for the first time when it has come as
/// far as the cell's position, and once more with every full round after
/// that.
pub proof fn lemma_run_hits(c: int, r: int, p: nat, m: int)
    requires
        0 <= c < m,
        0 <= r < m,
    ensures
        run_hits(c, r, p, m) == if run_position(c, r, m) < p {
            (p - 1 - run_position(c, r, m)) / m + 1
        } else {
            0
        },
    decreases p,
{
    let j = run_position(c, r, m);
    lemma_mod_bound(c - r, m);
    if p > 0 {
        let n = p - 1;
        lemma_run_hits(c, r, n as nat, m);
        lemma_step_on_cell(c, r, n, m);
        if n < j {
            lemma_small_mod(n as nat, m as nat);
        } else if n == j {
            lemma_small_mod(n as nat, m as nat);
            lemma_small_mod(0, m as nat);
            lemma_fundamental_div_mod_converse(0, m, 0, 0);
        } else {
            let e = n - j;
            lemma_fundamental_div_mod(e, m);
            lemma_mod_bound(e, m);
            let q = e / m;
            if e % m == 0 {
                assert(e - 1 == (q - 1) * m + (m - 1)) by (nonlinear_arith)
                    requires
                        e == m * q,
                ;
                lemma_fundamental_div_mod_converse(e - 1, m, q - 1, m - 1);
                assert(n == q * m + j) by (nonlinear_arith)
                    requires
                        e == m * q,
                        e == n - j,
                ;
                lemma_fundamental_div_mod_converse(n, m, q, j);
            } else {
                assert(e - 1 == q * m + (e % m - 1)) by (nonlinear_arith)
                    requires
                        e == m * q + e % m,
                ;
                lemma_fundamental_div_mod_converse(e - 1, m, q, e % m - 1);
                if n % m == j {
                    lemma_fundamental_div_mod(n, m);
                    assert(e == (n / m) * m + 0) by (nonlinear_arith)
                        requires
                            n == m * (n / m) + j,
                            e == n - j,
                    ;
                    lemma_fundamental_div_mod_converse(e, m, n / m, 0);
                }
            }
        }
    }
}

/// A run that is no longer than the filter passes as many different cells as
/// it is long, each of them once: those cells are lowered by one unless they
/// are zero already, and every other cell stays as it was.
pub proof fn lemma_short_run(cells: Seq<u8>, r: int, p: nat)
    requires
        0 <= r < cells.len(),
        p <= cells.len(),
    ensures
        run_cells(r, p, cells.len() as int).finite(),
        run_cells(r, p, cells.len() as int).len() == p,
        forall|c: int|
            0 <= c < cells.len() ==> #[trigger] evicted(cells, r, p)[c] == if run_cells(
                r,
                p,
                cells.len() as int,
            ).contains(c) {
                sub_clamped(cells[c], 1)
            } else {
                cells[c]
            },
{
    let m = cells.len() as int;
    assert forall|c: int| 0 <= c < m implies #[trigger] evicted(cells, r, p)[c] == if run_cells(
        r,
        p,
        m,
    ).contains(c) {
        sub_clamped(cells[c], 1)
    } else {
        cells[c]
    } by {
        lemma_run_hits(c, r, p, m);
        lemma_mod_bound(c - r, m);
        let j = run_position(c, r, m);
        if j < p {
            lemma_small_mod((p - 1 - j) as nat, m as nat);
            lemma_fundamental_div_mod_converse(p - 1 - j, m, 0, p - 1 - j);
        }
    }
    let steps = set_int_range(0, p as int);
    let cell_of = |i: int| (r + i) % m;
    lemma_int_range(0, p as int);
    assert forall|i1: int, i2: int|
        steps.contains(i1) && steps.contains(i2) && #[trigger] cell_of(i1) == #[trigger] cell_of(
            i2,
        ) implies i1 == i2 by {
        let c = cell_of(i1);
        lemma_mod_bound(r + i1, m);
        lemma_step_on_cell(c, r, i1, m);
        lemma_step_on_cell(c, r, i2, m);
        lemma_small_mod(i1 as nat, m as nat);
        lemma_small_mod(i2 as nat, m as nat);
    }
    assert forall|c: int| steps.map(cell_of).contains(c) == run_cells(r, p, m).contains(c) by {
        if steps.map(cell_of).contains(c) {
            let i = choose|i: int| steps.contains(i) && c == cell_of(i);
            lemma_mod_bound(r + i, m);
            lemma_step_on_cell(c, r, i, m);
            lemma_small_mod(i as nat, m as nat);
        }
        if run_cells(r, p, m).contains(c) {
            let j = run_position(c, r, m);
            lemma_mod_bound(c - r, m);
            lemma_step_on_cell(c, r, j, m);
            lemma_small_mod(j as nat, m as nat);
            assert(steps.contains(j) && c == cell_of(j));
        }
    }
    assert(steps.map(cell_of) =~= run_cells(r, p, m));
    lemma_map_size(steps, run_cells(r, p, m), cell_of);
}

} // verus!
