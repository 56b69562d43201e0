//! The simplex tableau: the working matrix, right-hand side, costs, basis
//! mapping and status of one linear program, together with the pivot state
//! machine that drives it to a terminal status.
//!
//! The matrix is variable-major: `a[col]` holds the coefficients of one
//! variable, one entry per constraint row.  Costs at the infinity sentinels
//! mark Big-M (artificial) variables; such a program is solved in two phases.
//!
//! The configuration enumerations are closed: a phase strategy and a Big-M
//! strategy that the engine does not implement ("revised" and "detached" in
//! older notations) are deliberately absent from the surface rather than
//! accepted and ignored.

use vstd::prelude::*;

verus! {

use crate::fraction::Fraction;
use crate::solver::{
    all_wf,
    last_unit_col,
    is_matrix,
    is_unit_col,
    mat_of,
    mat_wf,
    min_ratio_prefix,
    row_has_unit,
    frac_zero,
    SimplexError,
};

/// The status of a tableau: `Unsolved` while pivoting may continue, a
/// terminal outcome afterwards.  `PossibleCycling` reports that the greedy
/// pivot rule hit its iteration cap, which the anti-cycling rule cannot.
#[derive(Clone, Copy, Debug, PartialEq, Eq, Structural)]
pub enum SolveMessage {
    Unsolved,
    Optimal,
    Unbounded,
    Phase1Complete,
    Infeasible,
    PossibleCycling,
}

/// The entering-variable rule: `Standard` takes the most negative reduced
/// cost, `Bland` the first negative one (anti-cycling).
#[derive(Clone, Copy, Debug, PartialEq, Eq, Structural)]
pub enum VariableSelectType {
    Standard,
    Bland,
}

/// How a Big-M program is driven; only the two-phase strategy exists.
#[derive(Clone, Copy, Debug, PartialEq, Eq, Structural)]
pub enum BigMSolveType {
    TwoPhase,
}

/// The overall mode: the primal loop on a standard-form program, or the dual
/// simplex.
#[derive(Clone, Copy, Debug, PartialEq, Eq, Structural)]
pub enum SolveType {
    Standard,
    Dual,
}

/// One recorded pivot decision, kept when tracing is on so that tests and
/// audits can check the decisions without parsing output.
#[derive(Clone, Copy, Debug, PartialEq, Eq, Structural)]
pub enum TraceEvent {
    EnteringChosen(usize),
    LeavingChosen(usize),
    PhaseTransition,
}

/// The most-negative scan over the first `k` reduced costs: the most
/// negative value seen (starting from zero, so only negative entries
/// qualify) and the first index attaining it (`none_idx` while none does).
pub open spec fn most_negative_prefix(rc: Seq<Fraction>, k: int, none_idx: int) -> (Fraction, int)
    decreases k,
{
    if k <= 0 {
        (frac_zero(), none_idx)
    } else {
        let prev = most_negative_prefix(rc, k - 1, none_idx);
        if rc[k - 1].lt_val(prev.0) {
            (rc[k - 1], k - 1)
        } else {
            prev
        }
    }
}

/// The ratio the dual entering rule maximises at column `c`.
pub open spec fn dual_ratio(m: Seq<Seq<Fraction>>, rc: Seq<Fraction>, lv: int, c: int) -> Fraction {
    rc[c].div_val(m[c][lv])
}

/// The dual entering scan over the first `k` columns: among columns with a
/// strictly negative entry in the leaving row, the greatest ratio
/// `rc[c] / a[c][lv]` seen (starting from the negative-infinity sentinel) and
/// the first column attaining it (`none_idx` while none does).
pub open spec fn dual_max_prefix(
    m: Seq<Seq<Fraction>>,
    rc: Seq<Fraction>,
    lv: int,
    k: int,
    none_idx: int,
) -> (Fraction, int)
    decreases k,
{
    if k <= 0 {
        (Fraction::from_int(-(i64::MAX as int)), none_idx)
    } else {
        let prev = dual_max_prefix(m, rc, lv, k - 1, none_idx);
        if m[k - 1][lv].lt_val(frac_zero()) && dual_ratio(m, rc, lv, k - 1).gt_val(prev.0) {
            (dual_ratio(m, rc, lv, k - 1), k - 1)
        } else {
            prev
        }
    }
}

/// Every ratio the dual entering scan must form stays in the machine range.
pub open spec fn dual_ratios_ok(m: Seq<Seq<Fraction>>, rc: Seq<Fraction>, lv: int, k: int) -> bool {
    forall|c: int|
        0 <= c < k && (#[trigger] m[c][lv]).lt_val(frac_zero()) ==> rc[c].div_ok(m[c][lv])
}

/// The least right-hand-side scan over the first `k` rows (`k >= 1`): the
/// least value and the first row attaining it.
pub open spec fn min_b_prefix(b: Seq<Fraction>, k: int) -> (Fraction, int)
    decreases k,
{
    if k <= 1 {
        (b[0], 0)
    } else {
        let prev = min_b_prefix(b, k - 1);
        if b[k - 1].lt_val(prev.0) {
            (b[k - 1], k - 1)
        } else {
            prev
        }
    }
}

/// The most-negative scan is either untouched (zero, `none_idx`) or holds an
/// entry it has seen.
proof fn lemma_most_negative_prefix_props(rc: Seq<Fraction>, k: int, none_idx: int)
    requires
        0 <= k,
    ensures
        ({
            let s = most_negative_prefix(rc, k, none_idx);
            ||| (s.0 == frac_zero() && s.1 == none_idx)
            ||| (0 <= s.1 < k && s.0 == rc[s.1])
        }),
    decreases k,
{
    if k > 0 {
        lemma_most_negative_prefix_props(rc, k - 1, none_idx);
    }
}

/// With a negative entry among the first `k`, the most-negative scan has
/// picked some entry.
proof fn lemma_most_negative_picks(rc: Seq<Fraction>, k: int, none_idx: int, w: int)
    requires
        0 <= w < k <= rc.len(),
        rc[w].lt_val(frac_zero()),
    ensures
        0 <= most_negative_prefix(rc, k, none_idx).1 < k,
    decreases k,
{
    let s = most_negative_prefix(rc, k, none_idx);
    let prev = most_negative_prefix(rc, k - 1, none_idx);
    lemma_most_negative_prefix_props(rc, k - 1, none_idx);
    if w < k - 1 {
        lemma_most_negative_picks(rc, k - 1, none_idx, w);
    } else {
        // The negative witness is the entry scanned at this step: either the
        // scan was untouched, so the zero running value admits it, or it had
        // already picked an entry.
        if prev.0 == frac_zero() && prev.1 == none_idx {
            assert(rc[k - 1].lt_val(prev.0));
        }
    }
}

/// The dual entering scan is either untouched (negative-infinity sentinel,
/// `none_idx`) or holds the well-formed ratio of an eligible column, which is
/// never the sentinel.
proof fn lemma_dual_max_prefix_props(
    m: Seq<Seq<Fraction>>,
    rc: Seq<Fraction>,
    lv: int,
    k: int,
    none_idx: int,
)
    requires
        0 <= k <= m.len(),
        k <= rc.len(),
        mat_wf(m),
        all_wf(rc),
        0 <= lv,
        forall|c: int| 0 <= c < k ==> lv < (#[trigger] m[c]).len(),
        dual_ratios_ok(m, rc, lv, k),
    ensures
        ({
            let s = dual_max_prefix(m, rc, lv, k, none_idx);
            ||| (s.0 == Fraction::from_int(-(i64::MAX as int)) && s.1 == none_idx)
            ||| (0 <= s.1 < k && m[s.1][lv].lt_val(frac_zero()) && s.0 == dual_ratio(m, rc, lv, s.1)
                && s.0 != Fraction::from_int(-(i64::MAX as int)) && s.0.wf())
        }),
    decreases k,
{
    if k > 0 {
        lemma_dual_max_prefix_props(m, rc, lv, k - 1, none_idx);
        let prev = dual_max_prefix(m, rc, lv, k - 1, none_idx);
        if m[k - 1][lv].lt_val(frac_zero()) && dual_ratio(m, rc, lv, k - 1).gt_val(prev.0) {
            let ratio = dual_ratio(m, rc, lv, k - 1);
            crate::fraction::lemma_div_val_wf(rc[k - 1], m[k - 1][lv]);
            // The sentinel sits at the bottom: nothing well-formed admits a
            // numerator below the negative extreme, so a ratio that exceeds
            // the running value is not the sentinel.
            assert(prev.0.numerator != i64::MIN);
            assert(ratio != Fraction::from_int(-(i64::MAX as int)));
        }
    }
}

/// The first row at or after `k` in which variable `i` is basic, or the
/// number of rows when there is none.
pub open spec fn first_basic_row(basis: Seq<usize>, i: int, k: int) -> int
    decreases basis.len() - k,
{
    if k < 0 || k >= basis.len() {
        basis.len() as int
    } else if basis[k] == i {
        k
    } else {
        first_basic_row(basis, i, k + 1)
    }
}

/// The least right-hand-side scan lands on a row it has seen.
proof fn lemma_min_b_prefix_range(b: Seq<Fraction>, k: int)
    requires
        1 <= k <= b.len(),
    ensures
        0 <= min_b_prefix(b, k).1 < k,
        min_b_prefix(b, k).0 == b[min_b_prefix(b, k).1],
    decreases k,
{
    if k > 1 {
        lemma_min_b_prefix_range(b, k - 1);
    }
}

/// When the most-negative scan picked nothing, no entry is negative.
proof fn lemma_most_negative_none(rc: Seq<Fraction>, k: int, none_idx: int)
    requires
        0 <= k <= rc.len(),
        most_negative_prefix(rc, k, none_idx).1 >= k,
    ensures
        forall|j: int| 0 <= j < k ==> !(#[trigger] rc[j]).lt_val(frac_zero()),
{
    assert forall|j: int| 0 <= j < k implies !(#[trigger] rc[j]).lt_val(frac_zero()) by {
        if rc[j].lt_val(frac_zero()) {
            lemma_most_negative_picks(rc, k, none_idx, j);
        }
    }
}

/// One tableau's pivot-relevant state at the specification level: the
/// computational core plus the basis mapping.
pub ghost struct PivotState {
    pub core: crate::solver::LoopState,
    pub basis: Seq<usize>,
}

/// One specification-level step of the primal loop.
pub ghost enum PrimalStep {
    Overflow,
    Terminal(SolveMessage),
    Pivot(PivotState),
}

/// The outcome of a specification-level run of the primal loop.
pub ghost enum PivotRun {
    /// An exact value left the machine range at some step.
    Overflow,
    /// A terminal status was reached at this state.
    Done(PivotState, SolveMessage),
    /// The iteration cap ran out at this state.
    OutOfFuel(PivotState),
}

/// The entering column under the given rule, or the column count when no
/// reduced cost qualifies.
pub open spec fn spec_entering(rc: Seq<Fraction>, rule: VariableSelectType) -> int {
    match rule {
        VariableSelectType::Bland => crate::solver::bland_index(rc, 0),
        VariableSelectType::Standard => most_negative_prefix(
            rc,
            rc.len() as int,
            rc.len() as int,
        ).1,
    }
}

/// One primal step: entering by the rule (none: `Optimal`, or `Infeasible`
/// when a Big-M phase ends with a nonzero objective), leaving by the ratio
/// test (none: `Unbounded`), then the pivot with the basis update.
pub open spec fn primal_step(s: PivotState, rule: VariableSelectType, big_m: bool) -> PrimalStep {
    let n = s.core.rc.len() as int;
    let m = s.core.rhs.len() as int;
    let e = spec_entering(s.core.rc, rule);
    if e == n {
        PrimalStep::Terminal(
            if big_m && s.core.obj != frac_zero() {
                SolveMessage::Infeasible
            } else {
                SolveMessage::Optimal
            },
        )
    } else if !crate::solver::min_ratio_ok(s.core.mat[e], s.core.rhs, m) {
        PrimalStep::Overflow
    } else {
        let scan = min_ratio_prefix(s.core.mat[e], s.core.rhs, m, m);
        if scan.1 == m {
            PrimalStep::Terminal(SolveMessage::Unbounded)
        } else if !crate::solver::pivot_ok(s.core.mat, s.core.rhs, s.core.rc, s.core.obj, e, scan.1) {
            PrimalStep::Overflow
        } else {
            PrimalStep::Pivot(
                PivotState {
                    core: crate::solver::pivoted_state(s.core, e, scan.1),
                    basis: s.basis.update(scan.1, e as usize),
                },
            )
        }
    }
}

/// One dual step: the first least-rhs row leaves (none negative: `Optimal`),
/// the greatest-ratio column among those with a negative entry in that row
/// enters (none: `Infeasible`), then the pivot with the basis update.
pub open spec fn dual_step(s: PivotState) -> PrimalStep {
    let n = s.core.rc.len() as int;
    let m = s.core.rhs.len() as int;
    if m == 0 {
        PrimalStep::Terminal(SolveMessage::Optimal)
    } else {
        let bscan = min_b_prefix(s.core.rhs, m);
        if !bscan.0.lt_val(frac_zero()) {
            PrimalStep::Terminal(SolveMessage::Optimal)
        } else if !dual_ratios_ok(s.core.mat, s.core.rc, bscan.1, n) {
            PrimalStep::Overflow
        } else {
            let escan = dual_max_prefix(s.core.mat, s.core.rc, bscan.1, n, n);
            if escan.0 == Fraction::from_int(-(i64::MAX as int)) {
                PrimalStep::Terminal(SolveMessage::Infeasible)
            } else if !crate::solver::pivot_ok(
                s.core.mat,
                s.core.rhs,
                s.core.rc,
                s.core.obj,
                escan.1,
                bscan.1,
            ) {
                PrimalStep::Overflow
            } else {
                PrimalStep::Pivot(
                    PivotState {
                        core: crate::solver::pivoted_state(s.core, escan.1, bscan.1),
                        basis: s.basis.update(bscan.1, escan.1 as usize),
                    },
                )
            }
        }
    }
}

/// A full run of the dual loop with the given fuel.
pub open spec fn dual_run(s: PivotState, fuel: nat) -> PivotRun
    decreases fuel,
{
    if fuel == 0 {
        PivotRun::OutOfFuel(s)
    } else {
        match dual_step(s) {
            PrimalStep::Overflow => PivotRun::Overflow,
            PrimalStep::Terminal(msg) => PivotRun::Done(s, msg),
            PrimalStep::Pivot(s2) => dual_run(s2, (fuel - 1) as nat),
        }
    }
}

/// A full run of the primal loop with the given fuel.
pub open spec fn primal_run(s: PivotState, rule: VariableSelectType, big_m: bool, fuel: nat) -> PivotRun
    decreases fuel,
{
    if fuel == 0 {
        PivotRun::OutOfFuel(s)
    } else {
        match primal_step(s, rule, big_m) {
            PrimalStep::Overflow => PivotRun::Overflow,
            PrimalStep::Terminal(msg) => PivotRun::Done(s, msg),
            PrimalStep::Pivot(s2) => primal_run(s2, rule, big_m, (fuel - 1) as nat),
        }
    }
}

/// The iteration cap of the pivot loops, by rule.
pub open spec fn spec_iteration_cap(rule: VariableSelectType) -> nat {
    match rule {
        VariableSelectType::Standard => 20,
        VariableSelectType::Bland => crate::solver::ITERATION_LIMIT as nat,
    }
}

/// The solution vector recovered from a basis and right-hand side: variable
/// `i` takes the right-hand side of the first row where it is basic, zero
/// when it is nonbasic.
pub open spec fn spec_solution(basis: Seq<usize>, b: Seq<Fraction>, n: int) -> Seq<Fraction> {
    Seq::new(
        n as nat,
        |i: int|
            if first_basic_row(basis, i, 0) < basis.len() as int {
                b[first_basic_row(basis, i, 0)]
            } else {
                frac_zero()
            },
    )
}

/// The canonical form of one input entry: finite fractions are reduced, the
/// sentinel regimes pass through untouched.
pub open spec fn normalize_frac(f: Fraction) -> Fraction {
    if f.is_finite() {
        Fraction::canon(f.numerator as int, f.denominator as int)
    } else {
        f
    }
}

/// Entrywise canonical form of a vector.
pub open spec fn normalize_seq(s: Seq<Fraction>) -> Seq<Fraction> {
    Seq::new(s.len(), |i: int| normalize_frac(s[i]))
}

/// Columnwise canonical form of a matrix.
pub open spec fn normalize_mat(m: Seq<Seq<Fraction>>) -> Seq<Seq<Fraction>> {
    Seq::new(m.len(), |c: int| normalize_seq(m[c]))
}

/// The cost row a fresh tableau measures reduced costs against: the synthetic
/// phase-1 costs (minus one for infinite true costs, zero otherwise) for a
/// Big-M program, the true costs otherwise.
pub open spec fn spec_phase_costs(c: Seq<Fraction>, big_m: bool) -> Seq<Fraction> {
    if big_m {
        Seq::new(
            c.len(),
            |i: int|
                if c[i].is_inf() {
                    Fraction::from_int(-1)
                } else {
                    Fraction::from_int(0)
                },
        )
    } else {
        c
    }
}

/// The basis the identity scan chooses: for each row, the largest column
/// equal to that row's identity column.
pub open spec fn spec_detected_basis(m: Seq<Seq<Fraction>>, n: int, rows: int) -> Seq<usize> {
    Seq::new(rows as nat, |r: int| last_unit_col(m, n, r, n + 1) as usize)
}

/// The state the dual-simplex setup establishes its basis on: the tableau's
/// computational fields plus which rows have been matched.
pub ghost struct SetupState {
    pub mat: Seq<Seq<Fraction>>,
    pub rhs: Seq<Fraction>,
    pub rc: Seq<Fraction>,
    pub obj: Fraction,
    pub cost: Seq<Fraction>,
    pub basis: Seq<usize>,
    pub seen: Seq<bool>,
}

/// The outcome of the specification-level dual setup.
pub ghost enum SetupRun {
    /// An exact value left the machine range.
    Overflow,
    /// An all-zero unmatched row with a nonzero right-hand side: the program
    /// is infeasible at this state.
    Infeasible(SetupState),
    /// The setup may proceed (or has finished) at this state.
    Ready(SetupState),
}

/// The minus-one fraction.
pub open spec fn neg_one_frac() -> Fraction {
    Fraction { numerator: -1i64, denominator: 1i64 }
}

/// Row `r` of the matrix and right-hand side with every sign flipped.
pub open spec fn flip_row_state(s: SetupState, r: int) -> SetupState {
    SetupState {
        mat: Seq::new(
            s.mat.len(),
            |c: int| s.mat[c].update(r, s.mat[c][r].mul_val(neg_one_frac())),
        ),
        rhs: s.rhs.update(r, s.rhs[r].mul_val(neg_one_frac())),
        ..s
    }
}

/// One cell of the matching scan (§4.6): a column equal to the row's identity
/// column becomes that row's basis column; a column equal to its negation
/// does too, after the whole row's signs are flipped; anything else changes
/// nothing.
pub open spec fn scan_cell(s: SetupState, col: int, row: int) -> SetupState {
    if is_unit_col(s.mat[col], row) {
        SetupState { basis: s.basis.update(row, col as usize), seen: s.seen.update(row, true), ..s }
    } else if crate::solver::is_neg_unit_col(s.mat[col], row) {
        let f = flip_row_state(s, row);
        SetupState {
            basis: f.basis.update(row, col as usize),
            seen: f.seen.update(row, true),
            ..f
        }
    } else {
        s
    }
}

/// The scan of one column against rows `0 .. k`.
pub open spec fn scan_rows(s: SetupState, col: int, k: int) -> SetupState
    decreases k,
{
    if k <= 0 {
        s
    } else {
        scan_cell(scan_rows(s, col, k - 1), col, k - 1)
    }
}

/// The scan of columns `0 .. k`, each against every row.
pub open spec fn scan_cols(s: SetupState, k: int, rows: int) -> SetupState
    decreases k,
{
    if k <= 0 {
        s
    } else {
        scan_rows(scan_cols(s, k - 1, rows), k - 1, rows)
    }
}

/// The first column with a nonzero entry in the given row, or the column
/// count when the whole row is zero.
pub open spec fn first_nonzero_col(mat: Seq<Seq<Fraction>>, row: int, k: int) -> int
    decreases mat.len() - k,
{
    if k < 0 || k >= mat.len() {
        mat.len() as int
    } else if mat[k][row] != frac_zero() {
        k
    } else {
        first_nonzero_col(mat, row, k + 1)
    }
}

/// Row `r` removed everywhere: a redundant constraint is dropped.
pub open spec fn drop_row_state(s: SetupState, r: int) -> SetupState {
    SetupState {
        mat: Seq::new(s.mat.len(), |c: int| s.mat[c].remove(r)),
        rhs: s.rhs.remove(r),
        basis: s.basis.remove(r),
        seen: s.seen.remove(r),
        ..s
    }
}

/// Repair of one unmatched row (§4.6): pivot on its first nonzero entry; an
/// all-zero row is infeasible when its right-hand side is nonzero and dropped
/// as redundant when it is zero.
pub open spec fn repair_row(s: SetupState, row: int) -> SetupRun {
    if s.seen[row] {
        SetupRun::Ready(s)
    } else {
        let j = first_nonzero_col(s.mat, row, 0);
        if j < s.mat.len() as int {
            if crate::solver::pivot_ok(s.mat, s.rhs, s.rc, s.obj, j, row) {
                let core = crate::solver::pivoted_state(
                    crate::solver::LoopState { mat: s.mat, rhs: s.rhs, rc: s.rc, obj: s.obj },
                    j,
                    row,
                );
                SetupRun::Ready(
                    SetupState {
                        mat: core.mat,
                        rhs: core.rhs,
                        rc: core.rc,
                        obj: core.obj,
                        basis: s.basis.update(row, j as usize),
                        ..s
                    },
                )
            } else {
                SetupRun::Overflow
            }
        } else if s.rhs[row] != frac_zero() {
            SetupRun::Infeasible(s)
        } else {
            SetupRun::Ready(drop_row_state(s, row))
        }
    }
}

/// Repair of the rows below `k`, from the top down.
pub open spec fn repair_rows(s: SetupState, k: int) -> SetupRun
    decreases k,
{
    if k <= 0 {
        SetupRun::Ready(s)
    } else {
        match repair_row(s, k - 1) {
            SetupRun::Ready(s2) => repair_rows(s2, k - 1),
            SetupRun::Overflow => SetupRun::Overflow,
            SetupRun::Infeasible(s2) => SetupRun::Infeasible(s2),
        }
    }
}

/// The dual-feasibility bootstrap (§4.6): with no negative reduced cost,
/// nothing happens; otherwise a bounding row of ones over the nonbasic
/// columns with right-hand side 1000 and an artificial column with cost zero
/// are appended, and one pivot on the most negative reduced cost against the
/// new row forces dual feasibility.
pub open spec fn bootstrap(s: SetupState) -> SetupRun {
    let n = s.rc.len() as int;
    if crate::solver::bland_index(s.rc, 0) == n {
        SetupRun::Ready(s)
    } else {
        let m1 = s.rhs.len() as int + 1;
        let mat1 = Seq::new(
            s.mat.len(),
            |c: int|
                s.mat[c].push(
                    if s.basis.contains(c as usize) {
                        frac_zero()
                    } else {
                        Fraction::from_int(1)
                    },
                ),
        );
        let art = Seq::new(
            m1 as nat,
            |r: int|
                if r == m1 - 1 {
                    Fraction::from_int(1)
                } else {
                    frac_zero()
                },
        );
        let mat2 = mat1.push(art);
        let rhs1 = s.rhs.push(Fraction::from_int(1000));
        let rc1 = s.rc.push(frac_zero());
        let e = most_negative_prefix(rc1, n + 1, n + 1).1;
        if crate::solver::pivot_ok(mat2, rhs1, rc1, s.obj, e, m1 - 1) {
            let core = crate::solver::pivoted_state(
                crate::solver::LoopState { mat: mat2, rhs: rhs1, rc: rc1, obj: s.obj },
                e,
                m1 - 1,
            );
            SetupRun::Ready(
                SetupState {
                    mat: core.mat,
                    rhs: core.rhs,
                    rc: core.rc,
                    obj: core.obj,
                    cost: s.cost.push(frac_zero()),
                    basis: s.basis.push(n as usize).update(m1 - 1, e as usize),
                    seen: s.seen,
                },
            )
        } else {
            SetupRun::Overflow
        }
    }
}

/// The whole §4.6 setup as one deterministic run over a starting state with
/// `n` columns and `m` rows: match every row to an identity or
/// negated-identity column, measure reduced costs against zero basis costs,
/// repair the unmatched rows, then bootstrap dual feasibility.
pub open spec fn dual_setup_run_state(s0: SetupState, n: int, m: int) -> SetupRun {
    let s1 = scan_cols(s0, n, m);
    let s2 = SetupState { rc: Seq::new(s1.cost.len(), |j: int| s1.cost[j].neg_val()), ..s1 };
    match repair_rows(s2, s2.rhs.len() as int) {
        SetupRun::Ready(s3) => bootstrap(s3),
        SetupRun::Overflow => SetupRun::Overflow,
        SetupRun::Infeasible(s3) => SetupRun::Infeasible(s3),
    }
}

/// The same run, started from a tableau's own state with no row matched yet.
pub open spec fn dual_setup_run(t: Tableau) -> SetupRun {
    dual_setup_run_state(
        SetupState {
            mat: mat_of(t.a@),
            rhs: t.b@,
            rc: t.reduced_cost@,
            obj: t.obj,
            cost: t.c@,
            basis: t.basis_indecies@,
            seen: Seq::new(t.m as nat, |r: int| false),
        },
        t.n as int,
        t.m as int,
    )
}

/// A tableau is dual-ready when every row is matched by a plain identity
/// column, no column is a negated identity column (so no sign flips occur),
/// and no negated cost is negative (the starting reduced costs are already
/// dual-feasible).
pub open spec fn dual_ready(m: Seq<Seq<Fraction>>, c: Seq<Fraction>, n: int, rows: int) -> bool {
    &&& (forall|r: int| 0 <= r < rows ==> #[trigger] row_has_unit(m, n, r))
    &&& (forall|cc: int, r: int|
        0 <= cc < n && 0 <= r < rows ==> !(#[trigger] crate::solver::is_neg_unit_col(m[cc], r)))
    &&& (forall|j: int| 0 <= j < n ==> !(#[trigger] c[j]).neg_val().lt_val(frac_zero()))
}

/// The pivot-relevant state a tableau holds.
pub open spec fn pivot_state_of(t: Tableau) -> PivotState {
    PivotState {
        core: crate::solver::LoopState {
            mat: mat_of(t.a@),
            rhs: t.b@,
            rc: t.reduced_cost@,
            obj: t.obj,
        },
        basis: t.basis_indecies@,
    }
}

/// The mutable solver state; see the module documentation.  The fields are
/// public so that contracts can speak of them directly; the solver's own
/// methods keep `wf` and the basis invariant.
pub struct Tableau {
    pub n: usize,
    pub m: usize,
    pub solve_type: SolveType,
    pub variable_select_type: VariableSelectType,
    pub big_m_solve_type: BigMSolveType,
    pub debug: bool,
    pub big_m: bool,
    pub a: Vec<Vec<Fraction>>,
    pub b: Vec<Fraction>,
    pub c: Vec<Fraction>,
    pub reduced_cost: Vec<Fraction>,
    pub obj: Fraction,
    pub basis_indecies: Vec<usize>,
    pub basis_cost_vector: Vec<Fraction>,
    pub two_phase_cost_vector: Vec<Fraction>,
    pub original_basis_indecies: Option<Vec<usize>>,
    pub solution: Vec<Fraction>,
    pub entering_variable_index: usize,
    pub leaving_variable_index: usize,
    pub solved: bool,
    pub additional_info: SolveMessage,
    pub trace: Vec<TraceEvent>,
}

impl Tableau {
    /// Structural well-formedness: consistent sizes, well-formed fractions,
    /// and basis indices that are either in range or the out-of-range
    /// sentinel.
    pub open spec fn wf(self) -> bool {
        &&& self.n < usize::MAX
        &&& self.m < usize::MAX
        &&& self.a@.len() == self.n
        &&& is_matrix(mat_of(self.a@), self.n as int, self.m as int)
        &&& self.b@.len() == self.m
        &&& self.c@.len() == self.n
        &&& self.reduced_cost@.len() == self.n
        &&& self.basis_indecies@.len() == self.m
        &&& mat_wf(mat_of(self.a@))
        &&& all_wf(self.b@)
        &&& all_wf(self.c@)
        &&& all_wf(self.reduced_cost@)
        &&& all_wf(self.basis_cost_vector@)
        &&& all_wf(self.two_phase_cost_vector@)
        &&& all_wf(self.solution@)
        &&& self.obj.wf()
        &&& self.original_basis_indecies matches Option::Some(obi) ==> obi@.len() == self.m
            && forall|i: int| 0 <= i < self.m ==> #[trigger] obi@[i] < self.n
    }

    /// Every basic variable's column is the unit column of its row: the
    /// standing simplex invariant after primal basis detection.
    pub open spec fn basis_is_identity(self) -> bool {
        forall|r: int|
            0 <= r < self.m ==> #[trigger] self.basis_indecies@[r] < self.n && is_unit_col(
                mat_of(self.a@)[self.basis_indecies@[r] as int],
                r,
            )
    }

    /// The current status.
    pub fn status(&self) -> (r: SolveMessage)
        ensures
            r == self.additional_info,
    {
        self.additional_info
    }

    /// The current objective value.
    pub fn objective(&self) -> (r: Fraction)
        ensures
            r == self.obj,
    {
        self.obj
    }

    /// The solution vector recovered by `retrieve_solution`.
    pub fn solution(&self) -> (r: &Vec<Fraction>)
        ensures
            r == &self.solution,
    {
        &self.solution
    }

    /// The recorded pivot decisions (empty unless tracing is on).
    pub fn trace(&self) -> (r: &Vec<TraceEvent>)
        ensures
            r == &self.trace,
    {
        &self.trace
    }

    /// The first pass of a two-phase Big-M run, where the synthetic phase-1
    /// cost vector is built and used.
    pub open spec fn in_phase_one_setup(self) -> bool {
        !self.solved && self.big_m && self.big_m_solve_type == BigMSolveType::TwoPhase
    }

    /// The cost row that reduced costs are measured against: the synthetic
    /// phase-1 costs during phase 1 of a Big-M run, the true costs otherwise.
    pub open spec fn effective_costs(self) -> Seq<Fraction> {
        if self.big_m && self.big_m_solve_type == BigMSolveType::TwoPhase && self.additional_info
            != SolveMessage::Phase1Complete {
            self.two_phase_cost_vector@
        } else {
            self.c@
        }
    }

    /// Scans the columns for the identity basis and records it, also as the
    /// original basis; fails with `NoIdentityColumn` when some identity
    /// column has no match.
    pub fn find_basis_indecies(&mut self) -> (res: Result<(), SimplexError>)
        requires
            old(self).wf(),
            old(self).n > 0,
        ensures
            final(self).wf(),
            *final(self) == (Tableau {
                basis_indecies: final(self).basis_indecies,
                original_basis_indecies: final(self).original_basis_indecies,
                ..*old(self)
            }),
            res is Err <==> exists|r: int|
                0 <= r < old(self).m && !(#[trigger] row_has_unit(
                    mat_of(old(self).a@),
                    old(self).n as int,
                    r,
                )),
            res is Err ==> res == Result::<(), SimplexError>::Err(SimplexError::NoIdentityColumn)
                && *final(self) == *old(self),
            res is Ok ==> final(self).basis_is_identity(),
            res is Ok ==> final(self).basis_indecies@ == spec_detected_basis(
                mat_of(old(self).a@),
                old(self).n as int,
                old(self).m as int,
            ),
            res is Ok ==> forall|r: int, col: int|
                0 <= r < old(self).m && #[trigger] final(self).basis_indecies@[r] < col < old(self).n ==> !is_unit_col(#[trigger] mat_of(old(self).a@)[col], r),
            res is Ok ==> (final(self).original_basis_indecies matches Option::Some(obi)
                && obi@ == final(self).basis_indecies@),
    {
        proof {
            assert(mat_of(self.a@)[0].len() == self.m);
        }
        let basis = crate::solver::find_basis(&self.a);
        let n = self.n;
        let m = self.m;
        let mut i: usize = 0;
        while i < m
            invariant
                0 <= i <= m,
                n == self.n,
                m == self.m,
                self.wf(),
                n > 0,
                basis@.len() == m,
                forall|r: int|
                    0 <= r < m ==> if row_has_unit(mat_of(self.a@), n as int, r) {
                        &&& #[trigger] basis@[r] < n
                        &&& is_unit_col(mat_of(self.a@)[basis@[r] as int], r)
                    } else {
                        basis@[r] == n + 1
                    },
                forall|r: int| 0 <= r < i ==> #[trigger] basis@[r] < n,
            decreases m - i,
        {
            if basis[i] == n + 1 {
                proof {
                    assert(!row_has_unit(mat_of(self.a@), n as int, i as int));
                }
                return Err(SimplexError::NoIdentityColumn);
            }
            i = i + 1;
        }
        proof {
            assert forall|r: int| 0 <= r < m implies #[trigger] row_has_unit(
                mat_of(self.a@),
                n as int,
                r,
            ) by {
                assert(basis@[r] < n);
            }
        }
        proof {
            assert(basis@ =~= spec_detected_basis(mat_of(self.a@), n as int, m as int));
        }
        let obi = crate::solver::copy_indices(&basis);
        self.basis_indecies = basis;
        self.original_basis_indecies = Some(obi);
        Ok(())
    }

    /// Fills the basis-cost vector `basis_cost_vector[row] ==
    /// costs[basis_indecies[row]]`; on the first pass of a two-phase Big-M
    /// run the synthetic phase-1 cost vector (minus one for every column with
    /// an infinite true cost, zero otherwise) is built first and used in
    /// place of the true costs.
    pub fn compute_basis_cost_vector(&mut self)
        requires
            old(self).wf(),
            forall|i: int|
                0 <= i < old(self).m ==> #[trigger] old(self).basis_indecies@[i] < old(self).n,
        ensures
            final(self).wf(),
            *final(self) == (Tableau {
                basis_cost_vector: final(self).basis_cost_vector,
                two_phase_cost_vector: final(self).two_phase_cost_vector,
                ..*old(self)
            }),
            final(self).basis_cost_vector@.len() == old(self).m,
            if old(self).in_phase_one_setup() {
                &&& final(self).two_phase_cost_vector@.len() == old(self).n
                &&& forall|i: int|
                    0 <= i < old(self).n ==> #[trigger] final(self).two_phase_cost_vector@[i] == (
                    if old(self).c@[i].is_inf() {
                        Fraction::from_int(-1)
                    } else {
                        Fraction::from_int(0)
                    })
                &&& forall|i: int|
                    0 <= i < old(self).m ==> #[trigger] final(self).basis_cost_vector@[i]
                        == final(self).two_phase_cost_vector@[old(self).basis_indecies@[i] as int]
            } else {
                &&& final(self).two_phase_cost_vector == old(self).two_phase_cost_vector
                &&& forall|i: int|
                    0 <= i < old(self).m ==> #[trigger] final(self).basis_cost_vector@[i]
                        == old(self).c@[old(self).basis_indecies@[i] as int]
            },
    {
        let n = self.n;
        let m = self.m;
        let is_two_phase = match self.big_m_solve_type {
            BigMSolveType::TwoPhase => true,
        };
        if !self.solved && self.big_m && is_two_phase {
            let mut tp: Vec<Fraction> = Vec::new();
            let mut i: usize = 0;
            while i < n
                invariant
                    0 <= i <= n,
                    n == self.n,
                    self.wf(),
                    tp@.len() == i,
                    all_wf(tp@),
                    forall|j: int|
                        0 <= j < i ==> #[trigger] tp@[j] == (if self.c@[j].is_inf() {
                            Fraction::from_int(-1)
                        } else {
                            Fraction::from_int(0)
                        }),
                decreases n - i,
            {
                let cv = self.c[i];
                if cv.numerator == i64::MAX || cv.numerator == -i64::MAX {
                    tp.push(Fraction::new(-1, 1));
                } else {
                    tp.push(Fraction::new(0, 1));
                }
                i = i + 1;
            }
            self.two_phase_cost_vector = tp;
            let mut bcv: Vec<Fraction> = Vec::new();
            let mut i: usize = 0;
            while i < m
                invariant
                    0 <= i <= m,
                    n == self.n,
                    m == self.m,
                    self.wf(),
                    self.two_phase_cost_vector@.len() == n,
                    forall|j: int|
                        0 <= j < m ==> #[trigger] self.basis_indecies@[j] < n,
                    bcv@.len() == i,
                    all_wf(bcv@),
                    forall|j: int|
                        0 <= j < i ==> #[trigger] bcv@[j] == self.two_phase_cost_vector@[
                        self.basis_indecies@[j] as int],
                decreases m - i,
            {
                bcv.push(self.two_phase_cost_vector[self.basis_indecies[i]]);
                i = i + 1;
            }
            self.basis_cost_vector = bcv;
        } else {
            let mut bcv: Vec<Fraction> = Vec::new();
            let mut i: usize = 0;
            while i < m
                invariant
                    0 <= i <= m,
                    n == self.n,
                    m == self.m,
                    self.wf(),
                    forall|j: int|
                        0 <= j < m ==> #[trigger] self.basis_indecies@[j] < n,
                    bcv@.len() == i,
                    all_wf(bcv@),
                    forall|j: int|
                        0 <= j < i ==> #[trigger] bcv@[j] == self.c@[self.basis_indecies@[j]
                            as int],
                decreases m - i,
            {
                bcv.push(self.c[self.basis_indecies[i]]);
                i = i + 1;
            }
            self.basis_cost_vector = bcv;
        }
    }

    /// Recomputes the reduced-cost row and objective against the current
    /// basis costs: entry `j` is `a[j] · basis_cost_vector − costs[j]` and the
    /// objective is `basis_cost_vector · b`, with the short cut that an
    /// all-zero basis-cost vector gives entries `−costs[j]` and leaves the
    /// objective as it was.  `costs` is the effective cost row (synthetic in
    /// phase 1 of a Big-M run).
    pub fn compute_reduced_cost(&mut self) -> (res: Result<(), SimplexError>)
        requires
            old(self).wf(),
            old(self).basis_cost_vector@.len() == old(self).m,
            old(self).effective_costs().len() == old(self).n,
        ensures
            final(self).wf(),
            *final(self) == (Tableau {
                reduced_cost: final(self).reduced_cost,
                obj: final(self).obj,
                ..*old(self)
            }),
            res is Ok <==> crate::solver::reduced_cost_ok(
                mat_of(old(self).a@),
                old(self).basis_cost_vector@,
                old(self).b@,
                old(self).effective_costs(),
            ),
            res is Err ==> *final(self) == *old(self) && res == Result::<(), SimplexError>::Err(
                SimplexError::ArithmeticOverflow,
            ),
            res is Ok ==> final(self).reduced_cost@.len() == old(self).n,
            res is Ok ==> if crate::solver::is_zero_vec(old(self).basis_cost_vector@) {
                &&& final(self).obj == old(self).obj
                &&& forall|j: int|
                    0 <= j < old(self).n ==> #[trigger] final(self).reduced_cost@[j] == old(self).effective_costs()[j].neg_val()
            } else {
                &&& Some(final(self).obj) == crate::solver::dot(
                    old(self).basis_cost_vector@,
                    old(self).b@,
                )
                &&& forall|j: int|
                    0 <= j < old(self).n ==> Some(#[trigger] final(self).reduced_cost@[j])
                        == crate::solver::reduced_entry(
                        mat_of(old(self).a@)[j],
                        old(self).basis_cost_vector@,
                        old(self).effective_costs()[j],
                    )
            },
    {
        let n = self.n;
        let m = self.m;
        let ghost costs = self.effective_costs();
        let is_two_phase = match self.big_m_solve_type {
            BigMSolveType::TwoPhase => true,
        };
        let phase_one = self.big_m && is_two_phase && !matches!(
            self.additional_info,
            SolveMessage::Phase1Complete,
        );
        proof {
            if phase_one {
                assert(costs == self.two_phase_cost_vector@);
            } else {
                assert(costs == self.c@);
            }
        }
        let mut is_zero = true;
        let mut i: usize = 0;
        while i < m
            invariant
                0 <= i <= m,
                m == self.basis_cost_vector@.len(),
                is_zero <==> (forall|j: int|
                    0 <= j < i ==> #[trigger] self.basis_cost_vector@[j] == frac_zero()),
            decreases m - i,
        {
            let z = self.basis_cost_vector[i];
            if !(z.numerator == 0 && z.denominator == 1) {
                proof {
                    assert(self.basis_cost_vector@[i as int] != frac_zero());
                }
                is_zero = false;
            }
            i = i + 1;
        }
        proof {
            assert(is_zero <==> crate::solver::is_zero_vec(self.basis_cost_vector@));
        }
        if !is_zero {
            let mut rc: Vec<Fraction> = Vec::new();
            let mut j: usize = 0;
            while j < n
                invariant
                    0 <= j <= n,
                    self.wf(),
                    n == self.n,
                    m == self.m,
                    self.basis_cost_vector@.len() == m,
                    costs == self.effective_costs(),
                    costs.len() == n,
                    all_wf(costs),
                    !crate::solver::is_zero_vec(self.basis_cost_vector@),
                    phase_one ==> costs == self.two_phase_cost_vector@,
                    !phase_one ==> costs == self.c@,
                    rc@.len() == j,
                    all_wf(rc@),
                    forall|k: int|
                        0 <= k < j ==> Some(#[trigger] rc@[k]) == crate::solver::reduced_entry(
                            mat_of(self.a@)[k],
                            self.basis_cost_vector@,
                            costs[k],
                        ),
                decreases n - j,
            {
                proof {
                    assert(mat_of(self.a@)[j as int] == self.a@[j as int]@);
                }
                let s = match crate::solver::dot_product(&self.a[j], &self.basis_cost_vector) {
                    Some(v) => v,
                    None => {
                        return Err(SimplexError::ArithmeticOverflow);
                    },
                };
                let cost_j = if phase_one {
                    self.two_phase_cost_vector[j]
                } else {
                    self.c[j]
                };
                let entry = match s.checked_sub(cost_j) {
                    Some(v) => v,
                    None => {
                        return Err(SimplexError::ArithmeticOverflow);
                    },
                };
                rc.push(entry);
                j = j + 1;
            }
            let obj = match crate::solver::dot_product(&self.basis_cost_vector, &self.b) {
                Some(v) => v,
                None => {
                    return Err(SimplexError::ArithmeticOverflow);
                },
            };
            proof {
                assert forall|k: int| 0 <= k < mat_of(self.a@).len() implies
                    crate::solver::reduced_entry(
                    #[trigger] mat_of(self.a@)[k],
                    self.basis_cost_vector@,
                    costs[k],
                ) is Some by {
                    assert(Some(rc@[k]) == crate::solver::reduced_entry(
                        mat_of(self.a@)[k],
                        self.basis_cost_vector@,
                        costs[k],
                    ));
                }
            }
            self.reduced_cost = rc;
            self.obj = obj;
            Ok(())
        } else {
            let mut rc: Vec<Fraction> = Vec::new();
            let mut j: usize = 0;
            while j < n
                invariant
                    0 <= j <= n,
                    self.wf(),
                    n == self.n,
                    costs == self.effective_costs(),
                    costs.len() == n,
                    all_wf(costs),
                    crate::solver::is_zero_vec(self.basis_cost_vector@),
                    phase_one ==> costs == self.two_phase_cost_vector@,
                    !phase_one ==> costs == self.c@,
                    rc@.len() == j,
                    all_wf(rc@),
                    forall|k: int| 0 <= k < j ==> #[trigger] rc@[k] == costs[k].neg_val(),
                decreases n - j,
            {
                let cost_j = if phase_one {
                    self.two_phase_cost_vector[j]
                } else {
                    self.c[j]
                };
                rc.push(core::ops::Neg::neg(cost_j));
                j = j + 1;
            }
            self.reduced_cost = rc;
            Ok(())
        }
    }

    /// One Gauss-Jordan pivot on the recorded entering column and leaving
    /// row: the matrix, right-hand side, reduced costs and objective take the
    /// pivoted values and the entering variable becomes basic in the leaving
    /// row.  Nothing is changed on overflow.
    pub fn update(&mut self) -> (res: Result<(), SimplexError>)
        requires
            old(self).wf(),
            !old(self).solved,
            old(self).entering_variable_index < old(self).n,
            old(self).leaving_variable_index < old(self).m,
        ensures
            final(self).wf(),
            res is Ok <==> crate::solver::pivot_ok(
                mat_of(old(self).a@),
                old(self).b@,
                old(self).reduced_cost@,
                old(self).obj,
                old(self).entering_variable_index as int,
                old(self).leaving_variable_index as int,
            ),
            res is Err ==> *final(self) == *old(self) && res == Result::<(), SimplexError>::Err(
                SimplexError::ArithmeticOverflow,
            ),
            res is Ok ==> ({
                let e = old(self).entering_variable_index as int;
                let r = old(self).leaving_variable_index as int;
                &&& *final(self) == (Tableau {
                    a: final(self).a,
                    b: final(self).b,
                    reduced_cost: final(self).reduced_cost,
                    obj: final(self).obj,
                    basis_indecies: final(self).basis_indecies,
                    ..*old(self)
                })
                &&& final(self).basis_indecies@ == old(self).basis_indecies@.update(
                    r,
                    old(self).entering_variable_index,
                )
                &&& forall|c: int, row: int|
                    0 <= c < old(self).n && 0 <= row < old(self).m ==> Some(
                        #[trigger] mat_of(final(self).a@)[c][row],
                    ) == crate::solver::pivot_mat_entry(mat_of(old(self).a@), e, r, c, row)
                &&& forall|row: int|
                    0 <= row < old(self).m ==> Some(#[trigger] final(self).b@[row])
                        == crate::solver::pivot_rhs_entry(mat_of(old(self).a@), old(self).b@, e, r, row)
                &&& forall|c: int|
                    0 <= c < old(self).n ==> Some(#[trigger] final(self).reduced_cost@[c])
                        == crate::solver::pivot_rc_entry(
                        mat_of(old(self).a@),
                        old(self).reduced_cost@,
                        e,
                        r,
                        c,
                    )
                &&& Some(final(self).obj) == crate::solver::pivot_obj_entry(
                    mat_of(old(self).a@),
                    old(self).b@,
                    old(self).reduced_cost@,
                    old(self).obj,
                    e,
                    r,
                )
            }),
    {
        match crate::solver::pivot_update(
            &self.a,
            &self.b,
            &self.reduced_cost,
            self.obj,
            self.entering_variable_index,
            self.leaving_variable_index,
        ) {
            Ok((a2, b2, rc2, o2)) => {
                proof {
                    assert(mat_of(a2@).len() == a2@.len());
                }
                self.a = a2;
                self.b = b2;
                self.reduced_cost = rc2;
                self.obj = o2;
                let lv = self.leaving_variable_index;
                let ev = self.entering_variable_index;
                self.basis_indecies.set(lv, ev);
                Ok(())
            },
            Err(_) => Err(SimplexError::ArithmeticOverflow),
        }
    }

    /// Chooses the entering variable.  Under the primal rules: Bland takes
    /// the first column with a negative reduced cost, Standard the first
    /// column with the most negative one; with no negative reduced cost the
    /// tableau is terminal — `Infeasible` when phase 1 of a Big-M run ends
    /// with a nonzero objective (artificial variables could not be driven
    /// out), `Optimal` otherwise.  In dual mode: the column with the greatest
    /// ratio `reduced_cost[c] / a[c][leaving]` among columns with a strictly
    /// negative entry in the leaving row; none eligible means `Infeasible`.
    #[verifier::loop_isolation(false)]
    pub fn compute_entering_variable(&mut self) -> (res: Result<(), SimplexError>)
        requires
            old(self).wf(),
            old(self).solve_type == SolveType::Dual ==> old(self).leaving_variable_index < old(self).m,
        ensures
            final(self).wf(),
            *final(self) == (Tableau {
                entering_variable_index: final(self).entering_variable_index,
                solved: final(self).solved,
                additional_info: final(self).additional_info,
                trace: final(self).trace,
                ..*old(self)
            }),
            old(self).solve_type == SolveType::Dual ==> ({
                let lv = old(self).leaving_variable_index as int;
                let n = old(self).n as int;
                let scan = dual_max_prefix(
                    mat_of(old(self).a@),
                    old(self).reduced_cost@,
                    lv,
                    n,
                    n,
                );
                &&& (res is Ok <==> dual_ratios_ok(
                    mat_of(old(self).a@),
                    old(self).reduced_cost@,
                    lv,
                    n,
                ))
                &&& (res is Err ==> *final(self) == *old(self) && res == Result::<
                    (),
                    SimplexError,
                >::Err(SimplexError::ArithmeticOverflow))
                &&& res is Ok ==> if scan.0 == Fraction::from_int(-(i64::MAX as int)) {
                    &&& final(self).solved
                    &&& final(self).additional_info == SolveMessage::Infeasible
                } else {
                    &&& final(self).entering_variable_index as int == scan.1
                    &&& final(self).solved == old(self).solved
                    &&& final(self).additional_info == old(self).additional_info
                }
            }),
            old(self).solve_type != SolveType::Dual ==> res is Ok && ({
                let n = old(self).n as int;
                let found = match old(self).variable_select_type {
                    VariableSelectType::Bland => crate::solver::bland_index(
                        old(self).reduced_cost@,
                        0,
                    ),
                    VariableSelectType::Standard => most_negative_prefix(
                        old(self).reduced_cost@,
                        n,
                        n,
                    ).1,
                };
                if found < n {
                    &&& final(self).entering_variable_index as int == found
                    &&& final(self).solved == old(self).solved
                    &&& final(self).additional_info == old(self).additional_info
                } else {
                    &&& final(self).solved
                    &&& final(self).entering_variable_index == old(self).entering_variable_index
                    &&& final(self).additional_info == (if old(self).big_m && old(self).obj
                        != frac_zero() {
                        SolveMessage::Infeasible
                    } else {
                        SolveMessage::Optimal
                    })
                }
            }),
    {
        let n = self.n;
        match self.solve_type {
            SolveType::Dual => {
                let lv = self.leaving_variable_index;
                let ghost ms = mat_of(self.a@);
                let mut max_ratio = Fraction::new(-i64::MAX, 1);
                let mut entering = self.entering_variable_index;
                let ghost entering0 = entering;
                let mut col: usize = 0;
                while col < n
                    invariant
                        0 <= col <= n,
                        n == self.n,
                        self.wf(),
                        lv == self.leaving_variable_index,
                        lv < self.m,
                        ms == mat_of(self.a@),
                        dual_ratios_ok(ms, self.reduced_cost@, lv as int, col as int),
                        max_ratio == dual_max_prefix(
                            ms,
                            self.reduced_cost@,
                            lv as int,
                            col as int,
                            n as int,
                        ).0,
                        ({
                            let idx = dual_max_prefix(
                                ms,
                                self.reduced_cost@,
                                lv as int,
                                col as int,
                                n as int,
                            ).1;
                            entering as int == if idx == n as int {
                                entering0 as int
                            } else {
                                idx
                            }
                        }),
                    decreases n - col,
                {
                    proof {
                        assert(ms[col as int] == self.a@[col as int]@);
                    }
                    if self.a[col][lv] < Fraction::from(0i64) {
                        let ratio = match self.reduced_cost[col].checked_div(self.a[col][lv]) {
                            Some(v) => v,
                            None => {
                                proof {
                                    assert(ms[col as int][lv as int].lt_val(frac_zero())
                                        && !self.reduced_cost@[col as int].div_ok(
                                        ms[col as int][lv as int],
                                    ));
                                }
                                return Err(SimplexError::ArithmeticOverflow);
                            },
                        };
                        if ratio > max_ratio {
                            max_ratio = ratio;
                            entering = col;
                        }
                    }
                    col = col + 1;
                }
                if max_ratio.numerator == -i64::MAX && max_ratio.denominator == 1 {
                    self.solved = true;
                    self.additional_info = SolveMessage::Infeasible;
                } else {
                    self.entering_variable_index = entering;
                    proof {
                        lemma_dual_max_prefix_props(
                            ms,
                            self.reduced_cost@,
                            lv as int,
                            n as int,
                            n as int,
                        );
                    }
                    if self.debug {
                        let ev = entering;
                        self.trace.push(TraceEvent::EnteringChosen(ev));
                    }
                }
                Ok(())
            },
            SolveType::Standard => {
                match self.variable_select_type {
                    VariableSelectType::Bland => {
                        let e = crate::solver::bland_reduced_cost(&self.reduced_cost);
                        if e < n {
                            self.entering_variable_index = e;
                            if self.debug {
                                self.trace.push(TraceEvent::EnteringChosen(e));
                            }
                            return Ok(());
                        }
                    },
                    VariableSelectType::Standard => {
                        let mut most_negative = Fraction::new(0, 1);
                        let mut entering = n;
                        let mut col: usize = 0;
                        while col < n
                            invariant
                                0 <= col <= n,
                                n == self.n,
                                self.wf(),
                                most_negative == most_negative_prefix(
                                    self.reduced_cost@,
                                    col as int,
                                    n as int,
                                ).0,
                                entering as int == most_negative_prefix(
                                    self.reduced_cost@,
                                    col as int,
                                    n as int,
                                ).1,
                            decreases n - col,
                        {
                            if self.reduced_cost[col] < most_negative {
                                entering = col;
                                most_negative = self.reduced_cost[col];
                            }
                            col = col + 1;
                        }
                        proof {
                            lemma_most_negative_prefix_props(self.reduced_cost@, n as int, n as int);
                        }
                        if entering < n {
                            self.entering_variable_index = entering;
                            if self.debug {
                                self.trace.push(TraceEvent::EnteringChosen(entering));
                            }
                            return Ok(());
                        }
                    },
                }
                self.solved = true;
                let is_two_phase = match self.big_m_solve_type {
                    BigMSolveType::TwoPhase => true,
                };
                let z = self.obj;
                if self.big_m && is_two_phase && !(z.numerator == 0 && z.denominator == 1) {
                    self.additional_info = SolveMessage::Infeasible;
                } else {
                    self.additional_info = SolveMessage::Optimal;
                }
                Ok(())
            },
        }
    }

    /// Chooses the leaving variable.  Under the primal rules: among rows with
    /// a strictly positive entry in the entering column, the first row with
    /// the least ratio `b[row] / a[entering][row]`; none eligible means the
    /// program is `Unbounded`.  In dual mode: the first row with the least
    /// right-hand side; a least value that is not negative means the tableau
    /// is `Optimal`.
    #[verifier::loop_isolation(false)]
    pub fn compute_leaving_variable(&mut self) -> (res: Result<(), SimplexError>)
        requires
            old(self).wf(),
            old(self).solve_type != SolveType::Dual ==> old(self).entering_variable_index < old(self).n,
        ensures
            final(self).wf(),
            *final(self) == (Tableau {
                leaving_variable_index: final(self).leaving_variable_index,
                solved: final(self).solved,
                additional_info: final(self).additional_info,
                trace: final(self).trace,
                ..*old(self)
            }),
            old(self).solve_type == SolveType::Dual ==> res is Ok && (if old(self).m == 0 {
                final(self).solved && final(self).additional_info == SolveMessage::Optimal
            } else {
                let scan = min_b_prefix(old(self).b@, old(self).m as int);
                &&& final(self).leaving_variable_index as int == scan.1
                &&& if !scan.0.lt_val(frac_zero()) {
                    final(self).solved && final(self).additional_info == SolveMessage::Optimal
                } else {
                    final(self).solved == old(self).solved && final(self).additional_info == old(self).additional_info
                }
            }),
            old(self).solve_type != SolveType::Dual ==> ({
                let col = mat_of(old(self).a@)[old(self).entering_variable_index as int];
                let scan = min_ratio_prefix(col, old(self).b@, old(self).m as int, old(self).m as int);
                &&& (res is Ok <==> crate::solver::min_ratio_ok(col, old(self).b@, old(self).m as int))
                &&& (res is Err ==> *final(self) == *old(self) && res == Result::<
                    (),
                    SimplexError,
                >::Err(SimplexError::ArithmeticOverflow))
                &&& res is Ok ==> {
                    &&& final(self).leaving_variable_index as int == scan.1
                    &&& if scan.1 == old(self).m as int {
                        final(self).solved && final(self).additional_info == SolveMessage::Unbounded
                    } else {
                        final(self).solved == old(self).solved && final(self).additional_info
                            == old(self).additional_info
                    }
                }
            }),
    {
        let m = self.m;
        match self.solve_type {
            SolveType::Dual => {
                if m == 0 {
                    self.solved = true;
                    self.additional_info = SolveMessage::Optimal;
                    return Ok(());
                }
                let mut min = self.b[0];
                let mut leaving: usize = 0;
                let mut row: usize = 1;
                while row < m
                    invariant
                        1 <= row <= m,
                        min == min_b_prefix(self.b@, row as int).0,
                        leaving as int == min_b_prefix(self.b@, row as int).1,
                    decreases m - row,
                {
                    if self.b[row] < min {
                        leaving = row;
                        min = self.b[row];
                    }
                    row = row + 1;
                }
                self.leaving_variable_index = leaving;
                if !(min < Fraction::from(0i64)) {
                    self.solved = true;
                    self.additional_info = SolveMessage::Optimal;
                } else {
                    if self.debug {
                        self.trace.push(TraceEvent::LeavingChosen(leaving));
                    }
                }
                Ok(())
            },
            SolveType::Standard => {
                let e = self.entering_variable_index;
                let ghost cs = mat_of(self.a@)[e as int];
                let mut minimum_ratio = Fraction::new(i64::MAX, 1);
                let mut leaving = m;
                let mut row: usize = 0;
                proof {
                    assert(cs == self.a@[e as int]@);
                }
                while row < m
                    invariant
                        0 <= row <= m,
                        minimum_ratio == min_ratio_prefix(cs, self.b@, row as int, m as int).0,
                        leaving as int == min_ratio_prefix(cs, self.b@, row as int, m as int).1,
                        crate::solver::min_ratio_ok(cs, self.b@, row as int),
                    decreases m - row,
                {
                    if !(self.a[e][row] <= Fraction::from(0i64)) {
                        let ratio = match self.b[row].checked_div(self.a[e][row]) {
                            Some(v) => v,
                            None => {
                                proof {
                                    assert(crate::solver::is_pos(cs[row as int]) && !self.b@[row
                                        as int].div_ok(cs[row as int]));
                                    assert(!crate::solver::min_ratio_ok(cs, self.b@, m as int));
                                }
                                return Err(SimplexError::ArithmeticOverflow);
                            },
                        };
                        if ratio < minimum_ratio {
                            minimum_ratio = ratio;
                            leaving = row;
                        }
                    }
                    row = row + 1;
                }
                self.leaving_variable_index = leaving;
                if leaving == m {
                    self.solved = true;
                    self.additional_info = SolveMessage::Unbounded;
                } else {
                    if self.debug {
                        self.trace.push(TraceEvent::LeavingChosen(leaving));
                    }
                }
                Ok(())
            },
        }
    }

    /// Recovers the solution vector from the final basis: variable `i` takes
    /// the right-hand side of the first row where it is basic, and zero when
    /// it is nonbasic.
    #[verifier::loop_isolation(false)]
    pub fn retrieve_solution(&mut self)
        requires
            old(self).wf(),
        ensures
            final(self).wf(),
            *final(self) == (Tableau { solution: final(self).solution, ..*old(self) }),
            final(self).solution@.len() == old(self).n,
            forall|i: int|
                0 <= i < old(self).n ==> #[trigger] final(self).solution@[i] == ({
                    let j = first_basic_row(old(self).basis_indecies@, i, 0);
                    if j < old(self).m as int {
                        old(self).b@[j]
                    } else {
                        frac_zero()
                    }
                }),
            final(self).solution@ == spec_solution(
                old(self).basis_indecies@,
                old(self).b@,
                old(self).n as int,
            ),
    {
        let n = self.n;
        let m = self.m;
        let mut solution: Vec<Fraction> = Vec::new();
        let mut i: usize = 0;
        while i < n
            invariant
                0 <= i <= n,
                solution@.len() == i,
                all_wf(solution@),
                forall|k: int|
                    0 <= k < i ==> #[trigger] solution@[k] == ({
                        let j = first_basic_row(self.basis_indecies@, k, 0);
                        if j < m as int {
                            self.b@[j]
                        } else {
                            frac_zero()
                        }
                    }),
            decreases n - i,
        {
            let mut j: usize = 0;
            let mut entry = Fraction::new(0, 1);
            let mut found = false;
            while j < m
                invariant
                    0 <= j <= m,
                    !found,
                    entry == frac_zero(),
                    first_basic_row(self.basis_indecies@, i as int, 0) == first_basic_row(
                        self.basis_indecies@,
                        i as int,
                        j as int,
                    ),
                decreases m - j,
            {
                if self.basis_indecies[j] == i {
                    entry = self.b[j];
                    found = true;
                    break ;
                }
                j = j + 1;
            }
            proof {
                if found {
                    assert(first_basic_row(self.basis_indecies@, i as int, 0) == j as int);
                } else {
                    assert(first_basic_row(self.basis_indecies@, i as int, 0) == m as int);
                }
            }
            solution.push(entry);
            i = i + 1;
        }
        proof {
            assert(solution@ =~= spec_solution(self.basis_indecies@, self.b@, n as int));
        }
        self.solution = solution;
    }

    /// The inverse of the original basis submatrix, read off the columns of
    /// the current matrix at the original basis indices; `None` once that
    /// mapping was invalidated by a structural column or row change.
    #[verifier::loop_isolation(false)]
    pub fn find_b_inverse(&self) -> (res: Option<Vec<Vec<Fraction>>>)
        requires
            self.wf(),
        ensures
            res is Some <==> self.original_basis_indecies is Some,
            res matches Option::Some(binv) ==> {
                let obi = self.original_basis_indecies->Some_0;
                &&& binv@.len() == self.m
                &&& forall|i: int| 0 <= i < self.m ==> (#[trigger] binv@[i])@.len() == self.m
                &&& forall|i: int, j: int|
                    0 <= i < self.m && 0 <= j < self.m ==> #[trigger] binv@[i]@[j] == mat_of(
                        self.a@,
                    )[obi@[i] as int][j]
            },
    {
        let m = self.m;
        match &self.original_basis_indecies {
            Some(obi) => {
                let mut binv: Vec<Vec<Fraction>> = Vec::new();
                let mut i: usize = 0;
                while i < m
                    invariant
                        0 <= i <= m,
                        binv@.len() == i,
                        forall|k: int| 0 <= k < i ==> (#[trigger] binv@[k])@.len() == m,
                        forall|k: int, j: int|
                            0 <= k < i && 0 <= j < m ==> #[trigger] binv@[k]@[j] == mat_of(
                                self.a@,
                            )[obi@[k] as int][j],
                    decreases m - i,
                {
                    let mut row: Vec<Fraction> = Vec::new();
                    let mut j: usize = 0;
                    while j < m
                        invariant
                            0 <= j <= m,
                            0 <= i < m,
                            row@.len() == j,
                            forall|j2: int|
                                0 <= j2 < j ==> #[trigger] row@[j2] == mat_of(self.a@)[obi@[i as int]
                                    as int][j2],
                        decreases m - j,
                    {
                        proof {
                            assert(mat_of(self.a@)[obi@[i as int] as int] == self.a@[obi@[i as int]
                                as int]@);
                        }
                        row.push(self.a[obi[i]][j]);
                        j = j + 1;
                    }
                    binv.push(row);
                    i = i + 1;
                }
                Some(binv)
            },
            None => None,
        }
    }

    /// Configuration and mode fields are untouched.
    pub open spec fn same_config(self, other: Tableau) -> bool {
        &&& self.solve_type == other.solve_type
        &&& self.variable_select_type == other.variable_select_type
        &&& self.big_m_solve_type == other.big_m_solve_type
        &&& self.big_m == other.big_m
        &&& self.debug == other.debug
    }

    /// Establishes a dual-feasible starting basis.  Each row is matched to a
    /// column equal to its identity column, or to the negation of one (the
    /// row is then sign-flipped); rows with no match are pivoted on their
    /// first nonzero entry, an all-zero row being infeasible (nonzero right
    /// hand side) or redundant (dropped).  If reduced costs are still
    /// negative, an artificial bounding constraint and variable are appended
    /// and one bootstrap pivot on the most negative reduced cost forces dual
    /// feasibility, invalidating the original-basis mapping.
    #[verifier::loop_isolation(false)]
    #[verifier::rlimit(100)]
    pub fn setup_dual_tableau(&mut self) -> (res: Result<(), SimplexError>)
        requires
            old(self).wf(),
            !old(self).big_m,
            !old(self).solved,
            old(self).n + 1 < usize::MAX,
            old(self).m + 1 < usize::MAX,
            old(self).n > 0,
        ensures
            final(self).wf(),
            final(self).same_config(*old(self)),
            res is Err ==> res == Result::<(), SimplexError>::Err(SimplexError::ArithmeticOverflow),
            res is Ok ==> (final(self).solved ==> final(self).additional_info
                == SolveMessage::Infeasible),
            final(self).original_basis_indecies == old(self).original_basis_indecies || final(self).original_basis_indecies is None,
            dual_ready(mat_of(old(self).a@), old(self).c@, old(self).n as int, old(self).m as int)
                ==> (res is Ok && !final(self).solved && final(self).a == old(self).a && final(self).b == old(self).b && final(self).n == old(self).n && final(self).m == old(self).m
                && final(self).c == old(self).c && final(self).reduced_cost@ == Seq::new(
                old(self).c@.len(),
                |j: int| old(self).c@[j].neg_val(),
            ) && final(self).obj == old(self).obj),
            ({
                let run = dual_setup_run(*old(self));
                &&& ((res is Err) <==> (run is Overflow))
                &&& (run matches SetupRun::Infeasible(fs) ==> res is Ok && final(self).solved
                    && final(self).additional_info == SolveMessage::Infeasible && mat_of(
                    final(self).a@,
                ) == fs.mat && final(self).b@ == fs.rhs && final(self).reduced_cost@ == fs.rc
                    && final(self).obj == fs.obj && final(self).c@ == fs.cost && final(self).basis_indecies@ == fs.basis)
                &&& (run matches SetupRun::Ready(fs) ==> res is Ok && !final(self).solved
                    && mat_of(final(self).a@) == fs.mat && final(self).b@ == fs.rhs && final(self).reduced_cost@ == fs.rc && final(self).obj == fs.obj && final(self).c@ == fs.cost
                    && final(self).basis_indecies@ == fs.basis)
            }),
            res is Ok && !final(self).solved && final(self).n == old(self).n ==> forall|j: int|
                0 <= j < final(self).n ==> !(#[trigger] final(self).reduced_cost@[j]).lt_val(
                    frac_zero(),
                ),
    {
        let ghost ms = mat_of(old(self).a@);
        let ghost s0 = SetupState {
            mat: mat_of(old(self).a@),
            rhs: old(self).b@,
            rc: old(self).reduced_cost@,
            obj: old(self).obj,
            cost: old(self).c@,
            basis: old(self).basis_indecies@,
            seen: Seq::new(old(self).m as nat, |r: int| false),
        };
        let ghost mm0 = old(self).m as int;
        let ghost ready = dual_ready(ms, old(self).c@, old(self).n as int, old(self).m as int);
        let n = self.n;
        let mut seen: Vec<bool> = Vec::new();
        let mut i: usize = 0;
        while i < self.m
            invariant
                seen@.len() == i,
                0 <= i <= self.m,
                self == old(self),
                forall|j: int| 0 <= j < i ==> !(#[trigger] seen@[j]),
            decreases self.m - i,
        {
            seen.push(false);
            i = i + 1;
        }
        proof {
            assert(seen@ =~= s0.seen);
        }
        // Match each row to an identity column or a negated identity column.
        let mut col: usize = 0;
        while col < n
            invariant
                0 <= col <= n,
                n == self.n,
                self.wf(),
                self.same_config(*old(self)),
                !self.solved,
                self.m == old(self).m,
                self.c == old(self).c,
                self.obj == old(self).obj,
                self.original_basis_indecies == old(self).original_basis_indecies,
                seen@.len() == self.m,
                (SetupState {
                    mat: mat_of(self.a@),
                    rhs: self.b@,
                    rc: self.reduced_cost@,
                    obj: self.obj,
                    cost: self.c@,
                    basis: self.basis_indecies@,
                    seen: seen@,
                }) == scan_cols(s0, col as int, mm0),
                ready ==> (self.a == old(self).a && self.b == old(self).b && forall|r: int|
                    0 <= r < self.m ==> ((#[trigger] seen@[r]) <==> exists|cc: int|
                        0 <= cc < col && is_unit_col(#[trigger] ms[cc], r))),
            decreases n - col,
        {
            let mut row: usize = 0;
            while row < self.m
                invariant
                    0 <= row <= self.m,
                    0 <= col < n,
                    n == self.n,
                    self.wf(),
                    self.same_config(*old(self)),
                    !self.solved,
                    self.m == old(self).m,
                    self.c == old(self).c,
                    self.obj == old(self).obj,
                    self.original_basis_indecies == old(self).original_basis_indecies,
                    seen@.len() == self.m,
                    (SetupState {
                        mat: mat_of(self.a@),
                        rhs: self.b@,
                        rc: self.reduced_cost@,
                        obj: self.obj,
                        cost: self.c@,
                        basis: self.basis_indecies@,
                        seen: seen@,
                    }) == scan_rows(scan_cols(s0, col as int, mm0), col as int, row as int),
                    ready ==> (self.a == old(self).a && self.b == old(self).b && (forall|r: int|
                        0 <= r < row ==> ((#[trigger] seen@[r]) <==> exists|cc: int|
                            0 <= cc < col + 1 && is_unit_col(#[trigger] ms[cc], r))) && (forall|
                        r: int,
                    |
                        row <= r < self.m ==> ((#[trigger] seen@[r]) <==> exists|cc: int|
                            0 <= cc < col && is_unit_col(#[trigger] ms[cc], r)))),
                decreases self.m - row,
            {
                let ghost prev = SetupState {
                    mat: mat_of(self.a@),
                    rhs: self.b@,
                    rc: self.reduced_cost@,
                    obj: self.obj,
                    cost: self.c@,
                    basis: self.basis_indecies@,
                    seen: seen@,
                };
                proof {
                    assert(mat_of(self.a@)[col as int] == self.a@[col as int]@);
                }
                if crate::solver::col_is_unit(&self.a[col], row) {
                    seen.set(row, true);
                    self.basis_indecies.set(row, col);
                    proof {
                        if ready {
                            assert(is_unit_col(ms[col as int], row as int));
                        }
                        assert(SetupState {
                            mat: mat_of(self.a@),
                            rhs: self.b@,
                            rc: self.reduced_cost@,
                            obj: self.obj,
                            cost: self.c@,
                            basis: self.basis_indecies@,
                            seen: seen@,
                        } == scan_cell(prev, col as int, row as int));
                    }
                } else if crate::solver::col_is_neg_unit(&self.a[col], row) {
                    proof {
                        if ready {
                            // No column is a negated identity column on a
                            // dual-ready tableau.
                            assert(crate::solver::is_neg_unit_col(ms[col as int], row as int));
                            assert(false);
                        }
                    }
                    seen.set(row, true);
                    self.basis_indecies.set(row, col);
                    // A negated identity column: flip the whole row.
                    proof {
                        assert forall|i: int|
                            0 <= i < self.a@.len() implies row < (#[trigger] self.a@[i])@.len()
                            && self.a@[i]@.len() == self.m by {
                            assert(mat_of(self.a@)[i] == self.a@[i]@);
                        }
                    }
                    crate::solver::negate_row(&mut self.a, row);
                    proof {
                        assert forall|i: int|
                            0 <= i < self.a@.len() implies (#[trigger] mat_of(self.a@)[i]).len()
                            == self.m && all_wf(mat_of(self.a@)[i]) by {
                            assert(mat_of(self.a@)[i] == self.a@[i]@);
                        }
                        crate::fraction::lemma_mul_neg_one_wf(self.b@[row as int]);
                    }
                    let bv = match self.b[row].checked_mul(Fraction::new(-1, 1)) {
                        Some(f) => f,
                        None => {
                            proof {
                                assert(false);
                            }
                            return Err(SimplexError::ArithmeticOverflow);
                        },
                    };
                    self.b.set(row, bv);
                    proof {
                        let f = flip_row_state(prev, row as int);
                        assert forall|ci: int|
                            0 <= ci < n implies #[trigger] mat_of(self.a@)[ci] == f.mat[ci] by {
                            assert(mat_of(self.a@)[ci] == self.a@[ci]@);
                            assert forall|j: int|
                                0 <= j < self.a@[ci]@.len() implies #[trigger] self.a@[ci]@[j]
                                == f.mat[ci][j] by {
                                if j == row as int {
                                    assert(self.a@[ci]@[j] == prev.mat[ci][j].mul_val(
                                        neg_one_frac(),
                                    ));
                                } else {
                                    assert(self.a@[ci]@[j] == prev.mat[ci][j]);
                                }
                            }
                            assert(self.a@[ci]@ =~= f.mat[ci]);
                        }
                        assert(mat_of(self.a@) =~= f.mat);
                        assert(self.b@ =~= f.rhs);
                        assert(SetupState {
                            mat: mat_of(self.a@),
                            rhs: self.b@,
                            rc: self.reduced_cost@,
                            obj: self.obj,
                            cost: self.c@,
                            basis: self.basis_indecies@,
                            seen: seen@,
                        } == scan_cell(prev, col as int, row as int));
                    }
                } else {
                    proof {
                        assert(SetupState {
                            mat: mat_of(self.a@),
                            rhs: self.b@,
                            rc: self.reduced_cost@,
                            obj: self.obj,
                            cost: self.c@,
                            basis: self.basis_indecies@,
                            seen: seen@,
                        } == scan_cell(prev, col as int, row as int));
                    }
                }
                proof {
                    if ready {
                        assert(mat_of(self.a@)[col as int] == ms[col as int]);
                        assert forall|r: int| 0 <= r < row + 1 implies ((#[trigger] seen@[r])
                            <==> exists|cc: int|
                            0 <= cc < col + 1 && is_unit_col(#[trigger] ms[cc], r)) by {
                            if r < row {
                            } else {
                                if seen@[r] {
                                    if !(exists|cc: int|
                                        0 <= cc < col && is_unit_col(#[trigger] ms[cc], r)) {
                                        assert(is_unit_col(ms[col as int], r));
                                    }
                                } else {
                                    assert(!is_unit_col(ms[col as int], r));
                                    assert(!(exists|cc: int|
                                        0 <= cc < col + 1 && is_unit_col(#[trigger] ms[cc], r)));
                                }
                            }
                        }
                    }
                }
                row = row + 1;
            }
            col = col + 1;
        }
        // Reduced costs against an all-zero basis-cost vector.
        let mut zeros: Vec<Fraction> = Vec::new();
        let mut i: usize = 0;
        while i < self.m
            invariant
                0 <= i <= self.m,
                zeros@.len() == i,
                all_wf(zeros@),
                forall|j: int| 0 <= j < i ==> #[trigger] zeros@[j] == frac_zero(),
            decreases self.m - i,
        {
            zeros.push(Fraction::new(0, 1));
            i = i + 1;
        }
        self.basis_cost_vector = zeros;
        proof {
            assert(crate::solver::is_zero_vec(self.basis_cost_vector@));
        }
        match self.compute_reduced_cost() {
            Ok(()) => (),
            Err(_) => {
                proof {
                    if ready {
                        assert(false);
                    }
                }
                return Err(SimplexError::ArithmeticOverflow);
            },
        }
        proof {
            if ready {
                assert forall|r: int| 0 <= r < self.m implies #[trigger] seen@[r] by {
                    assert(row_has_unit(ms, n as int, r));
                }
                assert(self.reduced_cost@ =~= Seq::new(
                    old(self).c@.len(),
                    |j: int| old(self).c@[j].neg_val(),
                )) by {
                    assert(forall|j: int|
                        0 <= j < self.n ==> #[trigger] self.reduced_cost@[j] == old(self).c@[
                        j].neg_val());
                }
                assert(self.obj == old(self).obj);
            }
        }
        let ghost s1g = scan_cols(s0, n as int, mm0);
        let ghost s2g = SetupState {
            rc: Seq::new(s1g.cost.len(), |j: int| s1g.cost[j].neg_val()),
            ..s1g
        };
        proof {
            assert(self.c@ == s1g.cost);
            assert(self.reduced_cost@ =~= s2g.rc) by {
                assert(forall|j: int|
                    0 <= j < self.n ==> #[trigger] self.reduced_cost@[j] == self.c@[j].neg_val());
            }
            assert((SetupState {
                mat: mat_of(self.a@),
                rhs: self.b@,
                rc: self.reduced_cost@,
                obj: self.obj,
                cost: self.c@,
                basis: self.basis_indecies@,
                seen: seen@,
            }) == s2g);
        }
        // Pivot every unmatched row on its first nonzero entry; an all-zero
        // row is infeasible or redundant.
        let mut row = self.m;
        while row > 0
            invariant
                0 <= row <= self.m,
                self.wf(),
                self.same_config(*old(self)),
                !self.solved,
                self.n == n,
                self.m <= old(self).m,
                seen@.len() == self.m,
                self.original_basis_indecies == old(self).original_basis_indecies
                    || self.original_basis_indecies is None,
                repair_rows(s2g, mm0) == repair_rows(
                    SetupState {
                        mat: mat_of(self.a@),
                        rhs: self.b@,
                        rc: self.reduced_cost@,
                        obj: self.obj,
                        cost: self.c@,
                        basis: self.basis_indecies@,
                        seen: seen@,
                    },
                    row as int,
                ),
                ready ==> (self.a == old(self).a && self.b == old(self).b && self.c == old(self).c
                    && self.obj == old(self).obj && self.m == old(self).m
                    && self.original_basis_indecies == old(self).original_basis_indecies
                    && self.reduced_cost@ == Seq::new(
                    old(self).c@.len(),
                    |j: int| old(self).c@[j].neg_val(),
                ) && forall|r: int| 0 <= r < self.m ==> #[trigger] seen@[r]),
            decreases row,
        {
            let ghost prev = SetupState {
                mat: mat_of(self.a@),
                rhs: self.b@,
                rc: self.reduced_cost@,
                obj: self.obj,
                cost: self.c@,
                basis: self.basis_indecies@,
                seen: seen@,
            };
            row = row - 1;
            if !seen[row] {
                let mut non_zero_entry_found = false;
                let mut cfound: usize = 0;
                let mut cc: usize = 0;
                while cc < n && !non_zero_entry_found
                    invariant
                        0 <= cc <= n,
                        n == self.n,
                        self.wf(),
                        0 <= row < self.m,
                        non_zero_entry_found ==> cfound < n,
                        !non_zero_entry_found ==> first_nonzero_col(
                            mat_of(self.a@),
                            row as int,
                            0,
                        ) == first_nonzero_col(mat_of(self.a@), row as int, cc as int),
                        non_zero_entry_found ==> cfound as int == first_nonzero_col(
                            mat_of(self.a@),
                            row as int,
                            0,
                        ),
                    decreases
                            n - cc,
                            (if non_zero_entry_found {
                                0int
                            } else {
                                1int
                            }),
                {
                    proof {
                        assert(mat_of(self.a@)[cc as int] == self.a@[cc as int]@);
                    }
                    let v = self.a[cc][row];
                    if !(v.numerator == 0 && v.denominator == 1) {
                        non_zero_entry_found = true;
                        cfound = cc;
                        proof {
                            assert(mat_of(self.a@)[cc as int][row as int] != frac_zero());
                            assert(first_nonzero_col(mat_of(self.a@), row as int, cc as int)
                                == cc as int);
                        }
                    } else {
                        proof {
                            assert(mat_of(self.a@)[cc as int][row as int] == frac_zero());
                        }
                        cc = cc + 1;
                    }
                }
                proof {
                    if non_zero_entry_found {
                        assert(cfound as int == first_nonzero_col(mat_of(self.a@), row as int, 0));
                    } else {
                        assert(first_nonzero_col(mat_of(self.a@), row as int, 0) == n as int);
                    }
                }
                if non_zero_entry_found {
                    self.leaving_variable_index = row;
                    self.entering_variable_index = cfound;
                    let ghost e2 = cfound as int;
                    match self.update() {
                        Ok(()) => {
                            proof {
                                let nxt = match repair_row(prev, row as int) {
                                    SetupRun::Ready(s2) => s2,
                                    _ => prev,
                                };
                                let core = crate::solver::pivoted_state(
                                    crate::solver::LoopState {
                                        mat: prev.mat,
                                        rhs: prev.rhs,
                                        rc: prev.rc,
                                        obj: prev.obj,
                                    },
                                    e2,
                                    row as int,
                                );
                                assert forall|ci: int|
                                    0 <= ci < n implies #[trigger] mat_of(self.a@)[ci]
                                    == core.mat[ci] by {
                                    assert forall|rr: int|
                                        0 <= rr < self.m implies #[trigger] mat_of(self.a@)[ci][rr]
                                        == core.mat[ci][rr] by {
                                        assert(Some(mat_of(self.a@)[ci][rr])
                                            == crate::solver::pivot_mat_entry(
                                            prev.mat,
                                            e2,
                                            row as int,
                                            ci,
                                            rr,
                                        ));
                                    }
                                    assert(mat_of(self.a@)[ci] =~= core.mat[ci]);
                                }
                                assert(mat_of(self.a@) =~= core.mat);
                                assert forall|rr: int|
                                    0 <= rr < self.m implies #[trigger] self.b@[rr]
                                    == core.rhs[rr] by {
                                    assert(Some(self.b@[rr]) == crate::solver::pivot_rhs_entry(
                                        prev.mat,
                                        prev.rhs,
                                        e2,
                                        row as int,
                                        rr,
                                    ));
                                }
                                assert(self.b@ =~= core.rhs);
                                assert forall|ci: int|
                                    0 <= ci < n implies #[trigger] self.reduced_cost@[ci]
                                    == core.rc[ci] by {
                                    assert(Some(self.reduced_cost@[ci])
                                        == crate::solver::pivot_rc_entry(
                                        prev.mat,
                                        prev.rc,
                                        e2,
                                        row as int,
                                        ci,
                                    ));
                                }
                                assert(self.reduced_cost@ =~= core.rc);
                                assert(self.obj == core.obj);
                                assert((SetupState {
                                    mat: mat_of(self.a@),
                                    rhs: self.b@,
                                    rc: self.reduced_cost@,
                                    obj: self.obj,
                                    cost: self.c@,
                                    basis: self.basis_indecies@,
                                    seen: seen@,
                                }) == nxt);
                            }
                        },
                        Err(_) => {
                            proof {
                                assert(repair_row(prev, row as int) == SetupRun::Overflow);
                                assert(repair_rows(s2g, mm0) == SetupRun::Overflow);
                                assert(dual_setup_run(*old(self)) == SetupRun::Overflow);
                            }
                            return Err(SimplexError::ArithmeticOverflow);
                        },
                    }
                } else {
                    let bz = self.b[row];
                    if !(bz.numerator == 0 && bz.denominator == 1) {
                        proof {
                            assert(repair_row(prev, row as int) == SetupRun::Infeasible(prev));
                            assert(repair_rows(s2g, mm0) == SetupRun::Infeasible(prev));
                            assert(dual_setup_run(*old(self)) == SetupRun::Infeasible(prev));
                        }
                        self.solved = true;
                        self.additional_info = SolveMessage::Infeasible;
                        return Ok(());
                    } else {
                        // Redundant constraint: drop the row everywhere; the
                        // original-basis mapping does not survive the change.
                        let ghost m_snap = self.m;
                        let mut cc: usize = 0;
                        while cc < n
                            invariant
                                0 <= cc <= n,
                                n == self.n,
                                0 <= row < self.m,
                                self.m == m_snap,
                                self.m <= old(self).m,
                                self.a@.len() == n,
                                forall|k: int|
                                    0 <= k < cc ==> (#[trigger] mat_of(self.a@)[k]).len()
                                        == self.m - 1,
                                forall|k: int|
                                    cc <= k < n ==> (#[trigger] mat_of(self.a@)[k]).len()
                                        == self.m,
                                forall|k: int| 0 <= k < n ==> all_wf(#[trigger] mat_of(self.a@)[k]),
                                self.same_config(*old(self)),
                                !self.solved,
                                self.b@.len() == self.m,
                                all_wf(self.b@),
                                self.c@.len() == n,
                                all_wf(self.c@),
                                self.reduced_cost@.len() == n,
                                all_wf(self.reduced_cost@),
                                self.basis_indecies@.len() == self.m,
                                seen@.len() == self.m,
                                self.obj.wf(),
                                all_wf(self.basis_cost_vector@),
                                all_wf(self.two_phase_cost_vector@),
                                all_wf(self.solution@),
                                self.n < usize::MAX,
                                self.m < usize::MAX,
                                self.original_basis_indecies == old(self).original_basis_indecies
                                    || self.original_basis_indecies is None,
                                forall|k: int|
                                    0 <= k < cc ==> #[trigger] mat_of(self.a@)[k] == prev.mat[
                                    k].remove(row as int),
                                forall|k: int|
                                    cc <= k < n ==> #[trigger] mat_of(self.a@)[k] == prev.mat[k],
                                self.b@ == prev.rhs,
                                self.reduced_cost@ == prev.rc,
                                self.obj == prev.obj,
                                self.c@ == prev.cost,
                                self.basis_indecies@ == prev.basis,
                                seen@ == prev.seen,
                            decreases n - cc,
                        {
                            proof {
                                assert(mat_of(self.a@)[cc as int] == self.a@[cc as int]@);
                            }
                            let ghost a_pre = self.a@;
                            crate::solver::mat_remove_entry(&mut self.a, cc, row);
                            proof {
                                assert forall|k: int| 0 <= k < n implies all_wf(
                                    #[trigger] mat_of(self.a@)[k],
                                ) && mat_of(self.a@)[k] == self.a@[k]@ by {
                                    assert(mat_of(self.a@)[k] == self.a@[k]@);
                                    assert(mat_of(a_pre)[k] == a_pre[k]@);
                                    if k == cc as int {
                                        assert(self.a@[k]@ == a_pre[k]@.remove(row as int));
                                        assert(self.a@[k]@.len() == a_pre[k]@.len() - 1);
                                        assert forall|j: int|
                                            0 <= j < self.a@[k]@.len() implies (#[trigger] self.a@[
                                        k]@[j]).wf() by {
                                            if j < row as int {
                                                assert(self.a@[k]@[j] == a_pre[k]@[j]);
                                            } else {
                                                assert(self.a@[k]@[j] == a_pre[k]@[j + 1]);
                                            }
                                        }
                                    } else {
                                        assert(self.a@[k] == a_pre[k]);
                                    }
                                }
                            }
                            proof {
                                assert forall|k: int|
                                    0 <= k < cc + 1 implies (#[trigger] mat_of(self.a@)[k]).len()
                                    == self.m - 1 by {
                                    assert(mat_of(self.a@)[k] == self.a@[k]@);
                                    if k == cc as int {
                                        assert(self.a@[k]@.len() == a_pre[k]@.len() - 1);
                                        assert(mat_of(a_pre)[k] == a_pre[k]@);
                                    } else {
                                        assert(self.a@[k] == a_pre[k]);
                                        assert(mat_of(a_pre)[k] == a_pre[k]@);
                                    }
                                }
                                assert forall|k: int|
                                    cc + 1 <= k < n implies (#[trigger] mat_of(self.a@)[k]).len()
                                    == self.m by {
                                    assert(mat_of(self.a@)[k] == self.a@[k]@);
                                    assert(self.a@[k] == a_pre[k]);
                                    assert(mat_of(a_pre)[k] == a_pre[k]@);
                                }
                                assert forall|k: int|
                                    0 <= k < cc + 1 implies #[trigger] mat_of(self.a@)[k]
                                    == prev.mat[k].remove(row as int) by {
                                    assert(mat_of(self.a@)[k] == self.a@[k]@);
                                    if k < cc {
                                        assert(self.a@[k] == a_pre[k]);
                                        assert(mat_of(a_pre)[k] == a_pre[k]@);
                                    } else {
                                        assert(a_pre[k]@ == prev.mat[k]) by {
                                            assert(mat_of(a_pre)[k] == a_pre[k]@);
                                        }
                                    }
                                }
                                assert forall|k: int|
                                    cc + 1 <= k < n implies #[trigger] mat_of(self.a@)[k]
                                    == prev.mat[k] by {
                                    assert(mat_of(self.a@)[k] == self.a@[k]@);
                                    assert(self.a@[k] == a_pre[k]);
                                    assert(mat_of(a_pre)[k] == a_pre[k]@);
                                }
                            }
                            cc = cc + 1;
                        }
                        self.b.remove(row);
                        self.basis_indecies.remove(row);
                        seen.remove(row);
                        self.m = self.m - 1;
                        self.original_basis_indecies = None;
                        proof {
                            let dropped = drop_row_state(prev, row as int);
                            assert(mat_of(self.a@) =~= dropped.mat);
                            assert((SetupState {
                                mat: mat_of(self.a@),
                                rhs: self.b@,
                                rc: self.reduced_cost@,
                                obj: self.obj,
                                cost: self.c@,
                                basis: self.basis_indecies@,
                                seen: seen@,
                            }) == dropped);
                            assert(repair_row(prev, row as int) == SetupRun::Ready(dropped));
                        }
                    }
                }
            }
        }
        let ghost s3g = SetupState {
            mat: mat_of(self.a@),
            rhs: self.b@,
            rc: self.reduced_cost@,
            obj: self.obj,
            cost: self.c@,
            basis: self.basis_indecies@,
            seen: seen@,
        };
        proof {
            assert(repair_rows(s2g, mm0) == SetupRun::Ready(s3g));
        }
        let result = self.dual_bootstrap(Ghost(seen@));
        proof {
            assert(dual_setup_run(*old(self)) == bootstrap(s3g));
            if ready {
                // A dual-ready tableau has no negative reduced cost, so the
                // bootstrap is skipped and nothing changes.
                assert forall|j: int|
                    0 <= j < s3g.rc.len() implies !(#[trigger] s3g.rc[j]).lt_val(frac_zero()) by {
                    assert(s3g.rc[j] == old(self).c@[j].neg_val());
                }
                crate::solver::lemma_bland_index_full(s3g.rc, 0);
                assert(bootstrap(s3g) == SetupRun::Ready(s3g));
            }
        }
        result
    }

    /// The dual-feasibility bootstrap (§4.6): when some reduced cost is
    /// negative, appends the bounding row of ones over the nonbasic columns
    /// with right-hand side 1000 and the artificial column with cost zero,
    /// then pivots once on the most negative reduced cost against the new
    /// row; with no negative reduced cost nothing happens.  The ghost
    /// argument carries the row-matching record so the contract can speak the
    /// same state language as the caller.
    #[verifier::loop_isolation(false)]
    #[verifier::rlimit(100)]
    fn dual_bootstrap(&mut self, seen_g: Ghost<Seq<bool>>) -> (res: Result<(), SimplexError>)
        requires
            old(self).wf(),
            !old(self).solved,
            old(self).n + 1 < usize::MAX,
            old(self).m + 1 < usize::MAX,
        ensures
            final(self).wf(),
            final(self).same_config(*old(self)),
            final(self).original_basis_indecies == old(self).original_basis_indecies || final(self).original_basis_indecies is None,
            res is Err ==> res == Result::<(), SimplexError>::Err(SimplexError::ArithmeticOverflow),
            ({
                let s3 = SetupState {
                    mat: mat_of(old(self).a@),
                    rhs: old(self).b@,
                    rc: old(self).reduced_cost@,
                    obj: old(self).obj,
                    cost: old(self).c@,
                    basis: old(self).basis_indecies@,
                    seen: seen_g@,
                };
                let r = bootstrap(s3);
                &&& ((res is Err) <==> (r is Overflow))
                &&& (r matches SetupRun::Ready(fs) ==> res is Ok && !final(self).solved && final(self).additional_info == old(self).additional_info && mat_of(
                    final(self).a@,
                ) == fs.mat && final(self).b@ == fs.rhs && final(self).reduced_cost@ == fs.rc
                    && final(self).obj == fs.obj && final(self).c@ == fs.cost && final(self).basis_indecies@ == fs.basis)
                &&& !(r is Infeasible)
            }),
            res is Ok && final(self).n == old(self).n ==> (*final(self) == *old(self) && forall|
                j: int,
            |
                0 <= j < final(self).n ==> !(#[trigger] final(self).reduced_cost@[j]).lt_val(
                    frac_zero(),
                )),
    {
        let ghost s3g = SetupState {
            mat: mat_of(old(self).a@),
            rhs: old(self).b@,
            rc: old(self).reduced_cost@,
            obj: old(self).obj,
            cost: old(self).c@,
            basis: old(self).basis_indecies@,
            seen: seen_g@,
        };
        let n = self.n;
        // Dual-feasible already?
        let first_neg = crate::solver::bland_reduced_cost(&self.reduced_cost);
        if first_neg == n {
            proof {
                assert(bootstrap(s3g) == SetupRun::Ready(s3g));
                crate::solver::lemma_bland_none(self.reduced_cost@, 0);
            }
            return Ok(());
        }
        // Append the artificial bounding constraint and variable, then one
        // bootstrap pivot on the most negative reduced cost.  The original
        // basis cannot be recovered past this structural change.
        self.original_basis_indecies = None;
        let ghost m0 = self.m;
        let ghost n3 = s3g.rc.len() as int;
        let ghost m1 = s3g.rhs.len() as int + 1;
        let ghost mat1g = Seq::new(
            s3g.mat.len(),
            |c: int|
                s3g.mat[c].push(
                    if s3g.basis.contains(c as usize) {
                        frac_zero()
                    } else {
                        Fraction::from_int(1)
                    },
                ),
        );
        let ghost artg = Seq::new(
            m1 as nat,
            |r: int|
                if r == m1 - 1 {
                    Fraction::from_int(1)
                } else {
                    frac_zero()
                },
        );
        let ghost mat2g = mat1g.push(artg);
        let ghost rhs1g = s3g.rhs.push(Fraction::from_int(1000));
        let ghost rc1g = s3g.rc.push(frac_zero());
        let mut cc: usize = 0;
        while cc < n
            invariant
                0 <= cc <= n,
                n == self.n,
                self.same_config(*old(self)),
                !self.solved,
                self.m == m0,
                self.m + 1 < usize::MAX,
                self.n + 1 < usize::MAX,
                self.a@.len() == n,
                forall|k: int| 0 <= k < cc ==> (#[trigger] mat_of(self.a@)[k]).len() == self.m + 1,
                forall|k: int| cc <= k < n ==> (#[trigger] mat_of(self.a@)[k]).len() == self.m,
                forall|k: int| 0 <= k < n ==> all_wf(#[trigger] mat_of(self.a@)[k]),
                self.b@.len() == self.m,
                all_wf(self.b@),
                self.c@.len() == n,
                all_wf(self.c@),
                self.reduced_cost@.len() == n,
                all_wf(self.reduced_cost@),
                self.basis_indecies@.len() == self.m,
                self.obj.wf(),
                all_wf(self.basis_cost_vector@),
                all_wf(self.two_phase_cost_vector@),
                all_wf(self.solution@),
                self.original_basis_indecies is None,
                self.additional_info == old(self).additional_info,
                first_neg < n,
                self.reduced_cost@[first_neg as int].lt_val(frac_zero()),
                forall|k: int| 0 <= k < cc ==> #[trigger] mat_of(self.a@)[k] == mat1g[k],
                forall|k: int| cc <= k < n ==> #[trigger] mat_of(self.a@)[k] == s3g.mat[k],
                self.b@ == s3g.rhs,
                self.reduced_cost@ == s3g.rc,
                self.obj == s3g.obj,
                self.c@ == s3g.cost,
                self.basis_indecies@ == s3g.basis,
            decreases n - cc,
        {
            let in_basis = crate::solver::contains_index(&self.basis_indecies, cc);
            let v = if in_basis {
                Fraction::new(0, 1)
            } else {
                Fraction::new(1, 1)
            };
            let ghost a_pre3 = self.a@;
            crate::solver::mat_push_entry(&mut self.a, cc, v);
            proof {
                assert forall|k: int|
                    0 <= k < n implies all_wf(#[trigger] mat_of(self.a@)[k]) && (if k < cc + 1 {
                    mat_of(self.a@)[k].len() == self.m + 1
                } else {
                    mat_of(self.a@)[k].len() == self.m
                }) by {
                    assert(mat_of(self.a@)[k] == self.a@[k]@);
                    assert(mat_of(a_pre3)[k] == a_pre3[k]@);
                    if k == cc as int {
                        assert(self.a@[k]@ == a_pre3[k]@.push(v));
                        assert forall|j: int|
                            0 <= j < self.a@[k]@.len() implies (#[trigger] self.a@[k]@[j]).wf() by {
                            if j < a_pre3[k]@.len() {
                                assert(self.a@[k]@[j] == a_pre3[k]@[j]);
                            } else {
                                assert(self.a@[k]@[j] == v);
                            }
                        }
                    } else {
                        assert(self.a@[k] == a_pre3[k]);
                    }
                }
                assert(v == (if s3g.basis.contains(cc as usize) {
                    frac_zero()
                } else {
                    Fraction::from_int(1)
                }));
                assert(s3g.mat.len() == n);
                assert(mat_of(a_pre3)[cc as int] == a_pre3[cc as int]@);
                assert(a_pre3[cc as int]@ == s3g.mat[cc as int]);
                assert(self.a@[cc as int]@ == s3g.mat[cc as int].push(v));
                assert(mat_of(self.a@)[cc as int] == mat1g[cc as int]);
                assert forall|k: int|
                    0 <= k < cc + 1 implies #[trigger] mat_of(self.a@)[k] == mat1g[k] by {
                    assert(mat_of(self.a@)[k] == self.a@[k]@);
                    if k < cc {
                        assert(self.a@[k] == a_pre3[k]);
                        assert(mat_of(a_pre3)[k] == a_pre3[k]@);
                    }
                }
                assert forall|k: int|
                    cc + 1 <= k < n implies #[trigger] mat_of(self.a@)[k] == s3g.mat[k] by {
                    assert(mat_of(self.a@)[k] == self.a@[k]@);
                    assert(self.a@[k] == a_pre3[k]);
                    assert(mat_of(a_pre3)[k] == a_pre3[k]@);
                }
            }
            cc = cc + 1;
        }
        self.b.push(Fraction::new(1000, 1));
        self.m = self.m + 1;
        let new_m = self.m;
        let mut art_col: Vec<Fraction> = Vec::new();
        let mut r2: usize = 0;
        while r2 < new_m
            invariant
                0 <= r2 <= new_m,
                art_col@.len() == r2,
                all_wf(art_col@),
                forall|k: int|
                    0 <= k < r2 ==> #[trigger] art_col@[k] == (if k == new_m - 1 {
                        Fraction { numerator: 1i64, denominator: 1i64 }
                    } else {
                        Fraction { numerator: 0i64, denominator: 1i64 }
                    }),
            decreases new_m - r2,
        {
            if r2 == new_m - 1 {
                art_col.push(Fraction::new(1, 1));
            } else {
                art_col.push(Fraction::new(0, 1));
            }
            r2 = r2 + 1;
        }
        proof {
            assert(new_m as int == m1);
        }
        proof {
            assert(art_col@ =~= artg) by {
                assert(forall|r: int|
                    0 <= r < m1 ==> #[trigger] art_col@[r] == (if r == m1 - 1 {
                        Fraction { numerator: 1i64, denominator: 1i64 }
                    } else {
                        Fraction { numerator: 0i64, denominator: 1i64 }
                    }));
            }
        }
        let ghost a_pre2 = self.a@;
        self.a.push(art_col);
        self.reduced_cost.push(Fraction::new(0, 1));
        self.c.push(Fraction::new(0, 1));
        self.n = self.n + 1;
        let nn = self.n;
        let art_idx = nn - 1;
        self.basis_indecies.push(art_idx);
        proof {
            assert forall|k: int| 0 <= k < nn implies all_wf(#[trigger] mat_of(self.a@)[k]) && (
            mat_of(self.a@)[k]).len() == self.m by {
                assert(mat_of(self.a@)[k] == self.a@[k]@);
                if k < nn - 1 {
                    assert(self.a@[k] == a_pre2[k]);
                    assert(mat_of(a_pre2)[k] == a_pre2[k]@);
                } else {
                    assert(self.a@[k]@ == art_col@);
                }
            }
            assert(self.wf());
            assert forall|k: int| 0 <= k < nn implies #[trigger] mat_of(self.a@)[k]
                == mat2g[k] by {
                assert(mat_of(self.a@)[k] == self.a@[k]@);
                if k < nn - 1 {
                    assert(self.a@[k] == a_pre2[k]);
                    assert(mat_of(a_pre2)[k] == a_pre2[k]@);
                } else {
                    assert(self.a@[k]@ == art_col@);
                }
            }
            assert(mat_of(self.a@) =~= mat2g);
            assert(self.b@ == rhs1g);
            assert(self.reduced_cost@ == rc1g);
            assert(self.c@ == s3g.cost.push(frac_zero()));
            assert(self.basis_indecies@ == s3g.basis.push(n3 as usize));
        }
        // Pick the most negative reduced cost as the bootstrap entering
        // variable.
        let mut most_negative = Fraction::new(0, 1);
        let mut entering = nn;
        let mut col2: usize = 0;
        while col2 < nn
            invariant
                0 <= col2 <= nn,
                nn == self.n,
                most_negative == most_negative_prefix(self.reduced_cost@, col2 as int, nn as int).0,
                entering as int == most_negative_prefix(
                    self.reduced_cost@,
                    col2 as int,
                    nn as int,
                ).1,
            decreases nn - col2,
        {
            if self.reduced_cost[col2] < most_negative {
                entering = col2;
                most_negative = self.reduced_cost[col2];
            }
            col2 = col2 + 1;
        }
        proof {
            lemma_most_negative_prefix_props(self.reduced_cost@, nn as int, nn as int);
            assert(self.reduced_cost@[first_neg as int].lt_val(frac_zero()));
            lemma_most_negative_picks(self.reduced_cost@, nn as int, nn as int, first_neg as int);
        }
        self.leaving_variable_index = self.m - 1;
        self.entering_variable_index = entering;
        let ghost eb = entering as int;
        let ghost basis1g = s3g.basis.push(n3 as usize);
        match self.update() {
            Ok(()) => {
                proof {
                    let core = crate::solver::pivoted_state(
                        crate::solver::LoopState { mat: mat2g, rhs: rhs1g, rc: rc1g, obj: s3g.obj },
                        eb,
                        m1 - 1,
                    );
                    assert forall|ci: int|
                        0 <= ci < nn implies #[trigger] mat_of(self.a@)[ci] == core.mat[ci] by {
                        assert forall|rr: int|
                            0 <= rr < self.m implies #[trigger] mat_of(self.a@)[ci][rr]
                            == core.mat[ci][rr] by {
                            assert(Some(mat_of(self.a@)[ci][rr]) == crate::solver::pivot_mat_entry(
                                mat2g,
                                eb,
                                m1 - 1,
                                ci,
                                rr,
                            ));
                        }
                        assert(mat_of(self.a@)[ci] =~= core.mat[ci]);
                    }
                    assert(mat_of(self.a@) =~= core.mat);
                    assert forall|rr: int|
                        0 <= rr < self.m implies #[trigger] self.b@[rr] == core.rhs[rr] by {
                        assert(Some(self.b@[rr]) == crate::solver::pivot_rhs_entry(
                            mat2g,
                            rhs1g,
                            eb,
                            m1 - 1,
                            rr,
                        ));
                    }
                    assert(self.b@ =~= core.rhs);
                    assert forall|ci: int|
                        0 <= ci < nn implies #[trigger] self.reduced_cost@[ci] == core.rc[ci] by {
                        assert(Some(self.reduced_cost@[ci]) == crate::solver::pivot_rc_entry(
                            mat2g,
                            rc1g,
                            eb,
                            m1 - 1,
                            ci,
                        ));
                    }
                    assert(self.reduced_cost@ =~= core.rc);
                    assert(self.obj == core.obj);
                    assert(self.basis_indecies@ == basis1g.update(m1 - 1, entering));
                    assert(bootstrap(s3g) == SetupRun::Ready(
                        SetupState {
                            mat: core.mat,
                            rhs: core.rhs,
                            rc: core.rc,
                            obj: core.obj,
                            cost: s3g.cost.push(frac_zero()),
                            basis: basis1g.update(m1 - 1, eb as usize),
                            seen: s3g.seen,
                        },
                    ));
                    let fs = bootstrap(s3g)->Ready_0;
                    assert(mat_of(self.a@) == fs.mat);
                    assert(self.b@ == fs.rhs);
                    assert(self.reduced_cost@ == fs.rc);
                    assert(self.obj == fs.obj);
                    assert(self.c@ == fs.cost);
                    assert(self.basis_indecies@ == fs.basis);
                    assert(!self.solved);
                    assert(self.additional_info == old(self).additional_info);
                    assert(self.wf());
                    assert(self.same_config(*old(self)));
                }
                Ok(())
            },
            Err(_) => {
                proof {
                    assert(bootstrap(s3g) == SetupRun::Overflow);
                }
                Err(SimplexError::ArithmeticOverflow)
            },
        }
    }

    /// Builds and prepares a tableau.  The inputs are validated (matching
    /// sizes, and a nonnegative right-hand side under the primal strategies),
    /// every finite entry is brought to canonical form, costs at the
    /// infinity sentinels switch the tableau into Big-M mode, and the
    /// starting basis and reduced costs are established — by identity-column
    /// detection for the primal strategies, by the dual bootstrap in dual
    /// mode.  Dual mode excludes Big-M costs: the two never combine into a
    /// coherent strategy (phase 1 presumes a primal-feasible start), so the
    /// precondition rules the combination out rather than accepting it and
    /// misbehaving.
    #[verifier::loop_isolation(false)]
    #[verifier::rlimit(100)]
    pub fn new(
        a: Vec<Vec<Fraction>>,
        b: Vec<Fraction>,
        c: Vec<Fraction>,
        variable_select_type: VariableSelectType,
        solve_type: SolveType,
        big_m_solve_type: BigMSolveType,
    ) -> (res: Result<Tableau, SimplexError>)
        requires
            a@.len() > 0,
            b@.len() > 0,
            a@.len() + 1 < usize::MAX,
            b@.len() + 1 < usize::MAX,
            is_matrix(mat_of(a@), a@.len() as int, a@[0]@.len() as int),
            mat_wf(mat_of(a@)),
            all_wf(b@),
            all_wf(c@),
            solve_type == SolveType::Dual ==> forall|i: int|
                0 <= i < c@.len() ==> !(#[trigger] c@[i]).is_inf(),
        ensures
            res == Result::<Tableau, SimplexError>::Err(SimplexError::DimensionMismatch) <==> (
            a@.len() != c@.len() || a@[0]@.len() != b@.len()),
            (a@.len() == c@.len() && a@[0]@.len() == b@.len()) ==> (res == Result::<
                Tableau,
                SimplexError,
            >::Err(SimplexError::NotStandardForm) <==> (solve_type != SolveType::Dual && exists|
                i: int,
            |
                0 <= i < b@.len() && (#[trigger] b@[i]).lt_val(frac_zero()))),
            res matches Result::Err(e) ==> (e == SimplexError::DimensionMismatch || e
                == SimplexError::NotStandardForm || e == SimplexError::NoIdentityColumn || e
                == SimplexError::ArithmeticOverflow),
            res == Result::<Tableau, SimplexError>::Err(SimplexError::NoIdentityColumn)
                ==> solve_type != SolveType::Dual,
            res matches Result::Ok(t) ==> {
                &&& t.wf()
                &&& (solve_type != SolveType::Dual ==> t.n == a@.len() && t.m == b@.len())
                &&& t.solve_type == solve_type
                &&& t.variable_select_type == variable_select_type
                &&& t.big_m_solve_type == big_m_solve_type
                &&& (t.big_m <==> exists|i: int| 0 <= i < c@.len() && (#[trigger] c@[i]).is_inf())
                &&& (solve_type != SolveType::Dual ==> !t.solved && t.additional_info
                    == SolveMessage::Unsolved && t.basis_is_identity())
                &&& (t.solved ==> t.additional_info == SolveMessage::Infeasible)
                &&& (solve_type != SolveType::Dual ==> {
                    let nm = normalize_mat(mat_of(a@));
                    let costs = spec_phase_costs(normalize_seq(c@), t.big_m);
                    let cb = Seq::new(b@.len(), |r: int| costs[t.basis_indecies@[r] as int]);
                    &&& mat_of(t.a@) == nm
                    &&& t.b@ == normalize_seq(b@)
                    &&& t.c@ == normalize_seq(c@)
                    &&& t.basis_indecies@ == spec_detected_basis(nm, a@.len() as int, b@.len() as int)
                    &&& t.reduced_cost@ == crate::solver::spec_initial_rc(nm, cb, costs)
                    &&& t.obj == crate::solver::spec_initial_obj(cb, normalize_seq(b@), frac_zero())
                    &&& ((forall|r: int| 0 <= r < b@.len() ==> (#[trigger] cb[r]).is_finite())
                        ==> forall|r: int|
                        0 <= r < b@.len() ==> #[trigger] t.reduced_cost@[t.basis_indecies@[r] as int]
                            == frac_zero())
                })
            },
            (solve_type == SolveType::Dual && a@.len() == c@.len() && a@[0]@.len() == b@.len())
                ==> ({
                let s0 = SetupState {
                    mat: normalize_mat(mat_of(a@)),
                    rhs: normalize_seq(b@),
                    rc: Seq::new(a@.len(), |j: int| frac_zero()),
                    obj: frac_zero(),
                    cost: normalize_seq(c@),
                    basis: Seq::new(b@.len(), |r: int| (a@.len() + 1) as usize),
                    seen: Seq::new(b@.len(), |r: int| false),
                };
                let run = dual_setup_run_state(s0, a@.len() as int, b@.len() as int);
                &&& (res == Result::<Tableau, SimplexError>::Err(SimplexError::ArithmeticOverflow)
                    <==> run is Overflow)
                &&& (run matches SetupRun::Infeasible(fs) ==> (res matches Result::Ok(t) && t.solved
                    && t.additional_info == SolveMessage::Infeasible && mat_of(t.a@) == fs.mat
                    && t.b@ == fs.rhs && t.reduced_cost@ == fs.rc && t.obj == fs.obj && t.c@
                    == fs.cost && t.basis_indecies@ == fs.basis))
                &&& (run matches SetupRun::Ready(fs) ==> (res matches Result::Ok(t) && !t.solved
                    && mat_of(t.a@) == fs.mat && t.b@ == fs.rhs && t.reduced_cost@ == fs.rc && t.obj
                    == fs.obj && t.c@ == fs.cost && t.basis_indecies@ == fs.basis))
            }),
            (solve_type == SolveType::Dual && a@.len() == c@.len() && a@[0]@.len() == b@.len()
                && dual_ready(
                normalize_mat(mat_of(a@)),
                normalize_seq(c@),
                a@.len() as int,
                b@.len() as int,
            )) ==> res is Ok,
            (a@.len() == c@.len() && a@[0]@.len() == b@.len() && solve_type != SolveType::Dual && (
            forall|i: int| 0 <= i < b@.len() ==> !(#[trigger] b@[i]).lt_val(frac_zero()))) ==> ({
                let nm = normalize_mat(mat_of(a@));
                let nn = a@.len() as int;
                let mm = b@.len() as int;
                let bigm = exists|i: int| 0 <= i < c@.len() && (#[trigger] c@[i]).is_inf();
                let costs = spec_phase_costs(normalize_seq(c@), bigm);
                let cb = Seq::new(
                    b@.len(),
                    |r: int| costs[last_unit_col(nm, nn, r, nn + 1)],
                );
                &&& (res == Result::<Tableau, SimplexError>::Err(SimplexError::NoIdentityColumn)
                    <==> exists|r: int|
                    0 <= r < mm && !(#[trigger] row_has_unit(nm, nn, r)))
                &&& ((forall|r: int| 0 <= r < mm ==> #[trigger] row_has_unit(nm, nn, r)) ==> (res
                    == Result::<Tableau, SimplexError>::Err(SimplexError::ArithmeticOverflow)
                    <==> !crate::solver::reduced_cost_ok(nm, cb, normalize_seq(b@), costs)))
            }),
    {
        let n = a.len();
        let m = a[0].len();
        if n != c.len() || m != b.len() {
            return Err(SimplexError::DimensionMismatch);
        }
        let is_dual = match solve_type {
            SolveType::Dual => true,
            SolveType::Standard => false,
        };
        if !is_dual {
            let mut i: usize = 0;
            while i < m
                invariant
                    0 <= i <= m,
                    forall|j: int| 0 <= j < i ==> !(#[trigger] b@[j]).lt_val(frac_zero()),
                decreases m - i,
            {
                if b[i] < Fraction::from(0i64) {
                    return Err(SimplexError::NotStandardForm);
                }
                i = i + 1;
            }
        }
        // Bring every finite entry to canonical form and detect Big-M costs.
        let mut na: Vec<Vec<Fraction>> = Vec::new();
        let mut col: usize = 0;
        while col < n
            invariant
                0 <= col <= n,
                na@.len() == col,
                forall|k: int| 0 <= k < col ==> (#[trigger] mat_of(na@)[k]).len() == m,
                forall|k: int| 0 <= k < col ==> all_wf(#[trigger] mat_of(na@)[k]),
                forall|k: int|
                    0 <= k < col ==> #[trigger] mat_of(na@)[k] == normalize_seq(mat_of(a@)[k]),
            decreases n - col,
        {
            let mut ncol: Vec<Fraction> = Vec::new();
            let mut row: usize = 0;
            while row < m
                invariant
                    0 <= row <= m,
                    0 <= col < n,
                    ncol@.len() == row,
                    all_wf(ncol@),
                    forall|j: int|
                        0 <= j < row ==> #[trigger] ncol@[j] == normalize_frac(
                            mat_of(a@)[col as int][j],
                        ),
                decreases m - row,
            {
                proof {
                    assert(mat_of(a@)[col as int] == a@[col as int]@);
                }
                let mut v = a[col][row];
                if !(v.numerator == i64::MAX || v.numerator == -i64::MAX || v.denominator
                    == i64::MAX || v.denominator == -i64::MAX) {
                    v.reduce();
                }
                ncol.push(v);
                row = row + 1;
            }
            proof {
                assert(ncol@ =~= normalize_seq(mat_of(a@)[col as int]));
            }
            let ghost na_pre = na@;
            na.push(ncol);
            proof {
                assert forall|k: int| 0 <= k < col + 1 implies (#[trigger] mat_of(na@)[k]).len()
                    == m && all_wf(mat_of(na@)[k]) && mat_of(na@)[k] == normalize_seq(
                    mat_of(a@)[k],
                ) by {
                    assert(mat_of(na@)[k] == na@[k]@);
                    if k < col {
                        assert(na@[k] == na_pre[k]);
                        assert(mat_of(na_pre)[k] == na_pre[k]@);
                    } else {
                        assert(na@[k]@ == ncol@);
                    }
                }
            }
            col = col + 1;
        }
        proof {
            assert(mat_of(na@) =~= normalize_mat(mat_of(a@)));
        }
        let mut nb: Vec<Fraction> = Vec::new();
        let mut i: usize = 0;
        while i < m
            invariant
                0 <= i <= m,
                m == b@.len(),
                nb@.len() == i,
                all_wf(nb@),
                forall|j: int| 0 <= j < i ==> #[trigger] nb@[j] == normalize_frac(b@[j]),
            decreases m - i,
        {
            let mut v = b[i];
            if !(v.numerator == i64::MAX || v.numerator == -i64::MAX || v.denominator == i64::MAX
                || v.denominator == -i64::MAX) {
                v.reduce();
            }
            nb.push(v);
            i = i + 1;
        }
        proof {
            assert(nb@ =~= normalize_seq(b@));
        }
        let mut nc: Vec<Fraction> = Vec::new();
        let mut big_m = false;
        let mut i: usize = 0;
        while i < n
            invariant
                0 <= i <= n,
                n == c@.len(),
                nc@.len() == i,
                all_wf(nc@),
                forall|j: int| 0 <= j < i ==> #[trigger] nc@[j] == normalize_frac(c@[j]),
                big_m <==> exists|j: int| 0 <= j < i && (#[trigger] c@[j]).is_inf(),
            decreases n - i,
        {
            let mut v = c[i];
            if v.numerator == i64::MAX || v.numerator == -i64::MAX {
                big_m = true;
                proof {
                    assert(c@[i as int].is_inf());
                }
            }
            if !(v.numerator == i64::MAX || v.numerator == -i64::MAX || v.denominator == i64::MAX
                || v.denominator == -i64::MAX) {
                v.reduce();
            }
            nc.push(v);
            i = i + 1;
        }
        proof {
            assert(nc@ =~= normalize_seq(c@));
        }
        // Placeholder reduced costs until they are computed below.
        let mut rc0: Vec<Fraction> = Vec::new();
        let mut i: usize = 0;
        while i < n
            invariant
                0 <= i <= n,
                rc0@.len() == i,
                all_wf(rc0@),
                forall|j: int| 0 <= j < i ==> #[trigger] rc0@[j] == frac_zero(),
            decreases n - i,
        {
            rc0.push(Fraction::new(0, 1));
            i = i + 1;
        }
        let mut bi0: Vec<usize> = Vec::new();
        let mut i: usize = 0;
        while i < m
            invariant
                0 <= i <= m,
                n < usize::MAX,
                bi0@.len() == i,
                forall|j: int| 0 <= j < i ==> #[trigger] bi0@[j] == n + 1,
            decreases m - i,
        {
            bi0.push(n + 1);
            i = i + 1;
        }
        let mut t = Tableau {
            n,
            m,
            solve_type,
            variable_select_type,
            big_m_solve_type,
            debug: false,
            big_m,
            a: na,
            b: nb,
            c: nc,
            reduced_cost: rc0,
            obj: Fraction::new(0, 1),
            basis_indecies: bi0,
            basis_cost_vector: Vec::new(),
            two_phase_cost_vector: Vec::new(),
            original_basis_indecies: None,
            solution: Vec::new(),
            entering_variable_index: n,
            leaving_variable_index: m,
            solved: false,
            additional_info: SolveMessage::Unsolved,
            trace: Vec::new(),
        };
        let ghost nm = normalize_mat(mat_of(a@));
        let ghost costs = spec_phase_costs(normalize_seq(c@), big_m);
        let ghost cbspec = Seq::new(
            b@.len(),
            |r: int| costs[last_unit_col(nm, n as int, r, n as int + 1)],
        );
        if is_dual {
            proof {
                assert(!t.big_m);
                assert(mat_of(t.a@) == nm);
                assert(t.c@ == normalize_seq(c@));
                assert(t.b@ == normalize_seq(b@));
                let s0d = SetupState {
                    mat: normalize_mat(mat_of(a@)),
                    rhs: normalize_seq(b@),
                    rc: Seq::new(a@.len(), |j: int| frac_zero()),
                    obj: frac_zero(),
                    cost: normalize_seq(c@),
                    basis: Seq::new(b@.len(), |r: int| (a@.len() + 1) as usize),
                    seen: Seq::new(b@.len(), |r: int| false),
                };
                assert(t.reduced_cost@ =~= s0d.rc);
                assert(t.basis_indecies@ =~= s0d.basis);
                assert(Seq::new(t.m as nat, |r: int| false) =~= s0d.seen);
                assert(dual_setup_run(t) == dual_setup_run_state(
                    s0d,
                    a@.len() as int,
                    b@.len() as int,
                ));
            }
            match t.setup_dual_tableau() {
                Ok(()) => (),
                Err(_) => {
                    proof {
                        if dual_ready(nm, normalize_seq(c@), n as int, m as int) {
                            assert(false);
                        }
                    }
                    return Err(SimplexError::ArithmeticOverflow);
                },
            }
        } else {
            proof {
                assert(mat_of(t.a@) == nm);
            }
            match t.find_basis_indecies() {
                Ok(()) => (),
                Err(_) => {
                    return Err(SimplexError::NoIdentityColumn);
                },
            }
            proof {
                assert(t.basis_indecies@ == spec_detected_basis(nm, n as int, m as int));
                assert forall|r: int| 0 <= r < m implies #[trigger] row_has_unit(
                    nm,
                    n as int,
                    r,
                ) by {
                    assert(t.basis_indecies@[r] < n && is_unit_col(
                        nm[t.basis_indecies@[r] as int],
                        r,
                    ));
                }
            }
            t.compute_basis_cost_vector();
            proof {
                if t.big_m {
                    assert(t.two_phase_cost_vector@ =~= costs);
                }
                assert forall|r: int| 0 <= r < m implies #[trigger] t.basis_cost_vector@[r]
                    == cbspec[r] by {
                    crate::solver::lemma_last_unit_col_props(nm, n as int, r, n as int + 1);
                    assert(t.basis_indecies@[r] as int == last_unit_col(
                        nm,
                        n as int,
                        r,
                        n as int + 1,
                    ));
                }
                assert(t.basis_cost_vector@ =~= cbspec);
                assert(t.effective_costs() == costs);
            }
            match t.compute_reduced_cost() {
                Ok(()) => (),
                Err(_) => {
                    proof {
                        assert(!crate::solver::reduced_cost_ok(nm, cbspec, normalize_seq(b@), costs));
                    }
                    return Err(SimplexError::ArithmeticOverflow);
                },
            }
            proof {
                assert(crate::solver::reduced_cost_ok(nm, cbspec, normalize_seq(b@), costs));
                assert(t.reduced_cost@ =~= crate::solver::spec_initial_rc(nm, cbspec, costs)) by {
                    if crate::solver::is_zero_vec(cbspec) {
                        assert(forall|j: int|
                            0 <= j < n ==> #[trigger] t.reduced_cost@[j] == costs[j].neg_val());
                    } else {
                        assert forall|j: int|
                            0 <= j < n implies #[trigger] t.reduced_cost@[j]
                            == crate::solver::reduced_entry(nm[j], cbspec, costs[j])->Some_0 by {
                            assert(Some(t.reduced_cost@[j]) == crate::solver::reduced_entry(
                                nm[j],
                                cbspec,
                                costs[j],
                            ));
                        }
                    }
                }
                assert(t.obj == crate::solver::spec_initial_obj(cbspec, normalize_seq(b@), frac_zero()));
            }
        }
        proof {
            assert(t.wf());
            assert(t.big_m <==> exists|i: int| 0 <= i < c@.len() && (#[trigger] c@[i]).is_inf());
            if !is_dual {
                assert(t.n == a@.len());
                assert(t.m == b@.len());
                assert(!t.solved);
                assert(t.additional_info == SolveMessage::Unsolved);
                assert(t.basis_is_identity());
                let cb2 = Seq::new(b@.len(), |r: int| costs[t.basis_indecies@[r] as int]);
                assert forall|r: int| 0 <= r < m implies #[trigger] cb2[r] == cbspec[r] by {
                    crate::solver::lemma_last_unit_col_props(nm, n as int, r, n as int + 1);
                    assert(t.basis_indecies@[r] as int == last_unit_col(
                        nm,
                        n as int,
                        r,
                        n as int + 1,
                    ));
                }
                assert(cb2 =~= cbspec);
                // The reduced cost of every basic variable is zero whenever
                // the basis costs are finite.
                if forall|r: int| 0 <= r < m ==> (#[trigger] cbspec[r]).is_finite() {
                    assert(crate::solver::all_canonical(cbspec)) by {
                        assert forall|r: int|
                            0 <= r < m implies (#[trigger] cbspec[r]).wf() && cbspec[r].is_finite()
                            && crate::fraction::is_reduced(
                            cbspec[r].numerator as int,
                            cbspec[r].denominator as int,
                        ) by {
                            crate::solver::lemma_last_unit_col_props(nm, n as int, r, n as int + 1);
                            let j = last_unit_col(nm, n as int, r, n as int + 1);
                            assert(0 <= j < n) by {
                                if j == n as int + 1 {
                                    assert(t.basis_indecies@[r] == (n + 1) as usize);
                                }
                            }
                            if t.big_m {
                                assert(crate::fraction::gcd_nat(0, 1)
                                    == crate::fraction::gcd_nat(1, 0));
                                assert(crate::fraction::gcd_nat(1, 1)
                                    == crate::fraction::gcd_nat(1, 0));
                            } else {
                                assert(costs[j] == normalize_frac(c@[j]));
                                if c@[j].is_finite() {
                                    crate::fraction::lemma_canon_props(
                                        c@[j].numerator as int,
                                        c@[j].denominator as int,
                                    );
                                    crate::fraction::lemma_canon_in_range(
                                        c@[j].numerator as int,
                                        c@[j].denominator as int,
                                    );
                                }
                            }
                        }
                    }
                    assert forall|r: int|
                        0 <= r < m implies #[trigger] t.reduced_cost@[t.basis_indecies@[r] as int]
                        == frac_zero() by {
                        crate::solver::lemma_last_unit_col_props(nm, n as int, r, n as int + 1);
                        let j = t.basis_indecies@[r] as int;
                        assert(cbspec[r] == costs[j]);
                        if crate::solver::is_zero_vec(cbspec) {
                            assert(t.reduced_cost@[j] == costs[j].neg_val());
                            assert(cbspec[r] == frac_zero());
                        } else {
                            assert(Some(t.reduced_cost@[j]) == crate::solver::reduced_entry(
                                nm[j],
                                cbspec,
                                costs[j],
                            ));
                            assert(is_unit_col(nm[j], r));
                            crate::solver::lemma_dot_unit_col(nm[j], cbspec, r, m as int);
                            assert(crate::solver::dot(nm[j], cbspec) == Some(cbspec[r]));
                            crate::fraction::lemma_sub_self_zero(cbspec[r]);
                        }
                    }
                }
            }
            assert(t.solved ==> t.additional_info == SolveMessage::Infeasible);
        }
        Ok(t)
    }

    /// The iteration cap for one pivot loop: twenty under the greedy rule,
    /// which cannot rule out cycling, and a far larger safety bound under
    /// Bland's anti-cycling rule, which terminates in theory but whose loop
    /// is kept finite all the same.
    fn iteration_cap(&self) -> (r: usize)
        ensures
            r > 0,
            r as nat == spec_iteration_cap(self.variable_select_type),
    {
        match self.variable_select_type {
            VariableSelectType::Standard => 20,
            VariableSelectType::Bland => crate::solver::ITERATION_LIMIT,
        }
    }

    /// The primal pivot loop: entering variable, leaving variable, pivot,
    /// until a terminal status or the iteration cap (`PossibleCycling`).
    #[verifier::loop_isolation(false)]
    #[verifier::rlimit(80)]
    fn run_primal_loop(&mut self) -> (res: Result<(), SimplexError>)
        requires
            old(self).wf(),
            old(self).solve_type == SolveType::Standard,
            forall|i: int|
                0 <= i < old(self).m ==> #[trigger] old(self).basis_indecies@[i] < old(self).n,
        ensures
            final(self).wf(),
            final(self).same_config(*old(self)),
            final(self).n == old(self).n,
            final(self).m == old(self).m,
            final(self).c == old(self).c,
            final(self).solve_type == old(self).solve_type,
            forall|i: int|
                0 <= i < final(self).m ==> #[trigger] final(self).basis_indecies@[i] < final(self).n,
            res is Err ==> res == Result::<(), SimplexError>::Err(SimplexError::ArithmeticOverflow),
            res is Ok ==> final(self).solved,
            res is Ok ==> (final(self).additional_info == SolveMessage::Optimal
                || final(self).additional_info == SolveMessage::Unbounded || final(self).additional_info == SolveMessage::Infeasible || final(self).additional_info
                == SolveMessage::PossibleCycling || (old(self).solved && final(self).additional_info
                == old(self).additional_info)),
            res is Ok && !old(self).solved && final(self).additional_info == SolveMessage::Optimal
                ==> forall|j: int|
                0 <= j < final(self).n ==> !(#[trigger] final(self).reduced_cost@[j]).lt_val(
                    frac_zero(),
                ),
            old(self).solved ==> res is Ok && *final(self) == *old(self),
            !old(self).solved ==> ({
                let run = primal_run(
                    pivot_state_of(*old(self)),
                    old(self).variable_select_type,
                    old(self).big_m,
                    spec_iteration_cap(old(self).variable_select_type),
                );
                &&& ((res is Err) <==> (run is Overflow))
                &&& (run matches PivotRun::Done(fs, msg) ==> res is Ok && pivot_state_of(
                    *final(self),
                ) == fs && final(self).additional_info == msg && final(self).solved)
                &&& (run matches PivotRun::OutOfFuel(fs) ==> res is Ok && pivot_state_of(
                    *final(self),
                ) == fs && final(self).additional_info == SolveMessage::PossibleCycling && final(self).solved)
            }),
    {
        let ghost s0 = pivot_state_of(*old(self));
        let ghost rule = self.variable_select_type;
        let ghost bm = self.big_m;
        let ghost cap = spec_iteration_cap(rule);
        let mut fuel = self.iteration_cap();
        while !self.solved && fuel > 0
            invariant
                self.wf(),
                self.same_config(*old(self)),
                self.n == old(self).n,
                self.m == old(self).m,
                self.c == old(self).c,
                self.solve_type == SolveType::Standard,
                self.solved ==> old(self).solved && self.additional_info == old(self).additional_info,
                old(self).solved ==> *self == *old(self),
                forall|i: int|
                    0 <= i < self.m ==> #[trigger] self.basis_indecies@[i] < self.n,
                !old(self).solved ==> primal_run(s0, rule, bm, cap) == primal_run(
                    pivot_state_of(*self),
                    rule,
                    bm,
                    fuel as nat,
                ),
            decreases fuel,
        {
            let ghost fuel0 = fuel as nat;
            let ghost cur = pivot_state_of(*self);
            fuel = fuel - 1;
            match self.compute_entering_variable() {
                Ok(()) => (),
                Err(_) => {
                    return Err(SimplexError::ArithmeticOverflow);
                },
            }
            if self.solved {
                proof {
                    match self.variable_select_type {
                        VariableSelectType::Bland => {
                            crate::solver::lemma_bland_index_range(self.reduced_cost@, 0);
                            crate::solver::lemma_bland_none(self.reduced_cost@, 0);
                        },
                        VariableSelectType::Standard => {
                            lemma_most_negative_prefix_props(
                                self.reduced_cost@,
                                self.n as int,
                                self.n as int,
                            );
                            lemma_most_negative_none(
                                self.reduced_cost@,
                                self.n as int,
                                self.n as int,
                            );
                        },
                    }
                    assert(spec_entering(cur.core.rc, rule) == cur.core.rc.len() as int);
                    assert(primal_step(cur, rule, bm) == PrimalStep::Terminal(
                        self.additional_info,
                    ));
                    assert(pivot_state_of(*self) == cur);
                    assert(primal_run(s0, rule, bm, cap) == PivotRun::Done(
                        cur,
                        self.additional_info,
                    ));
                }
                return Ok(());
            }
            proof {
                crate::solver::lemma_bland_index_range(self.reduced_cost@, 0);
                lemma_most_negative_prefix_props(self.reduced_cost@, self.n as int, self.n as int);
                assert(self.entering_variable_index < self.n);
            }
            let ghost e = self.entering_variable_index as int;
            match self.compute_leaving_variable() {
                Ok(()) => (),
                Err(_) => {
                    proof {
                        assert(primal_step(cur, rule, bm) == PrimalStep::Overflow);
                        assert(primal_run(s0, rule, bm, cap) == PivotRun::Overflow);
                    }
                    return Err(SimplexError::ArithmeticOverflow);
                },
            }
            if self.solved {
                proof {
                    assert(primal_step(cur, rule, bm) == PrimalStep::Terminal(
                        SolveMessage::Unbounded,
                    ));
                    assert(pivot_state_of(*self) == cur);
                    assert(primal_run(s0, rule, bm, cap) == PivotRun::Done(
                        cur,
                        SolveMessage::Unbounded,
                    ));
                }
                return Ok(());
            }
            proof {
                crate::solver::lemma_min_ratio_prefix_props(
                    mat_of(self.a@)[self.entering_variable_index as int],
                    self.b@,
                    self.m as int,
                    self.m as int,
                );
                assert(self.leaving_variable_index < self.m);
            }
            let ghost r = self.leaving_variable_index as int;
            let ghost scan = min_ratio_prefix(cur.core.mat[e], cur.core.rhs, self.m as int, self.m as int);
            match self.update() {
                Ok(()) => {
                    proof {
                        let nxt = PivotState {
                            core: crate::solver::pivoted_state(cur.core, e, scan.1),
                            basis: cur.basis.update(scan.1, e as usize),
                        };
                        assert(primal_step(cur, rule, bm) == PrimalStep::Pivot(nxt));
                        let now = pivot_state_of(*self);
                        assert forall|ci: int|
                            0 <= ci < self.n implies #[trigger] now.core.mat[ci]
                            == nxt.core.mat[ci] by {
                            assert forall|row: int|
                                0 <= row < self.m implies #[trigger] now.core.mat[ci][row]
                                == nxt.core.mat[ci][row] by {
                                assert(Some(now.core.mat[ci][row]) == crate::solver::pivot_mat_entry(
                                    cur.core.mat,
                                    e,
                                    r,
                                    ci,
                                    row,
                                ));
                            }
                            assert(now.core.mat[ci] =~= nxt.core.mat[ci]);
                        }
                        assert(now.core.mat =~= nxt.core.mat);
                        assert forall|row: int|
                            0 <= row < self.m implies #[trigger] now.core.rhs[row]
                            == nxt.core.rhs[row] by {
                            assert(Some(now.core.rhs[row]) == crate::solver::pivot_rhs_entry(
                                cur.core.mat,
                                cur.core.rhs,
                                e,
                                r,
                                row,
                            ));
                        }
                        assert(now.core.rhs =~= nxt.core.rhs);
                        assert forall|ci: int|
                            0 <= ci < self.n implies #[trigger] now.core.rc[ci]
                            == nxt.core.rc[ci] by {
                            assert(Some(now.core.rc[ci]) == crate::solver::pivot_rc_entry(
                                cur.core.mat,
                                cur.core.rc,
                                e,
                                r,
                                ci,
                            ));
                        }
                        assert(now.core.rc =~= nxt.core.rc);
                        assert(now.core.obj == nxt.core.obj);
                        assert(now.basis == nxt.basis);
                        assert(now == nxt);
                        assert(primal_run(cur, rule, bm, fuel0) == primal_run(
                            nxt,
                            rule,
                            bm,
                            (fuel0 - 1) as nat,
                        ));
                    }
                },
                Err(_) => {
                    proof {
                        assert(primal_step(cur, rule, bm) == PrimalStep::Overflow);
                        assert(primal_run(s0, rule, bm, cap) == PivotRun::Overflow);
                    }
                    return Err(SimplexError::ArithmeticOverflow);
                },
            }
        }
        if !self.solved {
            proof {
                if !old(self).solved {
                    assert(primal_run(s0, rule, bm, cap) == PivotRun::OutOfFuel(
                        pivot_state_of(*self),
                    ));
                }
            }
            self.solved = true;
            self.additional_info = SolveMessage::PossibleCycling;
        }
        Ok(())
    }

    /// The dual pivot loop: leaving variable, entering variable, pivot,
    /// until a terminal status or the iteration cap (`PossibleCycling`).
    #[verifier::loop_isolation(false)]
    #[verifier::rlimit(80)]
    fn run_dual_loop(&mut self) -> (res: Result<(), SimplexError>)
        requires
            old(self).wf(),
            old(self).solve_type == SolveType::Dual,
        ensures
            final(self).wf(),
            final(self).same_config(*old(self)),
            final(self).solve_type == old(self).solve_type,
            final(self).n == old(self).n,
            final(self).m == old(self).m,
            res is Err ==> res == Result::<(), SimplexError>::Err(SimplexError::ArithmeticOverflow),
            res is Ok ==> final(self).solved,
            res is Ok ==> (final(self).additional_info == SolveMessage::Optimal
                || final(self).additional_info == SolveMessage::Unbounded || final(self).additional_info == SolveMessage::Infeasible || final(self).additional_info
                == SolveMessage::PossibleCycling || (old(self).solved && final(self).additional_info
                == old(self).additional_info)),
            old(self).solved ==> res is Ok && *final(self) == *old(self),
            !old(self).solved ==> ({
                let run = dual_run(
                    pivot_state_of(*old(self)),
                    spec_iteration_cap(old(self).variable_select_type),
                );
                &&& ((res is Err) <==> (run is Overflow))
                &&& (run matches PivotRun::Done(fs, msg) ==> res is Ok && pivot_state_of(
                    *final(self),
                ) == fs && final(self).additional_info == msg && final(self).solved)
                &&& (run matches PivotRun::OutOfFuel(fs) ==> res is Ok && pivot_state_of(
                    *final(self),
                ) == fs && final(self).additional_info == SolveMessage::PossibleCycling && final(self).solved)
            }),
    {
        let ghost s0 = pivot_state_of(*old(self));
        let ghost cap = spec_iteration_cap(self.variable_select_type);
        let mut fuel = self.iteration_cap();
        while !self.solved && fuel > 0
            invariant
                self.wf(),
                self.same_config(*old(self)),
                self.solve_type == SolveType::Dual,
                self.n == old(self).n,
                self.m == old(self).m,
                self.solved ==> old(self).solved && self.additional_info == old(self).additional_info,
                old(self).solved ==> *self == *old(self),
                !old(self).solved ==> dual_run(s0, cap) == dual_run(
                    pivot_state_of(*self),
                    fuel as nat,
                ),
            decreases fuel,
        {
            let ghost fuel0 = fuel as nat;
            let ghost cur = pivot_state_of(*self);
            fuel = fuel - 1;
            match self.compute_leaving_variable() {
                Ok(()) => (),
                Err(_) => {
                    proof {
                        assert(dual_step(cur) == PrimalStep::Overflow);
                        assert(dual_run(s0, cap) == PivotRun::Overflow);
                    }
                    return Err(SimplexError::ArithmeticOverflow);
                },
            }
            if self.solved {
                proof {
                    assert(dual_step(cur) == PrimalStep::Terminal(SolveMessage::Optimal));
                    assert(pivot_state_of(*self) == cur);
                    assert(dual_run(s0, cap) == PivotRun::Done(cur, SolveMessage::Optimal));
                }
                return Ok(());
            }
            proof {
                if self.m > 0 {
                    lemma_min_b_prefix_range(self.b@, self.m as int);
                }
            }
            let ghost lv = self.leaving_variable_index as int;
            match self.compute_entering_variable() {
                Ok(()) => (),
                Err(_) => {
                    proof {
                        assert(dual_step(cur) == PrimalStep::Overflow);
                        assert(dual_run(s0, cap) == PivotRun::Overflow);
                    }
                    return Err(SimplexError::ArithmeticOverflow);
                },
            }
            if self.solved {
                proof {
                    assert(dual_step(cur) == PrimalStep::Terminal(SolveMessage::Infeasible));
                    assert(pivot_state_of(*self) == cur);
                    assert(dual_run(s0, cap) == PivotRun::Done(cur, SolveMessage::Infeasible));
                }
                return Ok(());
            }
            proof {
                lemma_dual_max_prefix_props(
                    mat_of(self.a@),
                    self.reduced_cost@,
                    self.leaving_variable_index as int,
                    self.n as int,
                    self.n as int,
                );
            }
            let ghost e = self.entering_variable_index as int;
            match self.update() {
                Ok(()) => {
                    proof {
                        let nxt = PivotState {
                            core: crate::solver::pivoted_state(cur.core, e, lv),
                            basis: cur.basis.update(lv, e as usize),
                        };
                        assert(dual_step(cur) == PrimalStep::Pivot(nxt));
                        let now = pivot_state_of(*self);
                        assert forall|ci: int|
                            0 <= ci < self.n implies #[trigger] now.core.mat[ci]
                            == nxt.core.mat[ci] by {
                            assert forall|row: int|
                                0 <= row < self.m implies #[trigger] now.core.mat[ci][row]
                                == nxt.core.mat[ci][row] by {
                                assert(Some(now.core.mat[ci][row]) == crate::solver::pivot_mat_entry(
                                    cur.core.mat,
                                    e,
                                    lv,
                                    ci,
                                    row,
                                ));
                            }
                            assert(now.core.mat[ci] =~= nxt.core.mat[ci]);
                        }
                        assert(now.core.mat =~= nxt.core.mat);
                        assert forall|row: int|
                            0 <= row < self.m implies #[trigger] now.core.rhs[row]
                            == nxt.core.rhs[row] by {
                            assert(Some(now.core.rhs[row]) == crate::solver::pivot_rhs_entry(
                                cur.core.mat,
                                cur.core.rhs,
                                e,
                                lv,
                                row,
                            ));
                        }
                        assert(now.core.rhs =~= nxt.core.rhs);
                        assert forall|ci: int|
                            0 <= ci < self.n implies #[trigger] now.core.rc[ci]
                            == nxt.core.rc[ci] by {
                            assert(Some(now.core.rc[ci]) == crate::solver::pivot_rc_entry(
                                cur.core.mat,
                                cur.core.rc,
                                e,
                                lv,
                                ci,
                            ));
                        }
                        assert(now.core.rc =~= nxt.core.rc);
                        assert(now.core.obj == nxt.core.obj);
                        assert(now.basis == nxt.basis);
                        assert(now == nxt);
                        assert(dual_run(cur, fuel0) == dual_run(nxt, (fuel0 - 1) as nat));
                    }
                },
                Err(_) => {
                    proof {
                        assert(dual_step(cur) == PrimalStep::Overflow);
                        assert(dual_run(s0, cap) == PivotRun::Overflow);
                    }
                    return Err(SimplexError::ArithmeticOverflow);
                },
            }
        }
        if !self.solved {
            proof {
                if !old(self).solved {
                    assert(dual_run(s0, cap) == PivotRun::OutOfFuel(pivot_state_of(*self)));
                }
            }
            self.solved = true;
            self.additional_info = SolveMessage::PossibleCycling;
        }
        Ok(())
    }

    /// After phase 1 of a Big-M run: pivots every artificial variable (a
    /// column with an infinite true cost) out of the basis — a row with no
    /// other usable entry is a redundant constraint and is dropped — then
    /// removes every artificial column and renumbers the basis accordingly.
    /// The reduced-cost row is left zeroed for the caller to recompute, and
    /// the original-basis mapping does not survive the structural changes.
    #[verifier::loop_isolation(false)]
    fn purge_artificial(&mut self) -> (res: Result<(), SimplexError>)
        requires
            old(self).wf(),
            !old(self).solved,
            forall|i: int|
                0 <= i < old(self).m ==> #[trigger] old(self).basis_indecies@[i] < old(self).n,
        ensures
            final(self).wf(),
            final(self).same_config(*old(self)),
            !final(self).solved,
            final(self).additional_info == old(self).additional_info,
            forall|i: int|
                0 <= i < final(self).m ==> #[trigger] final(self).basis_indecies@[i] < final(self).n,
            res is Err ==> res == Result::<(), SimplexError>::Err(SimplexError::ArithmeticOverflow),
    {
        let n = self.n;
        // Drive every artificial variable out of the basis.
        let mut i = self.m;
        while i > 0
            invariant
                0 <= i <= self.m,
                n == self.n,
                self.wf(),
                self.same_config(*old(self)),
                !self.solved,
                self.additional_info == old(self).additional_info,
                forall|r: int|
                    0 <= r < self.m ==> #[trigger] self.basis_indecies@[r] < n,
                forall|r: int|
                    i <= r < self.m ==> !self.c@[#[trigger] self.basis_indecies@[r] as int].is_inf(),
            decreases i,
        {
            i = i - 1;
            let bv = self.basis_indecies[i];
            let cb = self.c[bv];
            if cb.numerator == i64::MAX || cb.numerator == -i64::MAX {
                // A degenerate artificial variable: look for another usable
                // pivot entry in its row, skipping artificial columns.
                let mut found = false;
                let mut entering: usize = 0;
                let mut j: usize = 0;
                while j < n
                    invariant
                        0 <= j <= n,
                        n == self.n,
                        self.wf(),
                        0 <= i < self.m,
                        found ==> entering < n && !self.c@[entering as int].is_inf(),
                    decreases n - j,
                {
                    let cj = self.c[j];
                    let artificial = cj.numerator == i64::MAX || cj.numerator == -i64::MAX;
                    if j != bv && !artificial {
                        proof {
                            assert(mat_of(self.a@)[j as int] == self.a@[j as int]@);
                        }
                        let v = self.a[j][i];
                        if !(v.numerator == 0 && v.denominator == 1) {
                            found = true;
                            entering = j;
                            break ;
                        }
                    }
                    j = j + 1;
                }
                if found {
                    self.leaving_variable_index = i;
                    self.entering_variable_index = entering;
                    match self.update() {
                        Ok(()) => (),
                        Err(_) => {
                            return Err(SimplexError::ArithmeticOverflow);
                        },
                    }
                } else {
                    // Redundant constraint: drop the row everywhere.
                    let ghost m_snap = self.m;
                    let mut cc: usize = 0;
                    while cc < n
                        invariant
                            0 <= cc <= n,
                            n == self.n,
                            0 <= i < self.m,
                            self.m == m_snap,
                            self.a@.len() == n,
                            forall|k: int|
                                0 <= k < cc ==> (#[trigger] mat_of(self.a@)[k]).len() == self.m - 1,
                            forall|k: int|
                                cc <= k < n ==> (#[trigger] mat_of(self.a@)[k]).len() == self.m,
                            forall|k: int| 0 <= k < n ==> all_wf(#[trigger] mat_of(self.a@)[k]),
                            self.same_config(*old(self)),
                            !self.solved,
                            self.additional_info == old(self).additional_info,
                            self.b@.len() == self.m,
                            all_wf(self.b@),
                            self.c@.len() == n,
                            all_wf(self.c@),
                            self.reduced_cost@.len() == n,
                            all_wf(self.reduced_cost@),
                            self.basis_indecies@.len() == self.m,
                            self.obj.wf(),
                            all_wf(self.basis_cost_vector@),
                            all_wf(self.two_phase_cost_vector@),
                            all_wf(self.solution@),
                            self.n < usize::MAX,
                            self.m < usize::MAX,
                            forall|r: int|
                                0 <= r < self.m ==> #[trigger] self.basis_indecies@[r] < n,
                            forall|r: int|
                                i + 1 <= r < self.m ==> !self.c@[#[trigger] self.basis_indecies@[r]
                                    as int].is_inf(),
                        decreases n - cc,
                    {
                        proof {
                            assert(mat_of(self.a@)[cc as int] == self.a@[cc as int]@);
                        }
                        let ghost a_pre = self.a@;
                        crate::solver::mat_remove_entry(&mut self.a, cc, i);
                        proof {
                            assert forall|k: int| 0 <= k < n implies all_wf(
                                #[trigger] mat_of(self.a@)[k],
                            ) && mat_of(self.a@)[k] == self.a@[k]@ by {
                                assert(mat_of(self.a@)[k] == self.a@[k]@);
                                assert(mat_of(a_pre)[k] == a_pre[k]@);
                                if k == cc as int {
                                    assert(self.a@[k]@ == a_pre[k]@.remove(i as int));
                                    assert(self.a@[k]@.len() == a_pre[k]@.len() - 1);
                                    assert forall|jj: int|
                                        0 <= jj < self.a@[k]@.len() implies (#[trigger] self.a@[k]@[
                                    jj]).wf() by {
                                        if jj < i as int {
                                            assert(self.a@[k]@[jj] == a_pre[k]@[jj]);
                                        } else {
                                            assert(self.a@[k]@[jj] == a_pre[k]@[jj + 1]);
                                        }
                                    }
                                } else {
                                    assert(self.a@[k] == a_pre[k]);
                                }
                            }
                            assert forall|k: int|
                                0 <= k < cc + 1 implies (#[trigger] mat_of(self.a@)[k]).len()
                                == self.m - 1 by {
                                assert(mat_of(self.a@)[k] == self.a@[k]@);
                                if k == cc as int {
                                    assert(self.a@[k]@.len() == a_pre[k]@.len() - 1);
                                    assert(mat_of(a_pre)[k] == a_pre[k]@);
                                } else {
                                    assert(self.a@[k] == a_pre[k]);
                                    assert(mat_of(a_pre)[k] == a_pre[k]@);
                                }
                            }
                            assert forall|k: int|
                                cc + 1 <= k < n implies (#[trigger] mat_of(self.a@)[k]).len()
                                == self.m by {
                                assert(mat_of(self.a@)[k] == self.a@[k]@);
                                assert(self.a@[k] == a_pre[k]);
                                assert(mat_of(a_pre)[k] == a_pre[k]@);
                            }
                        }
                        cc = cc + 1;
                    }
                    self.b.remove(i);
                    self.basis_indecies.remove(i);
                    self.m = self.m - 1;
                    self.original_basis_indecies = None;
                    proof {
                        assert forall|r: int|
                            0 <= r < self.m implies #[trigger] self.basis_indecies@[r] < n by {}
                        assert forall|r: int|
                            i <= r < self.m implies !self.c@[#[trigger] self.basis_indecies@[r]
                                as int].is_inf() by {}
                    }
                }
            }
        }
        // Remove every artificial column, renumbering the kept columns.
        let mut map: Vec<usize> = Vec::new();
        let mut new_a: Vec<Vec<Fraction>> = Vec::new();
        let mut new_c: Vec<Fraction> = Vec::new();
        let mut cnt: usize = 0;
        let mut j: usize = 0;
        while j < n
            invariant
                0 <= j <= n,
                n == self.n,
                self.wf(),
                map@.len() == j,
                self.same_config(*old(self)),
                !self.solved,
                self.additional_info == old(self).additional_info,
                cnt == new_a@.len(),
                cnt == new_c@.len(),
                cnt <= j,
                all_wf(new_c@),
                forall|k: int| 0 <= k < cnt ==> (#[trigger] mat_of(new_a@)[k]).len() == self.m,
                forall|k: int| 0 <= k < cnt ==> all_wf(#[trigger] mat_of(new_a@)[k]),
                forall|k: int|
                    0 <= k < j ==> (self.c@[k].is_inf() <==> #[trigger] map@[k] == n),
                forall|k: int| 0 <= k < j ==> (!self.c@[k].is_inf() ==> #[trigger] map@[k] < cnt),
            decreases n - j,
        {
            let cj = self.c[j];
            if cj.numerator == i64::MAX || cj.numerator == -i64::MAX {
                map.push(n);
            } else {
                map.push(cnt);
                proof {
                    assert(mat_of(self.a@)[j as int] == self.a@[j as int]@);
                }
                let ghost na_pre = new_a@;
                new_a.push(crate::solver::copy_col(&self.a[j]));
                new_c.push(cj);
                proof {
                    assert forall|k: int|
                        0 <= k < cnt + 1 implies (#[trigger] mat_of(new_a@)[k]).len() == self.m
                        && all_wf(mat_of(new_a@)[k]) by {
                        assert(mat_of(new_a@)[k] == new_a@[k]@);
                        if k < cnt {
                            assert(new_a@[k] == na_pre[k]);
                            assert(mat_of(na_pre)[k] == na_pre[k]@);
                        }
                    }
                }
                cnt = cnt + 1;
            }
            j = j + 1;
        }
        // Renumber the basis through the kept-column map.
        let mut r: usize = 0;
        while r < self.m
            invariant
                0 <= r <= self.m,
                n == self.n,
                self.wf(),
                map@.len() == n,
                self.same_config(*old(self)),
                !self.solved,
                self.additional_info == old(self).additional_info,
                cnt <= n,
                forall|k: int| 0 <= k < cnt ==> (#[trigger] mat_of(new_a@)[k]).len() == self.m,
                forall|k: int| 0 <= k < cnt ==> all_wf(#[trigger] mat_of(new_a@)[k]),
                new_a@.len() == cnt,
                new_c@.len() == cnt,
                all_wf(new_c@),
                forall|k: int| 0 <= k < n ==> (self.c@[k].is_inf() <==> #[trigger] map@[k] == n),
                forall|k: int| 0 <= k < n ==> (!self.c@[k].is_inf() ==> #[trigger] map@[k] < cnt),
                self.basis_indecies@.len() == self.m,
                forall|k: int|
                    r <= k < self.m ==> #[trigger] self.basis_indecies@[k] < n && !self.c@[
                    self.basis_indecies@[k] as int].is_inf(),
                forall|k: int| 0 <= k < r ==> #[trigger] self.basis_indecies@[k] < cnt,
            decreases self.m - r,
        {
            let bv = self.basis_indecies[r];
            self.basis_indecies.set(r, map[bv]);
            r = r + 1;
        }
        // Install the filtered columns and costs; reduced costs are zeroed
        // until the caller recomputes them.
        let mut rc0: Vec<Fraction> = Vec::new();
        let mut k: usize = 0;
        while k < cnt
            invariant
                0 <= k <= cnt,
                rc0@.len() == k,
                all_wf(rc0@),
            decreases cnt - k,
        {
            rc0.push(Fraction::new(0, 1));
            k = k + 1;
        }
        self.a = new_a;
        self.c = new_c;
        self.n = cnt;
        self.reduced_cost = rc0;
        self.two_phase_cost_vector = Vec::new();
        self.original_basis_indecies = None;
        proof {
            assert(mat_of(self.a@).len() == self.a@.len());
            assert(is_matrix(mat_of(self.a@), self.n as int, self.m as int));
            assert(mat_wf(mat_of(self.a@)));
            assert(self.wf());
        }
        Ok(())
    }

    /// Drives the tableau to a terminal status.  A Big-M program runs the
    /// two-phase strategy: the phase-1 primal loop under the synthetic costs,
    /// then — unless phase 1 ended infeasible (nonzero phase-1 objective) —
    /// the purge of artificial variables, the recomputation of reduced costs
    /// against the true costs, and the phase-2 primal loop.  Plain programs
    /// run the primal or the dual loop directly.  On `Optimal` or `Unbounded`
    /// the solution vector is recovered.
    pub fn solve(&mut self) -> (res: Result<(), SimplexError>)
        requires
            old(self).wf(),
            old(self).big_m ==> old(self).solve_type == SolveType::Standard,
            old(self).solve_type == SolveType::Standard ==> forall|i: int|
                0 <= i < old(self).m ==> #[trigger] old(self).basis_indecies@[i] < old(self).n,
        ensures
            final(self).wf(),
            res is Err ==> res == Result::<(), SimplexError>::Err(SimplexError::ArithmeticOverflow),
            res is Ok ==> final(self).solved,
            res is Ok && !old(self).solved ==> (final(self).additional_info
                == SolveMessage::Optimal || final(self).additional_info == SolveMessage::Unbounded
                || final(self).additional_info == SolveMessage::Infeasible || final(self).additional_info == SolveMessage::PossibleCycling),
            res is Ok && !old(self).solved && (final(self).additional_info == SolveMessage::Optimal
                || final(self).additional_info == SolveMessage::Unbounded) ==> final(self).solution@.len() == final(self).n,
            res is Ok && !old(self).solved && final(self).additional_info == SolveMessage::Optimal
                && final(self).solve_type == SolveType::Standard ==> forall|j: int|
                0 <= j < final(self).n ==> !(#[trigger] final(self).reduced_cost@[j]).lt_val(
                    frac_zero(),
                ),
            old(self).solved ==> res is Ok && *final(self) == *old(self),
            (!old(self).solved && !old(self).big_m && old(self).solve_type == SolveType::Standard)
                ==> ({
                let run = primal_run(
                    pivot_state_of(*old(self)),
                    old(self).variable_select_type,
                    false,
                    spec_iteration_cap(old(self).variable_select_type),
                );
                &&& ((res is Err) <==> (run is Overflow))
                &&& (run matches PivotRun::Done(fs, msg) ==> res is Ok && pivot_state_of(
                    *final(self),
                ) == fs && final(self).additional_info == msg && ((msg == SolveMessage::Optimal
                    || msg == SolveMessage::Unbounded) ==> final(self).solution@ == spec_solution(
                    fs.basis,
                    fs.core.rhs,
                    old(self).n as int,
                )))
                &&& (run matches PivotRun::OutOfFuel(fs) ==> res is Ok && pivot_state_of(
                    *final(self),
                ) == fs && final(self).additional_info == SolveMessage::PossibleCycling)
            }),
            (!old(self).solved && old(self).solve_type == SolveType::Dual) ==> ({
                let run = dual_run(
                    pivot_state_of(*old(self)),
                    spec_iteration_cap(old(self).variable_select_type),
                );
                &&& ((res is Err) <==> (run is Overflow))
                &&& (run matches PivotRun::Done(fs, msg) ==> res is Ok && pivot_state_of(
                    *final(self),
                ) == fs && final(self).additional_info == msg && ((msg == SolveMessage::Optimal
                    || msg == SolveMessage::Unbounded) ==> final(self).solution@ == spec_solution(
                    fs.basis,
                    fs.core.rhs,
                    old(self).n as int,
                )))
                &&& (run matches PivotRun::OutOfFuel(fs) ==> res is Ok && pivot_state_of(
                    *final(self),
                ) == fs && final(self).additional_info == SolveMessage::PossibleCycling)
            }),
            (!old(self).solved && old(self).big_m) ==> ({
                // Phase 1 runs under the synthetic Big-M rule; a terminal
                // outcome other than phase-1 optimality is final.  After a
                // phase-1 optimum the artificial purge and phase 2 follow,
                // whose outcomes this contract does not characterize.
                let run = primal_run(
                    pivot_state_of(*old(self)),
                    old(self).variable_select_type,
                    true,
                    spec_iteration_cap(old(self).variable_select_type),
                );
                &&& (run is Overflow ==> res is Err)
                &&& (run matches PivotRun::Done(fs, msg) ==> {
                    &&& (msg == SolveMessage::Infeasible ==> res is Ok && pivot_state_of(
                        *final(self),
                    ) == fs && final(self).additional_info == msg)
                    &&& (msg == SolveMessage::Unbounded ==> res is Ok && pivot_state_of(
                        *final(self),
                    ) == fs && final(self).additional_info == msg && final(self).solution@
                        == spec_solution(fs.basis, fs.core.rhs, old(self).n as int))
                })
                &&& (run matches PivotRun::OutOfFuel(fs) ==> res is Ok && pivot_state_of(
                    *final(self),
                ) == fs && final(self).additional_info == SolveMessage::PossibleCycling)
            }),
    {
        if self.solved {
            return Ok(());
        }
        if self.big_m {
            let run_two_phase = match self.big_m_solve_type {
                BigMSolveType::TwoPhase => true,
            };
            if run_two_phase {
                // Phase 1 under the synthetic costs.
                match self.run_primal_loop() {
                    Ok(()) => (),
                    Err(_) => {
                        return Err(SimplexError::ArithmeticOverflow);
                    },
                }
                let st = self.additional_info;
                if matches!(st, SolveMessage::Infeasible) {
                    return Ok(());
                }
                if matches!(st, SolveMessage::PossibleCycling) {
                    return Ok(());
                }
                if matches!(st, SolveMessage::Unbounded) {
                    self.retrieve_solution();
                    return Ok(());
                }
                // Phase 1 optimal: purge the artificial variables and resume
                // with the true costs.
                self.big_m = false;
                self.solved = false;
                self.additional_info = SolveMessage::Phase1Complete;
                if self.debug {
                    self.trace.push(TraceEvent::PhaseTransition);
                }
                match self.purge_artificial() {
                    Ok(()) => (),
                    Err(_) => {
                        return Err(SimplexError::ArithmeticOverflow);
                    },
                }
                self.additional_info = SolveMessage::Unsolved;
                self.compute_basis_cost_vector();
                match self.compute_reduced_cost() {
                    Ok(()) => (),
                    Err(_) => {
                        return Err(SimplexError::ArithmeticOverflow);
                    },
                }
                match self.run_primal_loop() {
                    Ok(()) => (),
                    Err(_) => {
                        return Err(SimplexError::ArithmeticOverflow);
                    },
                }
                let st2 = self.additional_info;
                if matches!(st2, SolveMessage::Optimal) || matches!(st2, SolveMessage::Unbounded) {
                    self.retrieve_solution();
                }
                Ok(())
            } else {
                Ok(())
            }
        } else {
            match self.solve_type {
                SolveType::Standard => {
                    match self.run_primal_loop() {
                        Ok(()) => (),
                        Err(_) => {
                            return Err(SimplexError::ArithmeticOverflow);
                        },
                    }
                    let st = self.additional_info;
                    if matches!(st, SolveMessage::Optimal) || matches!(st, SolveMessage::Unbounded) {
                        self.retrieve_solution();
                    }
                    Ok(())
                },
                SolveType::Dual => {
                    match self.run_dual_loop() {
                        Ok(()) => (),
                        Err(_) => {
                            return Err(SimplexError::ArithmeticOverflow);
                        },
                    }
                    let st = self.additional_info;
                    if matches!(st, SolveMessage::Optimal) || matches!(st, SolveMessage::Unbounded) {
                        self.retrieve_solution();
                    }
                    Ok(())
                },
            }
        }
    }

    /// Turns the trace of pivot decisions on or off.
    pub fn set_debug(&mut self, input: bool)
        ensures
            *final(self) == (Tableau { debug: input, ..*old(self) }),
    {
        self.debug = input;
    }
}

} // verus!
