//! End-to-end runs of the tableau engine and the free-function solver, the
//! sentinel-arithmetic identities, and the construction-time error cases.

use simplex::fraction::{gcd, Fraction};
use simplex::solver;
use simplex::tableau::{
    BigMSolveType, SolveMessage, SolveType, Tableau, TraceEvent, VariableSelectType,
};

fn f(n: i64, d: i64) -> Fraction {
    Fraction::new(n, d)
}

fn num(n: i64) -> Fraction {
    Fraction::from(n)
}

fn pos_inf() -> Fraction {
    Fraction::from(i64::MAX)
}

fn neg_inf() -> Fraction {
    Fraction::from(-i64::MAX)
}

#[test]
fn sentinel_identities() {
    assert_eq!(pos_inf() + neg_inf(), num(0));
    assert_eq!(pos_inf() + pos_inf(), pos_inf());
    assert_eq!(neg_inf() - neg_inf(), num(0));
    assert_eq!(pos_inf() * neg_inf(), neg_inf());
    assert_eq!(f(5, 3) / pos_inf(), num(0));
}

#[test]
fn gcd_and_reduce() {
    assert_eq!(gcd(12, -18), 6);
    assert_eq!(gcd(0, 5), 5);
    assert_eq!(gcd(-7, 0), 7);
    assert_eq!(gcd(i64::MIN, 5), 1);
    assert_eq!(gcd(i64::MIN, 64), 64);
    assert_eq!(gcd(6, i64::MIN), 2);
    let mut x = f(6, -4);
    x.reduce();
    assert_eq!(x, f(-3, 2));
    let mut y = f(0, 9);
    y.reduce();
    assert_eq!(y, f(0, 1));
}

#[test]
fn divide_then_multiply_restores() {
    let a = f(3, 4);
    let b = f(2, 5);
    assert_eq!(a / b, f(15, 8));
    assert_eq!((a / b) * b, a);
    let c = f(-7, 2);
    let d = f(3, 1);
    assert_eq!((c / d) * d, c);
}

#[test]
fn bland_and_min_ratio() {
    let rc = vec![num(2), num(0), num(-5), num(-1)];
    assert_eq!(solver::bland_reduced_cost(&rc), 2);
    let none = vec![num(2), num(0)];
    assert_eq!(solver::bland_reduced_cost(&none), 2);

    let a = vec![vec![num(1), num(2)], vec![num(1), num(0)]];
    let b = vec![num(4), num(6)];
    let (ratio, row) = solver::find_min_ratio(&a, &b, &0).unwrap();
    assert_eq!(ratio, num(3));
    assert_eq!(row, 1);
}

#[test]
fn solver_solve_two_variable_box() {
    // maximize x1 + x2 subject to x1 <= 1, x2 <= 1.
    let a = vec![
        vec![num(1), num(0)],
        vec![num(0), num(1)],
        vec![num(1), num(0)],
        vec![num(0), num(1)],
    ];
    let b = vec![num(1), num(1)];
    let c = vec![num(1), num(1), num(0), num(0)];
    let (_, rhs, rc, obj) = solver::solve(a, b, c).unwrap();
    assert_eq!(obj, num(2));
    assert_eq!(rhs, vec![num(1), num(1)]);
    for entry in rc {
        assert!(!(entry < num(0)));
    }
}

fn box_tableau(rule: VariableSelectType) -> Tableau {
    let a = vec![
        vec![num(1), num(0)],
        vec![num(0), num(1)],
        vec![num(1), num(0)],
        vec![num(0), num(1)],
    ];
    let b = vec![num(1), num(1)];
    let c = vec![num(1), num(1), num(0), num(0)];
    Tableau::new(a, b, c, rule, SolveType::Standard, BigMSolveType::TwoPhase).unwrap()
}

#[test]
fn scenario_box_optimal() {
    // maximize x1 + x2 subject to x1 <= 1, x2 <= 1: optimal at (1, 1) with
    // objective 2.
    let mut t = box_tableau(VariableSelectType::Bland);
    t.solve().unwrap();
    assert_eq!(t.status(), SolveMessage::Optimal);
    assert_eq!(t.objective(), num(2));
    let sol = t.solution();
    assert_eq!(sol[0], num(1));
    assert_eq!(sol[1], num(1));
    assert_eq!(sol[2], num(0));
    assert_eq!(sol[3], num(0));
}

#[test]
fn scenario_unbounded() {
    // maximize x1 subject to x1 - x2 <= 0 with x2 free to grow: unbounded.
    let a = vec![vec![num(1)], vec![num(-1)], vec![num(1)]];
    let b = vec![num(0)];
    let c = vec![num(1), num(0), num(0)];
    let mut t = Tableau::new(
        a,
        b,
        c,
        VariableSelectType::Bland,
        SolveType::Standard,
        BigMSolveType::TwoPhase,
    )
    .unwrap();
    t.solve().unwrap();
    assert_eq!(t.status(), SolveMessage::Unbounded);
}

#[test]
fn scenario_infeasible_two_phase() {
    // x1 <= 1 and x1 >= 2 have no common point; the artificial variable for
    // the second row cannot be driven out, so phase 1 ends with a nonzero
    // objective.
    let a = vec![
        vec![num(1), num(1)],
        vec![num(1), num(0)],
        vec![num(0), num(-1)],
        vec![num(0), num(1)],
    ];
    let b = vec![num(1), num(2)];
    let c = vec![num(1), num(0), num(0), pos_inf()];
    let mut t = Tableau::new(
        a,
        b,
        c,
        VariableSelectType::Bland,
        SolveType::Standard,
        BigMSolveType::TwoPhase,
    )
    .unwrap();
    t.solve().unwrap();
    assert_eq!(t.status(), SolveMessage::Infeasible);
}

fn degenerate_tableau(rule: VariableSelectType) -> Tableau {
    // A degenerate program (two zero right-hand sides) known to cycle under
    // the greedy entering rule with first-row tie-breaking.
    let a = vec![
        vec![f(1, 4), f(1, 2), num(0)],
        vec![num(-60), num(-90), num(0)],
        vec![f(-1, 25), f(-1, 50), num(1)],
        vec![num(9), num(3), num(0)],
        vec![num(1), num(0), num(0)],
        vec![num(0), num(1), num(0)],
        vec![num(0), num(0), num(1)],
    ];
    let b = vec![num(0), num(0), num(1)];
    let c = vec![f(3, 4), num(-150), f(1, 50), num(-6), num(0), num(0), num(0)];
    Tableau::new(a, b, c, rule, SolveType::Standard, BigMSolveType::TwoPhase).unwrap()
}

#[test]
fn anti_cycling_bland_terminates() {
    let mut t = degenerate_tableau(VariableSelectType::Bland);
    t.set_debug(true);
    t.solve().unwrap();
    assert_eq!(t.status(), SolveMessage::Optimal);
    // The anti-cycling rule reached the optimum within the iteration cap and
    // recorded its pivot decisions.
    assert!(t.trace().len() > 0);
}

#[test]
fn greedy_rule_reports_possible_cycling() {
    let mut t = degenerate_tableau(VariableSelectType::Standard);
    t.solve().unwrap();
    assert_eq!(t.status(), SolveMessage::PossibleCycling);
}

#[test]
fn dual_simplex_restores_feasibility() {
    // minimize x1 subject to x1 >= 1, written as -x1 <= -1 with a slack:
    // maximize -x1 gives objective -1 at x1 = 1.
    let a = vec![vec![num(-1)], vec![num(1)]];
    let b = vec![num(-1)];
    let c = vec![num(-1), num(0)];
    let mut t = Tableau::new(
        a,
        b,
        c,
        VariableSelectType::Standard,
        SolveType::Dual,
        BigMSolveType::TwoPhase,
    )
    .unwrap();
    t.solve().unwrap();
    assert_eq!(t.status(), SolveMessage::Optimal);
    assert_eq!(t.solution()[0], num(1));
    assert_eq!(t.objective(), num(-1));
}

#[test]
fn construction_errors() {
    // Mismatched cost length.
    let r = Tableau::new(
        vec![vec![num(1)]],
        vec![num(1)],
        vec![num(1), num(2)],
        VariableSelectType::Bland,
        SolveType::Standard,
        BigMSolveType::TwoPhase,
    );
    assert_eq!(r.err(), Some(solver::SimplexError::DimensionMismatch));

    // Negative right-hand side under a primal strategy.
    let r = Tableau::new(
        vec![vec![num(1)]],
        vec![num(-1)],
        vec![num(1)],
        VariableSelectType::Bland,
        SolveType::Standard,
        BigMSolveType::TwoPhase,
    );
    assert_eq!(r.err(), Some(solver::SimplexError::NotStandardForm));

    // No identity column for the single row.
    let r = Tableau::new(
        vec![vec![num(2)]],
        vec![num(1)],
        vec![num(1)],
        VariableSelectType::Bland,
        SolveType::Standard,
        BigMSolveType::TwoPhase,
    );
    assert_eq!(r.err(), Some(solver::SimplexError::NoIdentityColumn));
}

#[test]
fn solver_solve_rejects_bad_shapes() {
    let r = solver::solve(vec![vec![num(1)]], vec![num(1)], vec![num(1), num(2)]);
    assert_eq!(r.err(), Some(solver::SimplexError::DimensionMismatch));
    let r = solver::solve(vec![vec![num(2)]], vec![num(1)], vec![num(1)]);
    assert_eq!(r.err(), Some(solver::SimplexError::NoIdentityColumn));
}

#[test]
fn basis_inverse_recovered() {
    let mut t = box_tableau(VariableSelectType::Bland);
    t.solve().unwrap();
    // No structural change happened, so the original basis (the two slack
    // columns) can still be inverted; after the pivots those columns hold
    // the inverse of the original basis submatrix, here the identity.
    let binv = t.find_b_inverse().unwrap();
    assert_eq!(binv[0], vec![num(1), num(0)]);
    assert_eq!(binv[1], vec![num(0), num(1)]);
}

#[test]
fn trace_records_bland_decisions() {
    let mut t = box_tableau(VariableSelectType::Bland);
    t.set_debug(true);
    t.solve().unwrap();
    let trace = t.trace();
    assert_eq!(trace[0], TraceEvent::EnteringChosen(0));
    assert!(trace.contains(&TraceEvent::LeavingChosen(0)));
}

#[test]
fn overflow_is_reported_not_wrapped() {
    // 1/3 + 1/(2^62) and (1/3) * (1/(2^62)): the exact denominators leave the
    // machine range.
    let big = 1i64 << 62;
    assert_eq!(f(1, 3).checked_add(f(1, big)), None);
    assert_eq!(f(1, 3).checked_mul(f(1, big)), None);
    // A basic variable with cost 1/(2^62) forces that product in the
    // reduced-cost setup, so construction reports the overflow.
    let r = Tableau::new(
        vec![vec![f(1, 3)], vec![num(1)]],
        vec![num(1)],
        vec![num(1), f(1, big)],
        VariableSelectType::Bland,
        SolveType::Standard,
        BigMSolveType::TwoPhase,
    );
    assert_eq!(r.err(), Some(solver::SimplexError::ArithmeticOverflow));
}

#[test]
fn pivot_never_decreases_objective() {
    let mut t = box_tableau(VariableSelectType::Bland);
    let mut previous = t.objective();
    // Step the pivot loop by hand and watch the objective after every pivot.
    for _ in 0..4 {
        t.compute_entering_variable().unwrap();
        if t.status() != SolveMessage::Unsolved {
            break;
        }
        t.compute_leaving_variable().unwrap();
        if t.status() != SolveMessage::Unsolved {
            break;
        }
        t.update().unwrap();
        let current = t.objective();
        assert!(!(current < previous));
        previous = current;
    }
    assert_eq!(t.status(), SolveMessage::Optimal);
    assert_eq!(t.objective(), num(2));
}
