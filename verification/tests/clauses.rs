use graphs::horn::count_literals;
use graphs::horn::first_literal;
use graphs::horn::has_resolutions;
use graphs::horn::VarState;

fn clause(marks: &[i32]) -> Vec<VarState> {
    marks
        .iter()
        .map(|m| match m {
            1 => VarState::Direct,
            0 => VarState::Inverted,
            _ => VarState::Nothing,
        })
        .collect()
}

fn formula(rows: &[&[i32]]) -> Vec<Vec<VarState>> {
    rows.iter().map(|r| clause(r)).collect()
}

#[test]
fn literals_are_counted_and_found() {
    assert_eq!(count_literals(&clause(&[-1, -1, -1])), 0);
    assert_eq!(count_literals(&clause(&[-1, 0, 1])), 2);
    assert_eq!(first_literal(&clause(&[-1, 0, 1])), 1);
    assert_eq!(first_literal(&clause(&[1, -1, -1])), 0);
    assert_eq!(first_literal(&clause(&[-1, -1, 0])), 2);
}

#[test]
fn two_units_that_clash_leave_no_assignment() {
    assert!(!has_resolutions(formula(&[&[1], &[0]])));
    assert!(!has_resolutions(formula(&[&[-1, 1], &[-1, 0]])));
}

#[test]
fn a_single_unit_is_satisfied() {
    assert!(has_resolutions(formula(&[&[1]])));
    assert!(has_resolutions(formula(&[&[0]])));
    assert!(has_resolutions(formula(&[&[1, -1], &[-1, 0]])));
}

#[test]
fn propagation_empties_a_clause() {
    let f = formula(&[&[1, 0, -1], &[0, 1, 0], &[-1, 0, 1], &[0, -1, -1], &[-1, 1, -1]]);
    assert!(!has_resolutions(f));
}

#[test]
fn propagation_runs_through_a_chain() {
    // x1, x1 -> x2, x2 -> x3
    assert!(has_resolutions(formula(&[&[1, -1, -1], &[0, 1, -1], &[-1, 0, 1]])));
    // and not x3 on top
    assert!(!has_resolutions(formula(&[&[1, -1, -1], &[0, 1, -1], &[-1, 0, 1], &[-1, -1, 0]])));
}

#[test]
fn a_formula_without_units_passes() {
    assert!(has_resolutions(formula(&[&[0, 0, 1], &[0, 1, 0]])));
    assert!(has_resolutions(formula(&[&[1, 1]])));
    assert!(has_resolutions(formula(&[&[-1, -1]])));
}
