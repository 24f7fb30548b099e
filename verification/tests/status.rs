use arco::status::{aggregate_block_status, SolverStatus};

#[test]
fn aggregate_returns_optimal_when_all_blocks_optimal() {
    let status = aggregate_block_status(&[SolverStatus::Optimal, SolverStatus::Optimal]);
    assert_eq!(status, SolverStatus::Optimal);
}

#[test]
fn aggregate_prioritizes_infeasible_over_limits() {
    let status = aggregate_block_status(&[SolverStatus::Optimal, SolverStatus::Infeasible]);
    assert_eq!(status, SolverStatus::Infeasible);
}

#[test]
fn aggregate_reports_unknown_on_conflicting_terminal_statuses() {
    let status = aggregate_block_status(&[SolverStatus::Infeasible, SolverStatus::Unbounded]);
    assert_eq!(status, SolverStatus::Unknown);
}
