//! Solver termination statuses and how the statuses of composed blocks are
//! folded into one overall status.

use vstd::prelude::*;

use crate::text::str_eq;

verus! {

/// Termination status reported by a solver backend.
#[derive(Debug, Clone, Copy, PartialEq, Eq, Structural)]
pub enum SolverStatus {
    Optimal,
    Infeasible,
    Unbounded,
    TimeLimit,
    IterationLimit,
    Unknown,
}

/// Whether `s` contains the status `st`.
pub open spec fn has_status(s: Seq<SolverStatus>, st: SolverStatus) -> bool {
    exists|i: int| 0 <= i < s.len() && s[i] == st
}

/// The status a composed model reports given the statuses of its blocks.
pub open spec fn aggregate_spec(s: Seq<SolverStatus>) -> SolverStatus {
    if s.len() == 0 {
        SolverStatus::Unknown
    } else if forall|i: int| 0 <= i < s.len() ==> s[i] == SolverStatus::Optimal {
        SolverStatus::Optimal
    } else if has_status(s, SolverStatus::Infeasible) && has_status(s, SolverStatus::Unbounded) {
        SolverStatus::Unknown
    } else if has_status(s, SolverStatus::Infeasible) {
        SolverStatus::Infeasible
    } else if has_status(s, SolverStatus::Unbounded) {
        SolverStatus::Unbounded
    } else if has_status(s, SolverStatus::Unknown) {
        SolverStatus::Unknown
    } else if has_status(s, SolverStatus::TimeLimit) && has_status(s, SolverStatus::IterationLimit) {
        SolverStatus::Unknown
    } else if has_status(s, SolverStatus::TimeLimit) {
        SolverStatus::TimeLimit
    } else if has_status(s, SolverStatus::IterationLimit) {
        SolverStatus::IterationLimit
    } else {
        SolverStatus::Unknown
    }
}

fn contains_status(statuses: &[SolverStatus], target: SolverStatus) -> (found: bool)
    ensures
        found == has_status(statuses@, target),
{
    let mut i: usize = 0;
    while i < statuses.len()
        invariant
            i <= statuses.len(),
            forall|j: int| 0 <= j < i ==> statuses@[j] != target,
        decreases statuses.len() - i,
    {
        if statuses[i] == target {
            return true;
        }
        i = i + 1;
    }
    false
}

/// Derives a conservative overall status from the statuses of all blocks.
pub fn aggregate_block_status(statuses: &[SolverStatus]) -> (status: SolverStatus)
    ensures
        status == aggregate_spec(statuses@),
{
    if statuses.len() == 0 {
        return SolverStatus::Unknown;
    }
    let mut all_optimal = true;
    let mut i: usize = 0;
    while i < statuses.len()
        invariant
            i <= statuses.len(),
            all_optimal == (forall|j: int| 0 <= j < i ==> statuses@[j] == SolverStatus::Optimal),
        decreases statuses.len() - i,
    {
        if statuses[i] != SolverStatus::Optimal {
            all_optimal = false;
        }
        i = i + 1;
    }
    if all_optimal {
        return SolverStatus::Optimal;
    }
    let has_infeasible = contains_status(statuses, SolverStatus::Infeasible);
    let has_unbounded = contains_status(statuses, SolverStatus::Unbounded);
    if has_infeasible && has_unbounded {
        return SolverStatus::Unknown;
    }
    if has_infeasible {
        return SolverStatus::Infeasible;
    }
    if has_unbounded {
        return SolverStatus::Unbounded;
    }
    if contains_status(statuses, SolverStatus::Unknown) {
        return SolverStatus::Unknown;
    }
    let has_time_limit = contains_status(statuses, SolverStatus::TimeLimit);
    let has_iteration_limit = contains_status(statuses, SolverStatus::IterationLimit);
    if has_time_limit && has_iteration_limit {
        SolverStatus::Unknown
    } else if has_time_limit {
        SolverStatus::TimeLimit
    } else if has_iteration_limit {
        SolverStatus::IterationLimit
    } else {
        SolverStatus::Unknown
    }
}


/// Status of a solve result as Python sees it.
#[derive(Debug, Clone, Copy, PartialEq, Eq, Structural)]
pub enum SolutionStatus {
    Optimal,
    Infeasible,
    Unbounded,
    TimeLimit,
    Error,
}

pub open spec fn solution_status_spec(status: SolverStatus) -> SolutionStatus {
    match status {
        SolverStatus::Optimal => SolutionStatus::Optimal,
        SolverStatus::Infeasible => SolutionStatus::Infeasible,
        SolverStatus::Unbounded => SolutionStatus::Unbounded,
        SolverStatus::TimeLimit => SolutionStatus::TimeLimit,
        SolverStatus::IterationLimit => SolutionStatus::TimeLimit,
        SolverStatus::Unknown => SolutionStatus::Error,
    }
}

/// The status exposed to Python for a solver status: iteration limits count
/// as time limits, unknown outcomes as errors.
pub fn solution_status(status: SolverStatus) -> (r: SolutionStatus)
    ensures
        r == solution_status_spec(status),
{
    match status {
        SolverStatus::Optimal => SolutionStatus::Optimal,
        SolverStatus::Infeasible => SolutionStatus::Infeasible,
        SolverStatus::Unbounded => SolutionStatus::Unbounded,
        SolverStatus::TimeLimit => SolutionStatus::TimeLimit,
        SolverStatus::IterationLimit => SolutionStatus::TimeLimit,
        SolverStatus::Unknown => SolutionStatus::Error,
    }
}

pub open spec fn status_label_spec(status: SolverStatus) -> Seq<char> {
    match status {
        SolverStatus::Optimal => "OPTIMAL"@,
        SolverStatus::Infeasible => "INFEASIBLE"@,
        SolverStatus::Unbounded => "UNBOUNDED"@,
        SolverStatus::TimeLimit => "TIME_LIMIT"@,
        SolverStatus::IterationLimit => "ITERATION_LIMIT"@,
        SolverStatus::Unknown => "ERROR"@,
    }
}

/// The label a solution summary prints for a status.
pub fn status_label(status: SolverStatus) -> (label: &'static str)
    ensures
        label@ == status_label_spec(status),
{
    match status {
        SolverStatus::Optimal => "OPTIMAL",
        SolverStatus::Infeasible => "INFEASIBLE",
        SolverStatus::Unbounded => "UNBOUNDED",
        SolverStatus::TimeLimit => "TIME_LIMIT",
        SolverStatus::IterationLimit => "ITERATION_LIMIT",
        SolverStatus::Unknown => "ERROR",
    }
}

/// Which artifacts of a composed run are kept.
#[derive(Debug, Clone, Copy, PartialEq, Eq, Structural)]
pub enum DropPolicy {
    KeepModel,
    KeepSummary,
    DropAll,
}

pub open spec fn drop_policy_name_spec(policy: DropPolicy) -> Seq<char> {
    match policy {
        DropPolicy::KeepModel => "model"@,
        DropPolicy::KeepSummary => "summary"@,
        DropPolicy::DropAll => "none"@,
    }
}

pub open spec fn parse_drop_policy_spec(text: Seq<char>) -> Option<DropPolicy> {
    if text == "model"@ {
        Some(DropPolicy::KeepModel)
    } else if text == "summary"@ {
        Some(DropPolicy::KeepSummary)
    } else if text == "none"@ {
        Some(DropPolicy::DropAll)
    } else {
        None
    }
}

/// Reads an artifact policy name (`model`, `summary` or `none`); any other
/// text is an unknown policy and is handed back as the error.
pub fn parse_drop_policy(text: &str) -> (r: Result<DropPolicy, &str>)
    ensures
        match parse_drop_policy_spec(text@) {
            Some(policy) => r == Ok::<DropPolicy, &str>(policy),
            None => r matches Err(e) && e@ == text@,
        },
{
    if str_eq(text, "model") {
        Ok(DropPolicy::KeepModel)
    } else if str_eq(text, "summary") {
        Ok(DropPolicy::KeepSummary)
    } else if str_eq(text, "none") {
        Ok(DropPolicy::DropAll)
    } else {
        Err(text)
    }
}

/// The name under which a policy is written.
pub fn drop_policy_name(policy: DropPolicy) -> (name: &'static str)
    ensures
        name@ == drop_policy_name_spec(policy),
{
    match policy {
        DropPolicy::KeepModel => "model",
        DropPolicy::KeepSummary => "summary",
        DropPolicy::DropAll => "none",
    }
}

/// Which bound of a constraint a slack relaxes.
#[derive(Debug, Clone, Copy, PartialEq, Eq, Structural)]
pub enum SlackBound {
    Lower,
    Upper,
    Both,
}

pub open spec fn slack_bound_name_spec(bound: SlackBound) -> Seq<char> {
    match bound {
        SlackBound::Lower => "lower"@,
        SlackBound::Upper => "upper"@,
        SlackBound::Both => "both"@,
    }
}

pub open spec fn parse_slack_bound_spec(text: Seq<char>) -> Option<SlackBound> {
    if text == "lower"@ {
        Some(SlackBound::Lower)
    } else if text == "upper"@ {
        Some(SlackBound::Upper)
    } else if text == "both"@ {
        Some(SlackBound::Both)
    } else {
        None
    }
}

/// Reads a slack bound name (`lower`, `upper` or `both`); any other text is
/// handed back as the error.
pub fn parse_slack_bound(text: &str) -> (r: Result<SlackBound, &str>)
    ensures
        match parse_slack_bound_spec(text@) {
            Some(bound) => r == Ok::<SlackBound, &str>(bound),
            None => r matches Err(e) && e@ == text@,
        },
{
    if str_eq(text, "lower") {
        Ok(SlackBound::Lower)
    } else if str_eq(text, "upper") {
        Ok(SlackBound::Upper)
    } else if str_eq(text, "both") {
        Ok(SlackBound::Both)
    } else {
        Err(text)
    }
}

/// The name of a slack bound.
pub fn slack_bound_name(bound: SlackBound) -> (name: &'static str)
    ensures
        name@ == slack_bound_name_spec(bound),
{
    match bound {
        SlackBound::Lower => "lower",
        SlackBound::Upper => "upper",
        SlackBound::Both => "both",
    }
}

// ----- laws -----

/// The overall status depends only on which statuses occur, not on their
/// order or how often they occur.
pub proof fn lemma_aggregate_depends_on_occurring_statuses(s1: Seq<SolverStatus>, s2: Seq<SolverStatus>)
    requires
        s1.len() > 0 <==> s2.len() > 0,
        forall|st: SolverStatus| has_status(s1, st) <==> has_status(s2, st),
    ensures
        aggregate_spec(s1) == aggregate_spec(s2),
{
    if s1.len() > 0 {
        let all1 = forall|i: int| 0 <= i < s1.len() ==> s1[i] == SolverStatus::Optimal;
        let all2 = forall|i: int| 0 <= i < s2.len() ==> s2[i] == SolverStatus::Optimal;
        assert(all1 <==> all2) by {
            if all1 && !all2 {
                let i = choose|i: int| 0 <= i < s2.len() && s2[i] != SolverStatus::Optimal;
                assert(has_status(s2, s2[i]));
                let k = choose|k: int| 0 <= k < s1.len() && s1[k] == s2[i];
            }
            if all2 && !all1 {
                let i = choose|i: int| 0 <= i < s1.len() && s1[i] != SolverStatus::Optimal;
                assert(has_status(s1, s1[i]));
                let k = choose|k: int| 0 <= k < s2.len() && s2[k] == s1[i];
            }
        }
    }
}

/// A single block's status is reported unchanged.
pub proof fn lemma_aggregate_single(st: SolverStatus)
    ensures
        aggregate_spec(seq![st]) == st,
{
    let s = seq![st];
    assert(s[0] == st);
    assert(has_status(s, st));
    assert forall|other: SolverStatus| has_status(s, other) implies other == st by {
        let k = choose|k: int| 0 <= k < s.len() && s[k] == other;
        assert(k == 0);
    }
}

/// The overall status is optimal exactly when there are blocks and every
/// block is optimal.
pub proof fn lemma_aggregate_optimal_iff_all_optimal(s: Seq<SolverStatus>)
    ensures
        aggregate_spec(s) == SolverStatus::Optimal <==> (s.len() > 0 && forall|i: int|
            0 <= i < s.len() ==> s[i] == SolverStatus::Optimal),
{
}

/// An infeasible block makes the whole run infeasible unless another block
/// is unbounded, whatever limits the other blocks hit.
pub proof fn lemma_aggregate_infeasible_dominates(s: Seq<SolverStatus>)
    requires
        has_status(s, SolverStatus::Infeasible),
        !has_status(s, SolverStatus::Unbounded),
    ensures
        aggregate_spec(s) == SolverStatus::Infeasible,
{
    let i = choose|i: int| 0 <= i < s.len() && s[i] == SolverStatus::Infeasible;
    assert(s[i] != SolverStatus::Optimal);
}

/// Blocks that are already optimal never change the overall status of the others.
pub proof fn lemma_aggregate_ignores_optimal_blocks(s: Seq<SolverStatus>)
    requires
        s.len() > 0,
        exists|i: int| 0 <= i < s.len() && s[i] != SolverStatus::Optimal,
    ensures
        aggregate_spec(s.push(SolverStatus::Optimal)) == aggregate_spec(s),
{
    let t = s.push(SolverStatus::Optimal);
    assert forall|st: SolverStatus| st != SolverStatus::Optimal implies has_status(t, st)
        <==> has_status(s, st) by {
        if has_status(t, st) {
            let k = choose|k: int| 0 <= k < t.len() && t[k] == st;
            assert(k < s.len());
            assert(s[k] == st);
        }
        if has_status(s, st) {
            let k = choose|k: int| 0 <= k < s.len() && s[k] == st;
            assert(t[k] == st);
        }
    }
    let i = choose|i: int| 0 <= i < s.len() && s[i] != SolverStatus::Optimal;
    assert(t[i] != SolverStatus::Optimal);
}


/// Every policy name reads back as the policy it names.
pub proof fn lemma_drop_policy_roundtrip(policy: DropPolicy)
    ensures
        parse_drop_policy_spec(drop_policy_name_spec(policy)) == Some(policy),
{
    reveal_strlit("model");
    reveal_strlit("summary");
    reveal_strlit("none");
    assert("model"@[0] == 'm' && "summary"@[0] == 's' && "none"@[0] == 'n');
}

/// Every slack bound name reads back as the bound it names.
pub proof fn lemma_slack_bound_roundtrip(bound: SlackBound)
    ensures
        parse_slack_bound_spec(slack_bound_name_spec(bound)) == Some(bound),
{
    reveal_strlit("lower");
    reveal_strlit("upper");
    reveal_strlit("both");
    assert("lower"@[0] == 'l' && "upper"@[0] == 'u' && "both"@[0] == 'b');
}

/// A block that stopped unbounded makes the whole run unbounded unless
/// another block is infeasible, whatever limits the other blocks hit.
pub proof fn lemma_aggregate_unbounded_dominates(s: Seq<SolverStatus>)
    requires
        exists|i: int| 0 <= i < s.len() && s[i] == SolverStatus::Unbounded,
        forall|i: int| 0 <= i < s.len() ==> s[i] != SolverStatus::Infeasible,
    ensures
        aggregate_spec(s) == SolverStatus::Unbounded,
{
    let i = choose|i: int| 0 <= i < s.len() && s[i] == SolverStatus::Unbounded;
    assert(s[i] != SolverStatus::Optimal);
    assert(has_status(s, SolverStatus::Unbounded));
}

/// An infeasible block together with an unbounded one leave the run
/// undecided.
pub proof fn lemma_aggregate_infeasible_and_unbounded(s: Seq<SolverStatus>)
    requires
        exists|i: int| 0 <= i < s.len() && s[i] == SolverStatus::Infeasible,
        exists|i: int| 0 <= i < s.len() && s[i] == SolverStatus::Unbounded,
    ensures
        aggregate_spec(s) == SolverStatus::Unknown,
{
    let i = choose|i: int| 0 <= i < s.len() && s[i] == SolverStatus::Infeasible;
    let j = choose|j: int| 0 <= j < s.len() && s[j] == SolverStatus::Unbounded;
    assert(s[i] != SolverStatus::Optimal);
    assert(has_status(s, SolverStatus::Infeasible) && has_status(s, SolverStatus::Unbounded));
}

/// Without an infeasible or unbounded block, a block of unknown outcome
/// leaves the run unknown, whatever limits the others hit.
pub proof fn lemma_aggregate_unknown_before_limits(s: Seq<SolverStatus>)
    requires
        exists|i: int| 0 <= i < s.len() && s[i] == SolverStatus::Unknown,
        forall|i: int|
            0 <= i < s.len() ==> s[i] != SolverStatus::Infeasible && s[i] != SolverStatus::Unbounded,
    ensures
        aggregate_spec(s) == SolverStatus::Unknown,
{
    let i = choose|i: int| 0 <= i < s.len() && s[i] == SolverStatus::Unknown;
    assert(s[i] != SolverStatus::Optimal);
}

/// When every block is optimal or stopped at one kind of limit, and some
/// block did stop at it, the run reports that limit; blocks stopped at
/// both kinds of limit leave it unknown.
pub proof fn lemma_aggregate_limits(s: Seq<SolverStatus>)
    requires
        forall|i: int|
            0 <= i < s.len() ==> s[i] == SolverStatus::Optimal || s[i] == SolverStatus::TimeLimit
                || s[i] == SolverStatus::IterationLimit,
    ensures
        (exists|i: int| 0 <= i < s.len() && s[i] == SolverStatus::TimeLimit) && (forall|i: int|
            0 <= i < s.len() ==> s[i] != SolverStatus::IterationLimit) ==> aggregate_spec(s)
            == SolverStatus::TimeLimit,
        (exists|i: int| 0 <= i < s.len() && s[i] == SolverStatus::IterationLimit) && (forall|i: int|
            0 <= i < s.len() ==> s[i] != SolverStatus::TimeLimit) ==> aggregate_spec(s)
            == SolverStatus::IterationLimit,
        (exists|i: int| 0 <= i < s.len() && s[i] == SolverStatus::TimeLimit) && (exists|i: int|
            0 <= i < s.len() && s[i] == SolverStatus::IterationLimit) ==> aggregate_spec(s)
            == SolverStatus::Unknown,
{
    if exists|i: int| 0 <= i < s.len() && s[i] == SolverStatus::TimeLimit {
        let i = choose|i: int| 0 <= i < s.len() && s[i] == SolverStatus::TimeLimit;
        assert(s[i] != SolverStatus::Optimal);
        assert(has_status(s, SolverStatus::TimeLimit));
    }
    if exists|i: int| 0 <= i < s.len() && s[i] == SolverStatus::IterationLimit {
        let i = choose|i: int| 0 <= i < s.len() && s[i] == SolverStatus::IterationLimit;
        assert(s[i] != SolverStatus::Optimal);
        assert(has_status(s, SolverStatus::IterationLimit));
    }
}

/// A run of no blocks has no known outcome.
pub proof fn lemma_aggregate_empty()
    ensures
        aggregate_spec(Seq::<SolverStatus>::empty()) == SolverStatus::Unknown,
{
}

/// Exactly `lower`, `upper` and `both` are slack bounds, each naming the
/// bound it spells, and each bound is named by that word.
pub proof fn lemma_slack_bound_words(text: Seq<char>, bound: SlackBound)
    ensures
        parse_slack_bound_spec(text) == Some(SlackBound::Lower) <==> text == "lower"@,
        parse_slack_bound_spec(text) == Some(SlackBound::Upper) <==> text == "upper"@,
        parse_slack_bound_spec(text) == Some(SlackBound::Both) <==> text == "both"@,
        parse_slack_bound_spec(text) is None <==> (text != "lower"@ && text != "upper"@ && text
            != "both"@),
        slack_bound_name_spec(bound) == "lower"@ <==> bound == SlackBound::Lower,
        slack_bound_name_spec(bound) == "upper"@ <==> bound == SlackBound::Upper,
        slack_bound_name_spec(bound) == "both"@ <==> bound == SlackBound::Both,
{
    reveal_strlit("lower");
    reveal_strlit("upper");
    reveal_strlit("both");
    assert("lower"@[0] == 'l' && "upper"@[0] == 'u' && "both"@[0] == 'b');
}

/// Exactly `model`, `summary` and `none` are drop policies: `model` keeps
/// the model, `summary` keeps the summary, `none` drops everything; each
/// policy is named by that word.
pub proof fn lemma_drop_policy_words(text: Seq<char>, policy: DropPolicy)
    ensures
        parse_drop_policy_spec(text) == Some(DropPolicy::KeepModel) <==> text == "model"@,
        parse_drop_policy_spec(text) == Some(DropPolicy::KeepSummary) <==> text == "summary"@,
        parse_drop_policy_spec(text) == Some(DropPolicy::DropAll) <==> text == "none"@,
        parse_drop_policy_spec(text) is None <==> (text != "model"@ && text != "summary"@ && text
            != "none"@),
        drop_policy_name_spec(policy) == "model"@ <==> policy == DropPolicy::KeepModel,
        drop_policy_name_spec(policy) == "summary"@ <==> policy == DropPolicy::KeepSummary,
        drop_policy_name_spec(policy) == "none"@ <==> policy == DropPolicy::DropAll,
{
    reveal_strlit("model");
    reveal_strlit("summary");
    reveal_strlit("none");
    assert("model"@[0] == 'm' && "summary"@[0] == 's' && "none"@[0] == 'n');
}

/// Each status is printed as its own name, an unknown outcome as `ERROR`,
/// and no two statuses share a label.
pub proof fn lemma_status_labels(status: SolverStatus)
    ensures
        status_label_spec(status) == "OPTIMAL"@ <==> status == SolverStatus::Optimal,
        status_label_spec(status) == "INFEASIBLE"@ <==> status == SolverStatus::Infeasible,
        status_label_spec(status) == "UNBOUNDED"@ <==> status == SolverStatus::Unbounded,
        status_label_spec(status) == "TIME_LIMIT"@ <==> status == SolverStatus::TimeLimit,
        status_label_spec(status) == "ITERATION_LIMIT"@ <==> status == SolverStatus::IterationLimit,
        status_label_spec(status) == "ERROR"@ <==> status == SolverStatus::Unknown,
{
    reveal_strlit("OPTIMAL");
    reveal_strlit("INFEASIBLE");
    reveal_strlit("UNBOUNDED");
    reveal_strlit("TIME_LIMIT");
    reveal_strlit("ITERATION_LIMIT");
    reveal_strlit("ERROR");
    assert("OPTIMAL"@[0] == 'O' && "INFEASIBLE"@[0] == 'I' && "UNBOUNDED"@[0] == 'U'
        && "TIME_LIMIT"@[0] == 'T' && "ITERATION_LIMIT"@[1] == 'T' && "ERROR"@[0] == 'E');
    assert("INFEASIBLE"@[1] == 'N');
}

/// The status seen from Python keeps each outcome, except that both kinds
/// of limit read as a time limit and an unknown outcome as an error.
pub proof fn lemma_solution_status_outcomes(status: SolverStatus)
    ensures
        solution_status_spec(status) == SolutionStatus::Optimal <==> status == SolverStatus::Optimal,
        solution_status_spec(status) == SolutionStatus::Infeasible <==> status
            == SolverStatus::Infeasible,
        solution_status_spec(status) == SolutionStatus::Unbounded <==> status
            == SolverStatus::Unbounded,
        solution_status_spec(status) == SolutionStatus::TimeLimit <==> (status
            == SolverStatus::TimeLimit || status == SolverStatus::IterationLimit),
        solution_status_spec(status) == SolutionStatus::Error <==> status == SolverStatus::Unknown,
{
}

} // verus!
