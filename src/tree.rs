use vstd::prelude::*;

verus! {

/// A single call of the operation tree.
#[derive(Debug, PartialEq, Eq)]
pub struct Exec {
    /// The argument handed to the callee: whether the call should fail.
    pub fail: bool,
    /// Whether the enclosing scope carries on when this call fails.
    pub allow_fail: bool,
}

/// A nested batch: its children run as one call to the executor.
#[derive(Debug, PartialEq, Eq)]
pub struct Batch {
    pub execs: Vec<ExecBoxed>,
    /// Whether the enclosing scope carries on when this batch fails.
    pub allow_fail: bool,
}

/// A node of the operation tree.
#[derive(Debug, PartialEq, Eq)]
pub enum ExecBoxed {
    Batch(Batch),
    Exec(Exec),
}

/// What became of one node.
#[derive(Clone, Copy, Debug, PartialEq, Eq, Structural)]
pub enum ExecResult {
    Success,
    Failure,
    SuccessButReverted,
    Skipped,
}

/// The outcome of a single call.
#[derive(Debug, PartialEq, Eq)]
pub struct ExecWithResult {
    pub fail: bool,
    pub allow_fail: bool,
    pub exec_result: ExecResult,
}

/// The outcome of a batch and of each of its children.
#[derive(Debug, PartialEq, Eq)]
pub struct BatchWithResult {
    pub execs: Vec<BoxedWithResult>,
    pub allow_fail: bool,
    pub exec_result: ExecResult,
}

/// A node of the outcome tree, mirroring a node of the operation tree.
#[derive(Debug, PartialEq, Eq)]
pub enum BoxedWithResult {
    BatchResult(BatchWithResult),
    ExecResult(ExecWithResult),
}

/// Mathematical model of an outcome tree.
pub enum Outcome {
    Batch { children: Seq<Outcome>, allow_fail: bool, result: ExecResult },
    Exec { fail: bool, allow_fail: bool, result: ExecResult },
}

impl Outcome {
    pub open spec fn result(self) -> ExecResult {
        match self {
            Outcome::Batch { result, .. } => result,
            Outcome::Exec { result, .. } => result,
        }
    }
}

/// The model of one outcome node.
pub open spec fn outcome_of(n: BoxedWithResult) -> Outcome
    decreases n, 0nat,
{
    match n {
        BoxedWithResult::BatchResult(batch_result) => Outcome::Batch {
            children: outcomes_of(batch_result.execs@),
            allow_fail: batch_result.allow_fail,
            result: batch_result.exec_result,
        },
        BoxedWithResult::ExecResult(exec_result) => Outcome::Exec {
            fail: exec_result.fail,
            allow_fail: exec_result.allow_fail,
            result: exec_result.exec_result,
        },
    }
}

/// The model of a list of outcome nodes.
pub open spec fn outcomes_of(s: Seq<BoxedWithResult>) -> Seq<Outcome>
    decreases s, s.len(),
{
    if s.len() == 0 {
        Seq::empty()
    } else {
        outcomes_of(s.subrange(0, s.len() - 1)).push(outcome_of(s[s.len() - 1]))
    }
}

} // verus!

verus! {

/// Number of nodes in a subtree, the node itself included.
pub open spec fn node_size(n: ExecBoxed) -> nat
    decreases n, 0nat,
{
    match n {
        ExecBoxed::Batch(batch) => 1 + list_size(batch.execs@),
        ExecBoxed::Exec(_) => 1,
    }
}

/// Number of nodes in a list of subtrees.
pub open spec fn list_size(s: Seq<ExecBoxed>) -> nat
    decreases s, s.len(),
{
    if s.len() == 0 {
        0
    } else {
        list_size(s.subrange(0, s.len() - 1)) + node_size(s[s.len() - 1])
    }
}

pub proof fn lemma_list_size_prefix(s: Seq<ExecBoxed>, k: int)
    requires
        0 <= k < s.len(),
    ensures
        list_size(s.subrange(0, k + 1)) == list_size(s.subrange(0, k)) + node_size(s[k]),
        list_size(s.subrange(0, k + 1)) <= list_size(s),
    decreases s.len() - k,
{
    assert(s.subrange(0, k + 1).subrange(0, k) =~= s.subrange(0, k));
    if k + 1 < s.len() {
        lemma_list_size_prefix(s, k + 1);
    } else {
        assert(s.subrange(0, k + 1) =~= s);
    }
}

} // verus!

verus! {

pub proof fn lemma_outcomes_push(s: Seq<BoxedWithResult>, x: BoxedWithResult)
    ensures
        outcomes_of(s.push(x)) == outcomes_of(s).push(outcome_of(x)),
{
    assert(s.push(x).subrange(0, s.len() as int) =~= s);
}

} // verus!

verus! {

/// The demonstration tree: one batch that tolerates failure, holding a call
/// that must succeed, a failing call that may fail, and a call that may fail.
pub fn get_exec_tree() -> (r: Vec<ExecBoxed>)
    ensures
        r.len() == 1,
        r@[0] matches ExecBoxed::Batch(b) && {
            &&& b.allow_fail
            &&& b.execs.len() == 3
            &&& b.execs@[0] matches ExecBoxed::Exec(e) && !e.fail && !e.allow_fail
            &&& b.execs@[1] matches ExecBoxed::Exec(e) && e.fail && e.allow_fail
            &&& b.execs@[2] matches ExecBoxed::Exec(e) && !e.fail && e.allow_fail
        },
{
    let execs = vec![
        ExecBoxed::Exec(Exec { fail: false, allow_fail: false }),
        ExecBoxed::Exec(Exec { fail: true, allow_fail: true }),
        ExecBoxed::Exec(Exec { fail: false, allow_fail: true }),
    ];
    vec![ExecBoxed::Batch(Batch { execs, allow_fail: true })]
}

} // verus!
