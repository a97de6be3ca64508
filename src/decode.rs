use vstd::prelude::*;
use crate::bitmap::{Bitmap, Signal};
use crate::tree::{
    lemma_list_size_prefix, lemma_outcomes_push, list_size, outcome_of, outcomes_of,
    BatchWithResult, BoxedWithResult, ExecBoxed, ExecResult, ExecWithResult, Outcome,
};

verus! {

/// Whether the node read at cursor `i` failed: its bit (counted from the
/// most significant end) is set, or execution stopped at `i`.
pub open spec fn failed_at(bitmap: Bitmap, counter: int, i: int) -> bool {
    bitmap.spec_bit(255 - i) || i == counter
}

/// The result of a node, from whether it failed, whether its scope had
/// already reverted before it, and whether its scope has reverted after it.
pub open spec fn result_of(failed: bool, skip: bool, reverted: bool) -> ExecResult {
    if reverted && !skip {
        ExecResult::Failure
    } else if reverted {
        ExecResult::Skipped
    } else if failed {
        ExecResult::Failure
    } else {
        ExecResult::Success
    }
}

/// The result of a node after its scope was rolled back: a success is
/// undone, every other result stays.
pub open spec fn rolled_back(r: ExecResult) -> ExecResult {
    match r {
        ExecResult::Success => ExecResult::SuccessButReverted,
        _ => r,
    }
}

/// The outcome of a node that was never reached: it and every node below
/// it are `Skipped`.
pub open spec fn skipped_node(n: ExecBoxed) -> Outcome
    decreases n, 0nat,
{
    match n {
        ExecBoxed::Batch(batch) => Outcome::Batch {
            children: skipped_all(batch.execs@),
            allow_fail: batch.allow_fail,
            result: ExecResult::Skipped,
        },
        ExecBoxed::Exec(e) => Outcome::Exec {
            fail: e.fail,
            allow_fail: e.allow_fail,
            result: ExecResult::Skipped,
        },
    }
}

/// The outcomes of a list of nodes that were never reached.
pub open spec fn skipped_all(s: Seq<ExecBoxed>) -> Seq<Outcome>
    decreases s, s.len(),
{
    if s.len() == 0 {
        Seq::empty()
    } else {
        skipped_all(s.subrange(0, s.len() - 1)).push(skipped_node(s[s.len() - 1]))
    }
}

pub open spec fn roll_back_node(o: Outcome) -> Outcome
    decreases o, 0nat,
{
    match o {
        Outcome::Batch { children, allow_fail, result } => Outcome::Batch {
            children: roll_back_all(children),
            allow_fail,
            result: rolled_back(result),
        },
        Outcome::Exec { fail, allow_fail, result } => Outcome::Exec {
            fail,
            allow_fail,
            result: rolled_back(result),
        },
    }
}

/// Every outcome of a list, and of the lists nested in it, rolled back.
pub open spec fn roll_back_all(s: Seq<Outcome>) -> Seq<Outcome>
    decreases s, s.len(),
{
    if s.len() == 0 {
        Seq::empty()
    } else {
        roll_back_all(s.subrange(0, s.len() - 1)).push(roll_back_node(s[s.len() - 1]))
    }
}

/// Decodes one node at cursor `i` in a scope whose revert latch is
/// `reverted`: its outcome, the next cursor and the new latch.
pub open spec fn decode_node(n: ExecBoxed, counter: int, bitmap: Bitmap, i: int, reverted: bool) -> (
    Outcome,
    int,
    bool,
)
    decreases n, 0nat,
{
    match n {
        ExecBoxed::Batch(batch) => {
            if reverted {
                (skipped_node(n), i, true)
            } else {
                let (children, after) = decode_list(batch.execs@, counter, bitmap, i);
                let failed = failed_at(bitmap, counter, after);
                let latch = failed && !batch.allow_fail;
                (
                    Outcome::Batch {
                        children,
                        allow_fail: batch.allow_fail,
                        result: result_of(failed, false, latch),
                    },
                    after + 1,
                    latch,
                )
            }
        },
        ExecBoxed::Exec(e) => {
            let failed = failed_at(bitmap, counter, i);
            let next = if reverted { i } else { i + 1 };
            let latch = reverted || (failed && !e.allow_fail);
            (
                Outcome::Exec {
                    fail: e.fail,
                    allow_fail: e.allow_fail,
                    result: result_of(failed, reverted, latch),
                },
                next,
                latch,
            )
        },
    }
}

/// Decodes a sibling list from cursor `start` with a fresh latch, before
/// any roll-back: the outcomes, the final cursor and the final latch.
pub open spec fn decode_seq(s: Seq<ExecBoxed>, counter: int, bitmap: Bitmap, start: int) -> (
    Seq<Outcome>,
    int,
    bool,
)
    decreases s, 0nat,
{
    if s.len() == 0 {
        (Seq::empty(), start, false)
    } else {
        let (outs, i, reverted) = decode_seq(s.subrange(0, s.len() - 1), counter, bitmap, start);
        let (o, next, latch) = decode_node(s[s.len() - 1], counter, bitmap, i, reverted);
        (outs.push(o), next, latch)
    }
}

/// Decodes a sibling list from cursor `start`: the outcomes, rolled back
/// where the list's latch ended set, and the final cursor.
pub open spec fn decode_list(s: Seq<ExecBoxed>, counter: int, bitmap: Bitmap, start: int) -> (
    Seq<Outcome>,
    int,
)
    decreases s, 1nat,
{
    let (outs, i, reverted) = decode_seq(s, counter, bitmap, start);
    (if reverted { roll_back_all(outs) } else { outs }, i)
}

} // verus!

verus! {

pub proof fn lemma_roll_back_push(s: Seq<Outcome>, x: Outcome)
    ensures
        roll_back_all(s.push(x)) == roll_back_all(s).push(roll_back_node(x)),
{
    assert(s.push(x).subrange(0, s.len() as int) =~= s);
}

pub proof fn lemma_decode_seq_step(s: Seq<ExecBoxed>, counter: int, bitmap: Bitmap, start: int, k: int)
    requires
        0 <= k < s.len(),
    ensures
        ({
            let (outs, i, reverted) = decode_seq(s.subrange(0, k), counter, bitmap, start);
            let (o, next, latch) = decode_node(s[k], counter, bitmap, i, reverted);
            decode_seq(s.subrange(0, k + 1), counter, bitmap, start) == (outs.push(o), next, latch)
        }),
{
    assert(s.subrange(0, k + 1).subrange(0, k) =~= s.subrange(0, k));
}

fn result_for(failed: bool, skip: bool, reverted: bool) -> (r: ExecResult)
    ensures
        r == result_of(failed, skip, reverted),
{
    if reverted && !skip {
        ExecResult::Failure
    } else if reverted {
        ExecResult::Skipped
    } else if failed {
        ExecResult::Failure
    } else {
        ExecResult::Success
    }
}

fn roll_back_result(r: ExecResult) -> (o: ExecResult)
    ensures
        o == rolled_back(r),
{
    match r {
        ExecResult::Success => ExecResult::SuccessButReverted,
        _ => r,
    }
}

proof fn lemma_skipped_push(s: Seq<ExecBoxed>, x: ExecBoxed)
    ensures
        skipped_all(s.push(x)) == skipped_all(s).push(skipped_node(x)),
{
    assert(s.push(x).subrange(0, s.len() as int) =~= s);
}

/// The outcomes of nodes that were never reached: every node, at any depth,
/// is `Skipped`.
pub fn skip_all(execs: &Vec<ExecBoxed>) -> (r: Vec<BoxedWithResult>)
    ensures
        outcomes_of(r@) == skipped_all(execs@),
    decreases execs@,
{
    let mut out: Vec<BoxedWithResult> = Vec::new();
    let mut k: usize = 0;
    while k < execs.len()
        invariant
            0 <= k <= execs.len(),
            outcomes_of(out@) == skipped_all(execs@.subrange(0, k as int)),
        decreases execs.len() - k,
    {
        let node = match &execs[k] {
            ExecBoxed::Batch(batch) => BoxedWithResult::BatchResult(
                BatchWithResult {
                    execs: skip_all(&batch.execs),
                    allow_fail: batch.allow_fail,
                    exec_result: ExecResult::Skipped,
                },
            ),
            ExecBoxed::Exec(e) => BoxedWithResult::ExecResult(
                ExecWithResult {
                    fail: e.fail,
                    allow_fail: e.allow_fail,
                    exec_result: ExecResult::Skipped,
                },
            ),
        };
        proof {
            let pre = execs@.subrange(0, k as int);
            assert(execs@.subrange(0, k + 1) =~= pre.push(execs@[k as int]));
            lemma_skipped_push(pre, execs@[k as int]);
            lemma_outcomes_push(out@, node);
        }
        out.push(node);
        k += 1;
    }
    proof {
        assert(execs@.subrange(0, execs.len() as int) =~= execs@);
    }
    out
}

/// Rolls back a list of outcomes: every `Success`, at any depth, becomes
/// `SuccessButReverted`; `Skipped` and `Failure` stay.
pub fn set_failed(results: &Vec<BoxedWithResult>) -> (r: Vec<BoxedWithResult>)
    ensures
        outcomes_of(r@) == roll_back_all(outcomes_of(results@)),
    decreases results@,
{
    let mut out: Vec<BoxedWithResult> = Vec::new();
    let mut k: usize = 0;
    while k < results.len()
        invariant
            0 <= k <= results.len(),
            outcomes_of(out@) == roll_back_all(outcomes_of(results@.subrange(0, k as int))),
        decreases results.len() - k,
    {
        let node = match &results[k] {
            BoxedWithResult::BatchResult(b) => BoxedWithResult::BatchResult(
                BatchWithResult {
                    execs: set_failed(&b.execs),
                    allow_fail: b.allow_fail,
                    exec_result: roll_back_result(b.exec_result),
                },
            ),
            BoxedWithResult::ExecResult(e) => BoxedWithResult::ExecResult(
                ExecWithResult {
                    fail: e.fail,
                    allow_fail: e.allow_fail,
                    exec_result: roll_back_result(e.exec_result),
                },
            ),
        };
        proof {
            let pre = results@.subrange(0, k as int);
            assert(results@.subrange(0, k + 1) =~= pre.push(results@[k as int]));
            lemma_outcomes_push(pre, results@[k as int]);
            lemma_roll_back_push(outcomes_of(pre), outcome_of(results@[k as int]));
            lemma_outcomes_push(out@, node);
        }
        out.push(node);
        k += 1;
    }
    proof {
        assert(results@.subrange(0, results.len() as int) =~= results@);
    }
    out
}

/// Decodes the outcome of every node of `execs` from the execution counter
/// and the bitmap, with the cursor starting at `i`; returns the outcomes and
/// the cursor after the list.
pub fn decode_bitmap(execs: &Vec<ExecBoxed>, counter: u16, bitmap: &Bitmap, i: u16) -> (r: (
    Vec<BoxedWithResult>,
    u16,
))
    requires
        i + list_size(execs@) <= 256,
    ensures
        outcomes_of(r.0@) == decode_list(execs@, counter as int, *bitmap, i as int).0,
        r.1 as int == decode_list(execs@, counter as int, *bitmap, i as int).1,
        i <= r.1 <= i + list_size(execs@),
    decreases execs@,
{
    let mut outs: Vec<BoxedWithResult> = Vec::new();
    let mut cursor: u16 = i;
    let mut reverted: bool = false;
    let mut k: usize = 0;
    while k < execs.len()
        invariant
            0 <= k <= execs.len(),
            i + list_size(execs@) <= 256,
            (outcomes_of(outs@), cursor as int, reverted) == decode_seq(
                execs@.subrange(0, k as int),
                counter as int,
                *bitmap,
                i as int,
            ),
            i <= cursor <= i + list_size(execs@.subrange(0, k as int)),
        decreases execs.len() - k,
    {
        proof {
            lemma_list_size_prefix(execs@, k as int);
            lemma_decode_seq_step(execs@, counter as int, *bitmap, i as int, k as int);
        }
        let skip = reverted;
        let node = match &execs[k] {
            ExecBoxed::Batch(batch) => {
                if skip {
                    BoxedWithResult::BatchResult(
                        BatchWithResult {
                            execs: skip_all(&batch.execs),
                            allow_fail: batch.allow_fail,
                            exec_result: ExecResult::Skipped,
                        },
                    )
                } else {
                    let (children, after) = decode_bitmap(&batch.execs, counter, bitmap, cursor);
                    let failed = bitmap.bit(255 - after) || after == counter;
                    cursor = after + 1;
                    reverted = failed && !batch.allow_fail;
                    BoxedWithResult::BatchResult(
                        BatchWithResult {
                            execs: children,
                            allow_fail: batch.allow_fail,
                            exec_result: result_for(failed, false, reverted),
                        },
                    )
                }
            },
            ExecBoxed::Exec(e) => {
                let failed = bitmap.bit(255 - cursor) || cursor == counter;
                if !skip {
                    cursor = cursor + 1;
                }
                reverted = skip || (failed && !e.allow_fail);
                BoxedWithResult::ExecResult(
                    ExecWithResult {
                        fail: e.fail,
                        allow_fail: e.allow_fail,
                        exec_result: result_for(failed, skip, reverted),
                    },
                )
            },
        };
        proof {
            lemma_outcomes_push(outs@, node);
        }
        outs.push(node);
        k += 1;
    }
    proof {
        assert(execs@.subrange(0, execs.len() as int) =~= execs@);
    }
    if reverted {
        outs = set_failed(&outs);
    }
    (outs, cursor)
}

} // verus!

verus! {

/// The number of nodes in `execs`, or `cap` where there are at least that many.
pub fn count_nodes(execs: &Vec<ExecBoxed>, cap: u16) -> (r: u16)
    ensures
        r as nat == if list_size(execs@) < cap { list_size(execs@) } else { cap as nat },
    decreases execs@,
{
    let mut total: u16 = 0;
    let mut k: usize = 0;
    while k < execs.len()
        invariant
            0 <= k <= execs.len(),
            total as nat == if list_size(execs@.subrange(0, k as int)) < cap {
                list_size(execs@.subrange(0, k as int))
            } else {
                cap as nat
            },
        decreases execs.len() - k,
    {
        proof {
            lemma_list_size_prefix(execs@, k as int);
        }
        if total == cap {
            k += 1;
            continue;
        }
        let here: u16 = match &execs[k] {
            ExecBoxed::Batch(batch) => {
                let inner = count_nodes(&batch.execs, cap);
                if inner == cap { cap } else { inner + 1 }
            },
            ExecBoxed::Exec(_) => 1,
        };
        if here >= cap - total {
            total = cap;
        } else {
            total = total + here;
        }
        k += 1;
    }
    proof {
        assert(execs@.subrange(0, execs.len() as int) =~= execs@);
    }
    total
}

/// Decodes the outcome tree of `execs` from the signal, with the cursor
/// starting at 0. `None` where the tree has more nodes than the bitmap has
/// positions.
pub fn decode_signal(execs: &Vec<ExecBoxed>, signal: &Signal) -> (r: Option<Vec<BoxedWithResult>>)
    ensures
        r is Some <==> list_size(execs@) <= 256,
        r matches Some(outs) ==> outcomes_of(outs@) == decode_list(
            execs@,
            signal.counter as int,
            signal.bitmap,
            0,
        ).0,
{
    if count_nodes(execs, 257) > 256 {
        return None;
    }
    let (outs, _) = decode_bitmap(execs, signal.counter, &signal.bitmap, 0);
    Some(outs)
}

} // verus!
