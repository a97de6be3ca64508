use vstd::prelude::*;
use crate::bitmap::Bitmap;
use crate::decode::{
    decode_list, decode_node, decode_seq, lemma_decode_seq_step, lemma_roll_back_push,
    roll_back_all, roll_back_node, skipped_all, skipped_node,
};
use crate::encode::{encode_list, encode_node};
use crate::tree::{list_size, node_size, ExecBoxed, ExecResult, Outcome};

verus! {

/// The nesting of a tree, with each node's allow-failure flag.
pub enum Shape {
    Leaf { allow_fail: bool },
    Node { children: Seq<Shape>, allow_fail: bool },
}

pub open spec fn tree_shape(n: ExecBoxed) -> Shape
    decreases n, 0nat,
{
    match n {
        ExecBoxed::Batch(batch) => Shape::Node {
            children: tree_shapes(batch.execs@),
            allow_fail: batch.allow_fail,
        },
        ExecBoxed::Exec(e) => Shape::Leaf { allow_fail: e.allow_fail },
    }
}

pub open spec fn tree_shapes(s: Seq<ExecBoxed>) -> Seq<Shape>
    decreases s, s.len(),
{
    if s.len() == 0 {
        Seq::empty()
    } else {
        tree_shapes(s.subrange(0, s.len() - 1)).push(tree_shape(s[s.len() - 1]))
    }
}

pub open spec fn outcome_shape(o: Outcome) -> Shape
    decreases o, 0nat,
{
    match o {
        Outcome::Batch { children, allow_fail, .. } => Shape::Node {
            children: outcome_shapes(children),
            allow_fail,
        },
        Outcome::Exec { allow_fail, .. } => Shape::Leaf { allow_fail },
    }
}

pub open spec fn outcome_shapes(s: Seq<Outcome>) -> Seq<Shape>
    decreases s, s.len(),
{
    if s.len() == 0 {
        Seq::empty()
    } else {
        outcome_shapes(s.subrange(0, s.len() - 1)).push(outcome_shape(s[s.len() - 1]))
    }
}

proof fn lemma_outcome_shapes_push(s: Seq<Outcome>, x: Outcome)
    ensures
        outcome_shapes(s.push(x)) == outcome_shapes(s).push(outcome_shape(x)),
{
    assert(s.push(x).subrange(0, s.len() as int) =~= s);
}

proof fn lemma_roll_back_node_shape(o: Outcome)
    ensures
        outcome_shape(roll_back_node(o)) == outcome_shape(o),
    decreases o, 0nat,
{
    if let Outcome::Batch { children, .. } = o {
        lemma_roll_back_shape(children);
    }
}

proof fn lemma_roll_back_shape(s: Seq<Outcome>)
    ensures
        outcome_shapes(roll_back_all(s)) == outcome_shapes(s),
    decreases s, s.len(),
{
    if s.len() > 0 {
        let init = s.subrange(0, s.len() - 1);
        lemma_roll_back_shape(init);
        lemma_roll_back_node_shape(s[s.len() - 1]);
        lemma_outcome_shapes_push(roll_back_all(init), roll_back_node(s[s.len() - 1]));
    }
}

proof fn lemma_decode_node_shape(n: ExecBoxed, counter: int, bitmap: Bitmap, i: int, reverted: bool)
    ensures
        outcome_shape(decode_node(n, counter, bitmap, i, reverted).0) == tree_shape(n),
    decreases n, 0nat,
{
    if let ExecBoxed::Batch(batch) = n {
        if reverted {
            lemma_skipped_shape(batch.execs@);
        } else {
            lemma_decode_list_shape(batch.execs@, counter, bitmap, i);
        }
    }
}

proof fn lemma_skipped_node_shape(n: ExecBoxed)
    ensures
        outcome_shape(skipped_node(n)) == tree_shape(n),
    decreases n, 0nat,
{
    if let ExecBoxed::Batch(batch) = n {
        lemma_skipped_shape(batch.execs@);
    }
}

proof fn lemma_skipped_shape(s: Seq<ExecBoxed>)
    ensures
        outcome_shapes(skipped_all(s)) == tree_shapes(s),
    decreases s, s.len(),
{
    if s.len() > 0 {
        let init = s.subrange(0, s.len() - 1);
        lemma_skipped_shape(init);
        lemma_skipped_node_shape(s[s.len() - 1]);
        lemma_outcome_shapes_push(skipped_all(init), skipped_node(s[s.len() - 1]));
    }
}

proof fn lemma_decode_seq_shape(s: Seq<ExecBoxed>, counter: int, bitmap: Bitmap, start: int)
    ensures
        outcome_shapes(decode_seq(s, counter, bitmap, start).0) == tree_shapes(s),
    decreases s, 0nat,
{
    if s.len() > 0 {
        let init = s.subrange(0, s.len() - 1);
        let (outs, i, reverted) = decode_seq(init, counter, bitmap, start);
        lemma_decode_seq_shape(init, counter, bitmap, start);
        lemma_decode_node_shape(s[s.len() - 1], counter, bitmap, i, reverted);
        lemma_outcome_shapes_push(outs, decode_node(s[s.len() - 1], counter, bitmap, i, reverted).0);
    }
}

/// Decoding keeps the shape of the tree: the outcome list has the same
/// nesting, the same child counts and order, and the same allow-failure
/// flags as the operation list it was decoded from.
pub proof fn lemma_decode_list_shape(s: Seq<ExecBoxed>, counter: int, bitmap: Bitmap, start: int)
    ensures
        outcome_shapes(decode_list(s, counter, bitmap, start).0) == tree_shapes(s),
    decreases s, 1nat,
{
    lemma_decode_seq_shape(s, counter, bitmap, start);
    lemma_roll_back_shape(decode_seq(s, counter, bitmap, start).0);
}

/// Decoding is a function of the tree, the counter, the bitmap and the
/// start cursor: two decodings of the same inputs agree.
pub proof fn lemma_decode_deterministic(
    s1: Seq<ExecBoxed>,
    s2: Seq<ExecBoxed>,
    counter: int,
    bitmap1: Bitmap,
    bitmap2: Bitmap,
    start: int,
)
    requires
        s1 == s2,
        bitmap1 == bitmap2,
    ensures
        decode_list(s1, counter, bitmap1, start) == decode_list(s2, counter, bitmap2, start),
{
}

} // verus!

verus! {

/// Every outcome in the subtree is `Success`.
pub open spec fn node_all_success(o: Outcome) -> bool
    decreases o, 0nat,
{
    &&& o.result() == ExecResult::Success
    &&& o matches Outcome::Batch { children, .. } ==> all_success(children)
}

/// Every outcome in the list, at any depth, is `Success`.
pub open spec fn all_success(s: Seq<Outcome>) -> bool
    decreases s, s.len(),
{
    if s.len() == 0 {
        true
    } else {
        all_success(s.subrange(0, s.len() - 1)) && node_all_success(s[s.len() - 1])
    }
}

proof fn lemma_all_success_push(s: Seq<Outcome>, x: Outcome)
    ensures
        all_success(s.push(x)) == (all_success(s) && node_all_success(x)),
{
    assert(s.push(x).subrange(0, s.len() as int) =~= s);
}

proof fn lemma_decode_node_success(n: ExecBoxed, counter: int, bitmap: Bitmap, i: int)
    requires
        bitmap.is_zero(),
        0 <= i,
        i + node_size(n) <= counter,
    ensures
        ({
            let (o, next, latch) = decode_node(n, counter, bitmap, i, false);
            &&& node_all_success(o)
            &&& next == i + node_size(n)
            &&& !latch
        }),
    decreases n, 0nat,
{
    match n {
        ExecBoxed::Batch(batch) => {
            lemma_decode_seq_success(batch.execs@, counter, bitmap, i);
            let after = decode_list(batch.execs@, counter, bitmap, i).1;
            assert(!bitmap.spec_bit(255 - after));
        },
        ExecBoxed::Exec(_) => {
            assert(!bitmap.spec_bit(255 - i));
        },
    }
}

/// On a run in which no node fails and the counter lies past every node of
/// the list, each node is read at the cursor that counts the nodes before
/// it, no revert is latched, and every outcome is `Success`.
pub proof fn lemma_decode_seq_success(s: Seq<ExecBoxed>, counter: int, bitmap: Bitmap, start: int)
    requires
        bitmap.is_zero(),
        0 <= start,
        start + list_size(s) <= counter,
    ensures
        ({
            let (outs, next, latch) = decode_seq(s, counter, bitmap, start);
            &&& all_success(outs)
            &&& next == start + list_size(s)
            &&& !latch
        }),
    decreases s, 0nat,
{
    if s.len() > 0 {
        let init = s.subrange(0, s.len() - 1);
        let last = s[s.len() - 1];
        lemma_list_size_append(s);
        lemma_decode_seq_success(init, counter, bitmap, start);
        let (outs, i, reverted) = decode_seq(init, counter, bitmap, start);
        lemma_decode_node_success(last, counter, bitmap, i);
        lemma_all_success_push(outs, decode_node(last, counter, bitmap, i, reverted).0);
    }
}

proof fn lemma_list_size_append(s: Seq<ExecBoxed>)
    requires
        s.len() > 0,
    ensures
        list_size(s) == list_size(s.subrange(0, s.len() - 1)) + node_size(s[s.len() - 1]),
{
}

/// A run in which every node executed and none failed: the counter is the
/// number of nodes and no bit is set. Every node then decodes as `Success`.
pub proof fn lemma_all_success(s: Seq<ExecBoxed>, bitmap: Bitmap)
    requires
        bitmap.is_zero(),
    ensures
        all_success(decode_list(s, list_size(s) as int, bitmap, 0).0),
        decode_list(s, list_size(s) as int, bitmap, 0).1 == list_size(s),
{
    lemma_decode_seq_success(s, list_size(s) as int, bitmap, 0);
}

proof fn lemma_tree_shapes_index(s: Seq<ExecBoxed>)
    ensures
        tree_shapes(s).len() == s.len(),
        forall|k: int| 0 <= k < s.len() ==> #[trigger] tree_shapes(s)[k] == tree_shape(s[k]),
    decreases s.len(),
{
    if s.len() > 0 {
        let init = s.subrange(0, s.len() - 1);
        lemma_tree_shapes_index(init);
        assert forall|k: int| 0 <= k < s.len() implies #[trigger] tree_shapes(s)[k] == tree_shape(s[k]) by {
            if k < s.len() - 1 {
                assert(init[k] == s[k]);
            }
        }
    }
}

proof fn lemma_outcome_shapes_index(s: Seq<Outcome>)
    ensures
        outcome_shapes(s).len() == s.len(),
        forall|k: int| 0 <= k < s.len() ==> #[trigger] outcome_shapes(s)[k] == outcome_shape(s[k]),
    decreases s.len(),
{
    if s.len() > 0 {
        let init = s.subrange(0, s.len() - 1);
        lemma_outcome_shapes_index(init);
        assert forall|k: int| 0 <= k < s.len() implies #[trigger] outcome_shapes(s)[k] == outcome_shape(s[k]) by {
            if k < s.len() - 1 {
                assert(init[k] == s[k]);
            }
        }
    }
}

proof fn lemma_encode_list_index(s: Seq<ExecBoxed>, callee: Seq<u8>, executor: Seq<u8>)
    ensures
        encode_list(s, callee, executor).len() == s.len(),
        forall|k: int|
            0 <= k < s.len() ==> #[trigger] encode_list(s, callee, executor)[k] == encode_node(
                s[k],
                callee,
                executor,
            ),
    decreases s.len(),
{
    if s.len() > 0 {
        let init = s.subrange(0, s.len() - 1);
        lemma_encode_list_index(init, callee, executor);
        assert forall|k: int| 0 <= k < s.len() implies #[trigger] encode_list(s, callee, executor)[k]
            == encode_node(s[k], callee, executor) by {
            if k < s.len() - 1 {
                assert(init[k] == s[k]);
            }
        }
    }
}

/// Encoding and decoding walk a list in the same order: the k-th dispatch
/// record is the record of the k-th node, and the k-th decoded outcome has
/// the k-th node's shape and allow-failure flag.
pub proof fn lemma_encode_decode_order(
    s: Seq<ExecBoxed>,
    callee: Seq<u8>,
    executor: Seq<u8>,
    counter: int,
    bitmap: Bitmap,
    start: int,
)
    ensures
        encode_list(s, callee, executor).len() == s.len(),
        decode_list(s, counter, bitmap, start).0.len() == s.len(),
        forall|k: int|
            0 <= k < s.len() ==> {
                &&& #[trigger] encode_list(s, callee, executor)[k] == encode_node(s[k], callee, executor)
                &&& outcome_shape(decode_list(s, counter, bitmap, start).0[k]) == tree_shape(s[k])
            },
{
    let outs = decode_list(s, counter, bitmap, start).0;
    lemma_encode_list_index(s, callee, executor);
    lemma_decode_list_shape(s, counter, bitmap, start);
    lemma_tree_shapes_index(s);
    lemma_outcome_shapes_index(outs);
    assert forall|k: int| 0 <= k < s.len() implies outcome_shape(outs[k]) == tree_shape(s[k]) by {
        assert(outcome_shapes(outs)[k] == tree_shapes(s)[k]);
    }
}

} // verus!

verus! {

/// No outcome in the subtree is `Success`.
pub open spec fn node_no_success(o: Outcome) -> bool
    decreases o, 0nat,
{
    &&& o.result() != ExecResult::Success
    &&& o matches Outcome::Batch { children, .. } ==> no_success(children)
}

/// No outcome in the list, at any depth, is `Success`.
pub open spec fn no_success(s: Seq<Outcome>) -> bool
    decreases s, s.len(),
{
    if s.len() == 0 {
        true
    } else {
        no_success(s.subrange(0, s.len() - 1)) && node_no_success(s[s.len() - 1])
    }
}

proof fn lemma_no_success_push(s: Seq<Outcome>, x: Outcome)
    ensures
        no_success(s.push(x)) == (no_success(s) && node_no_success(x)),
{
    assert(s.push(x).subrange(0, s.len() as int) =~= s);
}

proof fn lemma_roll_back_node_no_success(o: Outcome)
    ensures
        node_no_success(roll_back_node(o)),
    decreases o, 0nat,
{
    if let Outcome::Batch { children, .. } = o {
        lemma_roll_back_no_success(children);
    }
}

proof fn lemma_roll_back_no_success(s: Seq<Outcome>)
    ensures
        no_success(roll_back_all(s)),
    decreases s, s.len(),
{
    if s.len() > 0 {
        let init = s.subrange(0, s.len() - 1);
        lemma_roll_back_no_success(init);
        lemma_roll_back_node_no_success(s[s.len() - 1]);
        lemma_no_success_push(roll_back_all(init), roll_back_node(s[s.len() - 1]));
    }
}

proof fn lemma_roll_back_index(s: Seq<Outcome>)
    ensures
        roll_back_all(s).len() == s.len(),
        forall|k: int| 0 <= k < s.len() ==> #[trigger] roll_back_all(s)[k] == roll_back_node(s[k]),
    decreases s.len(),
{
    if s.len() > 0 {
        let init = s.subrange(0, s.len() - 1);
        lemma_roll_back_index(init);
        assert forall|k: int| 0 <= k < s.len() implies #[trigger] roll_back_all(s)[k] == roll_back_node(s[k]) by {
            if k < s.len() - 1 {
                assert(init[k] == s[k]);
            }
        }
    }
}

/// The outcome of the j-th sibling before any roll-back is the decoding of
/// that node in the state that the siblings before it left.
proof fn lemma_seq_entry(s: Seq<ExecBoxed>, counter: int, bitmap: Bitmap, start: int, j: int)
    requires
        0 <= j < s.len(),
    ensures
        decode_seq(s, counter, bitmap, start).0.len() == s.len(),
        ({
            let (_, i, reverted) = decode_seq(s.subrange(0, j), counter, bitmap, start);
            decode_seq(s, counter, bitmap, start).0[j] == decode_node(s[j], counter, bitmap, i, reverted).0
        }),
    decreases s.len(),
{
    let init = s.subrange(0, s.len() - 1);
    lemma_seq_len(s, counter, bitmap, start);
    if j < s.len() - 1 {
        lemma_seq_entry(init, counter, bitmap, start, j);
        assert(init.subrange(0, j) =~= s.subrange(0, j));
    }
}

proof fn lemma_seq_len(s: Seq<ExecBoxed>, counter: int, bitmap: Bitmap, start: int)
    ensures
        decode_seq(s, counter, bitmap, start).0.len() == s.len(),
    decreases s.len(),
{
    if s.len() > 0 {
        lemma_seq_len(s.subrange(0, s.len() - 1), counter, bitmap, start);
    }
}

/// Once a sibling list has latched a revert, it stays latched and its
/// cursor no longer moves.
proof fn lemma_latch_stays(s: Seq<ExecBoxed>, counter: int, bitmap: Bitmap, start: int, n: int, m: int)
    requires
        0 <= n <= m <= s.len(),
        decode_seq(s.subrange(0, n), counter, bitmap, start).2,
    ensures
        decode_seq(s.subrange(0, m), counter, bitmap, start).2,
        decode_seq(s.subrange(0, m), counter, bitmap, start).1 == decode_seq(
            s.subrange(0, n),
            counter,
            bitmap,
            start,
        ).1,
    decreases m - n,
{
    if n < m {
        lemma_decode_seq_step(s, counter, bitmap, start, n);
        lemma_latch_stays(s, counter, bitmap, start, n + 1, m);
    }
}

/// Whether node `n`, read from cursor `i` in a scope with no revert yet,
/// fails without allowing failure and so latches a revert.
pub open spec fn latches(n: ExecBoxed, counter: int, bitmap: Bitmap, i: int) -> bool {
    decode_node(n, counter, bitmap, i, false).2
}

proof fn lemma_roll_back_skipped_node(n: ExecBoxed)
    ensures
        roll_back_node(skipped_node(n)) == skipped_node(n),
    decreases n, 0nat,
{
    if let ExecBoxed::Batch(batch) = n {
        lemma_roll_back_skipped(batch.execs@);
    }
}

proof fn lemma_roll_back_skipped(s: Seq<ExecBoxed>)
    ensures
        roll_back_all(skipped_all(s)) == skipped_all(s),
    decreases s, s.len(),
{
    if s.len() > 0 {
        let init = s.subrange(0, s.len() - 1);
        lemma_roll_back_skipped(init);
        lemma_roll_back_skipped_node(s[s.len() - 1]);
        lemma_roll_back_push(skipped_all(init), skipped_node(s[s.len() - 1]));
    }
}

/// When the n-th node of a sibling list is the first whose failure is not
/// allowed, its outcome is `Failure`; every later sibling, with every node
/// below it, is `Skipped` and takes no bitmap position, so the list's cursor
/// ends one past the failing node; and the scope is rolled back: no outcome
/// of the list, at any depth, is `Success`, and each earlier sibling that
/// succeeded is `SuccessButReverted`.
pub proof fn lemma_first_unrecovered_failure(
    s: Seq<ExecBoxed>,
    counter: int,
    bitmap: Bitmap,
    start: int,
    n: int,
)
    requires
        0 <= n < s.len(),
        !decode_seq(s.subrange(0, n), counter, bitmap, start).2,
        latches(s[n], counter, bitmap, decode_seq(s.subrange(0, n), counter, bitmap, start).1),
    ensures
        ({
            let outs = decode_list(s, counter, bitmap, start).0;
            let raw = decode_seq(s, counter, bitmap, start).0;
            &&& outs.len() == s.len()
            &&& outs[n].result() == ExecResult::Failure
            &&& forall|j: int| n < j < s.len() ==> #[trigger] outs[j] == skipped_node(s[j])
            &&& decode_list(s, counter, bitmap, start).1 == decode_node(
                s[n],
                counter,
                bitmap,
                decode_seq(s.subrange(0, n), counter, bitmap, start).1,
                false,
            ).1
            &&& forall|j: int|
                0 <= j < n && (#[trigger] raw[j]).result() == ExecResult::Success ==> outs[j].result()
                    == ExecResult::SuccessButReverted
            &&& no_success(outs)
        }),
{
    let raw = decode_seq(s, counter, bitmap, start).0;
    lemma_decode_seq_step(s, counter, bitmap, start, n);
    lemma_latch_stays(s, counter, bitmap, start, n + 1, s.len() as int);
    assert(s.subrange(0, s.len() as int) =~= s);
    lemma_roll_back_index(raw);
    lemma_roll_back_no_success(raw);
    lemma_seq_entry(s, counter, bitmap, start, n);
    assert forall|j: int| n < j < s.len() implies #[trigger] raw[j] == skipped_node(s[j]) by {
        lemma_seq_entry(s, counter, bitmap, start, j);
        lemma_latch_stays(s, counter, bitmap, start, n + 1, j);
    }
    assert forall|j: int| n < j < s.len() implies roll_back_all(raw)[j] == skipped_node(s[j]) by {
        lemma_roll_back_skipped_node(s[j]);
    }
}

} // verus!

verus! {

proof fn lemma_roll_back_node_twice(o: Outcome)
    ensures
        roll_back_node(roll_back_node(o)) == roll_back_node(o),
    decreases o, 0nat,
{
    if let Outcome::Batch { children, .. } = o {
        lemma_roll_back_twice(children);
    }
}

/// Rolling a list back twice is rolling it back once: a result already
/// rolled back keeps its value.
pub proof fn lemma_roll_back_twice(s: Seq<Outcome>)
    ensures
        roll_back_all(roll_back_all(s)) == roll_back_all(s),
    decreases s, s.len(),
{
    if s.len() > 0 {
        let init = s.subrange(0, s.len() - 1);
        let last = s[s.len() - 1];
        lemma_roll_back_twice(init);
        lemma_roll_back_node_twice(last);
        lemma_roll_back_push(roll_back_all(init), roll_back_node(last));
    }
}

} // verus!
