use error_bitmap::bitmap::{Bitmap, Signal};
use error_bitmap::decode::{count_nodes, decode_bitmap, decode_signal, set_failed, skip_all};
use error_bitmap::tree::{
    get_exec_tree, Batch, BatchWithResult, BoxedWithResult, Exec, ExecBoxed, ExecResult,
    ExecWithResult,
};

fn leaf(fail: bool, allow_fail: bool) -> ExecBoxed {
    ExecBoxed::Exec(Exec { fail, allow_fail })
}

fn batch(execs: Vec<ExecBoxed>, allow_fail: bool) -> ExecBoxed {
    ExecBoxed::Batch(Batch { execs, allow_fail })
}

/// A bitmap whose bits for the given cursor positions are set.
fn bitmap_with(positions: &[usize]) -> Bitmap {
    let mut bytes = [0u8; 32];
    for &p in positions {
        bytes[p / 8] |= 0x80 >> (p % 8);
    }
    Bitmap::new(bytes)
}

fn result(node: &BoxedWithResult) -> ExecResult {
    match node {
        BoxedWithResult::BatchResult(b) => b.exec_result,
        BoxedWithResult::ExecResult(e) => e.exec_result,
    }
}

fn children(node: &BoxedWithResult) -> &Vec<BoxedWithResult> {
    match node {
        BoxedWithResult::BatchResult(b) => &b.execs,
        BoxedWithResult::ExecResult(_) => panic!("not a batch"),
    }
}

fn results(nodes: &Vec<BoxedWithResult>) -> Vec<ExecResult> {
    nodes.iter().map(result).collect()
}

#[test]
fn single_leaf_success() {
    let tree = vec![leaf(false, true)];
    let (out, next) = decode_bitmap(&tree, 1, &bitmap_with(&[]), 0);
    assert_eq!(results(&out), vec![ExecResult::Success]);
    assert_eq!(next, 1);
}

#[test]
fn failing_leaf_skips_sibling() {
    let tree = vec![leaf(true, false), leaf(false, false)];
    let (out, next) = decode_bitmap(&tree, 1, &bitmap_with(&[0]), 0);
    assert_eq!(results(&out), vec![ExecResult::Failure, ExecResult::Skipped]);
    assert_eq!(next, 1);
}

#[test]
fn batch_bit_reverts_children() {
    let tree = vec![batch(vec![leaf(false, false), leaf(false, false)], false)];
    let (out, next) = decode_bitmap(&tree, 2, &bitmap_with(&[2]), 0);
    assert_eq!(results(&out), vec![ExecResult::Failure]);
    assert_eq!(
        results(children(&out[0])),
        vec![ExecResult::SuccessButReverted, ExecResult::SuccessButReverted]
    );
    assert_eq!(next, 3);
}

#[test]
fn tolerant_batch_reports_child_failure_when_bit_set() {
    let tree = vec![batch(vec![leaf(true, true), leaf(false, true)], true)];
    let (out, _) = decode_bitmap(&tree, 3, &bitmap_with(&[0, 2]), 0);
    assert_eq!(results(&out), vec![ExecResult::Failure]);
    assert_eq!(results(children(&out[0])), vec![ExecResult::Failure, ExecResult::Success]);
}

#[test]
fn tolerant_batch_succeeds_when_bit_unset() {
    let tree = vec![batch(vec![leaf(true, true), leaf(false, true)], true)];
    let (out, next) = decode_bitmap(&tree, 3, &bitmap_with(&[0]), 0);
    assert_eq!(results(&out), vec![ExecResult::Success]);
    assert_eq!(results(children(&out[0])), vec![ExecResult::Failure, ExecResult::Success]);
    assert_eq!(next, 3);
}

fn assert_all_success(nodes: &Vec<BoxedWithResult>) {
    for node in nodes {
        assert_eq!(result(node), ExecResult::Success);
        if let BoxedWithResult::BatchResult(b) = node {
            assert_all_success(&b.execs);
        }
    }
}

#[test]
fn clean_run_is_all_success() {
    let tree = vec![
        leaf(false, false),
        batch(vec![leaf(false, false), batch(vec![leaf(false, true)], false)], false),
        leaf(false, true),
    ];
    // six nodes, all executed, none failed
    let (out, next) = decode_bitmap(&tree, 6, &bitmap_with(&[]), 0);
    assert_all_success(&out);
    assert_eq!(next, 6);
}

#[test]
fn first_unrecovered_failure_rolls_back_scope() {
    let tree = vec![
        leaf(false, false),
        batch(vec![leaf(false, false)], true),
        leaf(true, false),
        leaf(false, false),
    ];
    let (out, next) = decode_bitmap(&tree, 3, &bitmap_with(&[3]), 0);
    assert_eq!(
        results(&out),
        vec![
            ExecResult::SuccessButReverted,
            ExecResult::SuccessButReverted,
            ExecResult::Failure,
            ExecResult::Skipped,
        ]
    );
    assert_eq!(results(children(&out[1])), vec![ExecResult::SuccessButReverted]);
    assert_eq!(next, 4);
}

#[test]
fn later_batch_is_skipped_with_its_children() {
    let tree = vec![leaf(true, false), batch(vec![leaf(false, false)], false)];
    let (out, next) = decode_bitmap(&tree, 0, &bitmap_with(&[]), 0);
    assert_eq!(results(&out), vec![ExecResult::Failure, ExecResult::Skipped]);
    assert_eq!(results(children(&out[1])), vec![ExecResult::Skipped]);
    assert_eq!(next, 1);
}

#[test]
fn skipped_siblings_take_no_position() {
    let tree = vec![
        leaf(false, true),
        leaf(true, false),
        batch(vec![batch(vec![leaf(false, true)], true), leaf(false, false)], true),
        leaf(false, false),
    ];
    let (out, next) = decode_bitmap(&tree, 1, &bitmap_with(&[]), 0);
    assert_eq!(
        results(&out),
        vec![
            ExecResult::SuccessButReverted,
            ExecResult::Failure,
            ExecResult::Skipped,
            ExecResult::Skipped,
        ]
    );
    assert_eq!(results(children(&out[2])), vec![ExecResult::Skipped, ExecResult::Skipped]);
    assert_eq!(results(children(&children(&out[2])[0])), vec![ExecResult::Skipped]);
    assert_eq!(next, 2);
}

#[test]
fn outer_roll_back_keeps_inner_roll_back() {
    let tree = vec![batch(vec![leaf(false, false), leaf(true, false)], false)];
    let (out, next) = decode_bitmap(&tree, 1, &bitmap_with(&[2]), 0);
    assert_eq!(results(&out), vec![ExecResult::Failure]);
    assert_eq!(
        results(children(&out[0])),
        vec![ExecResult::SuccessButReverted, ExecResult::Failure]
    );
    assert_eq!(next, 3);
}

#[test]
fn cutoff_position_fails_without_bit() {
    let tree = vec![leaf(false, true), leaf(false, true), leaf(false, true)];
    let (out, next) = decode_bitmap(&tree, 1, &bitmap_with(&[]), 0);
    assert_eq!(
        results(&out),
        vec![ExecResult::Success, ExecResult::Failure, ExecResult::Success]
    );
    assert_eq!(next, 3);
}

#[test]
fn decode_is_deterministic() {
    let tree = vec![
        batch(vec![leaf(false, true), leaf(true, false)], true),
        leaf(false, false),
    ];
    let bitmap = bitmap_with(&[1, 5]);
    let first = decode_bitmap(&tree, 2, &bitmap, 0);
    let second = decode_bitmap(&tree, 2, &bitmap, 0);
    assert_eq!(first, second);
}

fn assert_same_shape(tree: &Vec<ExecBoxed>, out: &Vec<BoxedWithResult>) {
    assert_eq!(tree.len(), out.len());
    for (node, res) in tree.iter().zip(out.iter()) {
        match (node, res) {
            (ExecBoxed::Batch(b), BoxedWithResult::BatchResult(r)) => {
                assert_eq!(b.allow_fail, r.allow_fail);
                assert_same_shape(&b.execs, &r.execs);
            }
            (ExecBoxed::Exec(e), BoxedWithResult::ExecResult(r)) => {
                assert_eq!(e.allow_fail, r.allow_fail);
                assert_eq!(e.fail, r.fail);
            }
            _ => panic!("shape differs"),
        }
    }
}

#[test]
fn decode_keeps_shape() {
    let tree = vec![
        batch(vec![batch(vec![leaf(true, true)], false), leaf(false, false)], true),
        leaf(true, false),
        batch(vec![], false),
    ];
    for counter in 0..6u16 {
        let (out, _) = decode_bitmap(&tree, counter, &bitmap_with(&[0, 2, 3]), 0);
        assert_same_shape(&tree, &out);
    }
}

#[test]
fn empty_list_decodes_to_nothing() {
    let (out, next) = decode_bitmap(&vec![], 0, &bitmap_with(&[]), 4);
    assert!(out.is_empty());
    assert_eq!(next, 4);
}

#[test]
fn decode_from_later_cursor() {
    let tree = vec![leaf(false, false), leaf(false, true)];
    let (out, next) = decode_bitmap(&tree, 10, &bitmap_with(&[6]), 5);
    assert_eq!(results(&out), vec![ExecResult::Success, ExecResult::Failure]);
    assert_eq!(next, 7);
}

#[test]
fn demo_tree_decode() {
    let tree = get_exec_tree();
    let (out, next) = decode_bitmap(&tree, 4, &bitmap_with(&[1]), 0);
    assert_eq!(results(&out), vec![ExecResult::Success]);
    assert_eq!(
        results(children(&out[0])),
        vec![ExecResult::Success, ExecResult::Failure, ExecResult::Success]
    );
    assert_eq!(next, 4);
}

#[test]
fn set_failed_rewrites_success_at_every_depth() {
    let exec = |r: ExecResult| {
        BoxedWithResult::ExecResult(ExecWithResult { fail: false, allow_fail: true, exec_result: r })
    };
    let input = vec![
        exec(ExecResult::Success),
        exec(ExecResult::Skipped),
        exec(ExecResult::Failure),
        exec(ExecResult::SuccessButReverted),
        BoxedWithResult::BatchResult(BatchWithResult {
            execs: vec![exec(ExecResult::Success)],
            allow_fail: false,
            exec_result: ExecResult::Success,
        }),
    ];
    let out = set_failed(&input);
    assert_eq!(
        results(&out),
        vec![
            ExecResult::SuccessButReverted,
            ExecResult::Skipped,
            ExecResult::Failure,
            ExecResult::SuccessButReverted,
            ExecResult::SuccessButReverted,
        ]
    );
    assert_eq!(results(children(&out[4])), vec![ExecResult::SuccessButReverted]);
}

#[test]
fn set_failed_twice_is_set_failed_once() {
    let exec = |f: bool, r: ExecResult| {
        BoxedWithResult::ExecResult(ExecWithResult { fail: f, allow_fail: false, exec_result: r })
    };
    let input = vec![
        exec(false, ExecResult::Success),
        BoxedWithResult::BatchResult(BatchWithResult {
            execs: vec![
                exec(false, ExecResult::SuccessButReverted),
                exec(true, ExecResult::Failure),
                exec(false, ExecResult::Skipped),
            ],
            allow_fail: true,
            exec_result: ExecResult::Failure,
        }),
    ];
    let once = set_failed(&input);
    let twice = set_failed(&once);
    assert_eq!(once, twice);
    assert_eq!(
        results(children(&once[1])),
        vec![ExecResult::SuccessButReverted, ExecResult::Failure, ExecResult::Skipped]
    );
    assert_eq!(result(&once[0]), ExecResult::SuccessButReverted);
}

#[test]
fn skip_all_marks_every_depth() {
    let tree = vec![batch(vec![leaf(true, true), batch(vec![leaf(false, false)], false)], true)];
    let out = skip_all(&tree);
    assert_eq!(results(&out), vec![ExecResult::Skipped]);
    assert_eq!(results(children(&out[0])), vec![ExecResult::Skipped, ExecResult::Skipped]);
    assert_eq!(results(children(&children(&out[0])[1])), vec![ExecResult::Skipped]);
}

#[test]
fn demo_tree_layout() {
    let tree = get_exec_tree();
    assert_eq!(tree.len(), 1);
    match &tree[0] {
        ExecBoxed::Batch(b) => {
            assert!(b.allow_fail);
            assert_eq!(
                b.execs,
                vec![leaf(false, false), leaf(true, true), leaf(false, true)]
            );
        }
        ExecBoxed::Exec(_) => panic!("expected a batch"),
    }
}

#[test]
fn decode_signal_matches_decode_bitmap() {
    let tree = vec![leaf(true, false), leaf(false, false)];
    let signal = Signal { counter: 0, bitmap: bitmap_with(&[]) };
    let outs = decode_signal(&tree, &signal).unwrap();
    assert_eq!(results(&outs), vec![ExecResult::Failure, ExecResult::Skipped]);
}

#[test]
fn decode_signal_rejects_oversized_tree() {
    let signal = Signal { counter: 0, bitmap: bitmap_with(&[]) };
    let fits: Vec<ExecBoxed> = (0..256).map(|_| leaf(false, true)).collect();
    assert!(decode_signal(&fits, &signal).is_some());
    let nested = vec![batch((0..255).map(|_| leaf(false, true)).collect(), true), leaf(false, true)];
    assert!(decode_signal(&nested, &signal).is_none());
}

#[test]
fn count_nodes_counts_and_caps() {
    let tree = vec![batch(vec![leaf(false, true), batch(vec![], true)], true), leaf(true, true)];
    assert_eq!(count_nodes(&tree, 100), 4);
    assert_eq!(count_nodes(&tree, 3), 3);
    assert_eq!(count_nodes(&vec![], 5), 0);
}
