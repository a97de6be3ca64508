use vstd::prelude::*;
use crate::tree::ExecBoxed;
use ethers::abi::{AbiEncode, Token};
use ethers::types::{Address, U256};

verus! {

/// The function that a leaf calls on the callee.
pub const LEAF_SIGNATURE: &'static str = "foo(bool)";

/// The executor's own entry point for a nested batch.
pub const BATCH_SIGNATURE: &'static str = "_batchExeAllowFail(((address,uint256,bytes),bool,uint8)[])";

#[derive(Clone, Debug, PartialEq, Eq)]
/// A call: where it goes, the value sent with it, and its call data.
pub struct Execution {
    pub target: [u8; 20],
    pub value: u128,
    pub call_data: Vec<u8>,
}

#[derive(Clone, Debug, PartialEq, Eq)]
/// One dispatch record handed to the executor.
pub struct AllowFailedExecution {
    pub execution: Execution,
    pub allow_failed: bool,
    pub operation: u8,
}

/// Model of a dispatch record: target, value, call data, allow-failure flag
/// and operation.
pub type RecordModel = (Seq<u8>, u128, Seq<u8>, bool, u8);

pub open spec fn record_model(r: AllowFailedExecution) -> RecordModel {
    (r.execution.target@, r.execution.value, r.execution.call_data@, r.allow_failed, r.operation)
}

pub open spec fn records_model(s: Seq<AllowFailedExecution>) -> Seq<RecordModel> {
    s.map_values(|r: AllowFailedExecution| record_model(r))
}

/// The four-byte selector of a function signature.
pub uninterp spec fn selector_of(signature: Seq<char>) -> Seq<u8>;

/// The ABI encoding of a list of dispatch records as the single argument of
/// a call.
pub uninterp spec fn records_abi_of(records: Seq<RecordModel>) -> Seq<u8>;

/// The ABI encoding of a single bool: one 32-byte word ending in 1 or 0.
pub open spec fn bool_word(b: bool) -> Seq<u8> {
    Seq::new(32, |j: int| if j == 31 && b { 1u8 } else { 0u8 })
}

/// Relies on ethers::utils::id: the selector depends on the signature alone.
#[verifier::external_body]
fn selector(signature: &str) -> (r: [u8; 4])
    ensures
        r@ == selector_of(signature@),
{
    ethers::utils::id(signature)
}

/// Relies on ethers' `AbiEncode` for `bool`: one word, 31 zero bytes then 1
/// for true or 0 for false.
#[verifier::external_body]
fn encode_bool(b: bool) -> (r: Vec<u8>)
    ensures
        r@ == bool_word(b),
{
    AbiEncode::encode(b)
}

/// Relies on ethers::abi::encode: the encoding of an array of
/// ((address, uint256, bytes), bool, uint8) tuples depends on the records alone.
#[verifier::external_body]
fn encode_records(records: &Vec<AllowFailedExecution>) -> (r: Vec<u8>)
    ensures
        r@ == records_abi_of(records_model(records@)),
{
    let tokens: Vec<Token> = records.iter().map(|r| Token::Tuple(vec![
        Token::Tuple(vec![
            Token::Address(Address::from(r.execution.target)),
            Token::Uint(U256::from(r.execution.value)),
            Token::Bytes(r.execution.call_data.clone()),
        ]),
        Token::Bool(r.allow_failed),
        Token::Uint(U256::from(r.operation)),
    ])).collect();
    ethers::abi::encode(&[Token::Array(tokens)])
}

/// Call data of a leaf: `foo(fail)` on the callee.
pub open spec fn leaf_call_data(fail: bool) -> Seq<u8> {
    selector_of(LEAF_SIGNATURE@) + bool_word(fail)
}

/// Call data of a batch: the executor's batch entry point on the records of
/// its children.
pub open spec fn batch_call_data(records: Seq<RecordModel>) -> Seq<u8> {
    selector_of(BATCH_SIGNATURE@) + records_abi_of(records)
}

/// The dispatch record of one node.
pub open spec fn encode_node(n: ExecBoxed, callee: Seq<u8>, executor: Seq<u8>) -> RecordModel
    decreases n, 0nat,
{
    match n {
        ExecBoxed::Batch(batch) => (
            executor,
            0,
            batch_call_data(encode_list(batch.execs@, callee, executor)),
            batch.allow_fail,
            0,
        ),
        ExecBoxed::Exec(e) => (callee, 0, leaf_call_data(e.fail), e.allow_fail, 0),
    }
}

/// The dispatch records of a list of nodes, one per node, in order.
pub open spec fn encode_list(s: Seq<ExecBoxed>, callee: Seq<u8>, executor: Seq<u8>) -> Seq<
    RecordModel,
>
    decreases s, s.len(),
{
    if s.len() == 0 {
        Seq::empty()
    } else {
        encode_list(s.subrange(0, s.len() - 1), callee, executor).push(
            encode_node(s[s.len() - 1], callee, executor),
        )
    }
}

/// Call data: a selector followed by the encoded arguments.
pub fn call_data(sel: [u8; 4], args: Vec<u8>) -> (r: Vec<u8>)
    ensures
        r@ == sel@ + args@,
{
    let mut out: Vec<u8> = Vec::new();
    let mut j: usize = 0;
    while j < 4
        invariant
            0 <= j <= 4,
            out@ == sel@.subrange(0, j as int),
        decreases 4 - j,
    {
        out.push(sel[j]);
        j += 1;
        assert(out@ =~= sel@.subrange(0, j as int));
    }
    let mut k: usize = 0;
    while k < args.len()
        invariant
            0 <= k <= args.len(),
            out@ == sel@ + args@.subrange(0, k as int),
        decreases args.len() - k,
    {
        out.push(args[k]);
        k += 1;
        assert(out@ =~= sel@ + args@.subrange(0, k as int));
    }
    assert(args@.subrange(0, args.len() as int) =~= args@);
    out
}

/// A plain call record: no value sent, operation 0.
pub fn dispatch_record(target: [u8; 20], call_data: Vec<u8>, allow_failed: bool) -> (r:
    AllowFailedExecution)
    ensures
        record_model(r) == (target@, 0u128, call_data@, allow_failed, 0u8),
{
    AllowFailedExecution {
        execution: Execution { target, value: 0, call_data },
        allow_failed,
        operation: 0,
    }
}

/// Turns a list of nodes into dispatch records, one per node and in order.
/// A leaf calls the callee; a batch calls the executor itself, with its
/// children's records as the argument.
pub fn encode_execs(callee: [u8; 20], executor: [u8; 20], execs: &Vec<ExecBoxed>) -> (r: Vec<
    AllowFailedExecution,
>)
    ensures
        records_model(r@) == encode_list(execs@, callee@, executor@),
    decreases execs@,
{
    let mut out: Vec<AllowFailedExecution> = Vec::new();
    let mut k: usize = 0;
    while k < execs.len()
        invariant
            0 <= k <= execs.len(),
            records_model(out@) == encode_list(execs@.subrange(0, k as int), callee@, executor@),
        decreases execs.len() - k,
    {
        let record = match &execs[k] {
            ExecBoxed::Batch(batch) => {
                let children = encode_execs(callee, executor, &batch.execs);
                let args = encode_records(&children);
                dispatch_record(executor, call_data(selector(BATCH_SIGNATURE), args), batch.allow_fail)
            },
            ExecBoxed::Exec(e) => dispatch_record(
                callee,
                call_data(selector(LEAF_SIGNATURE), encode_bool(e.fail)),
                e.allow_fail,
            ),
        };
        proof {
            assert(record_model(record) == encode_node(execs@[k as int], callee@, executor@));
            assert(execs@.subrange(0, k + 1).subrange(0, k as int) =~= execs@.subrange(0, k as int));
            assert(records_model(out@.push(record)) =~= records_model(out@).push(record_model(record)));
        }
        out.push(record);
        k += 1;
    }
    proof {
        assert(execs@.subrange(0, execs.len() as int) =~= execs@);
    }
    out
}

} // verus!
