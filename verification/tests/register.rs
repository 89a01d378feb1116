use ergvein_filters::ergo::{BoxEntry, BoxMap, ErgoFilter};
use ergvein_filters::filter::RawFilterReader;
use ergvein_filters::util::FilterError;

use ergo_lib::chain::ergo_box::box_builder::ErgoBoxCandidateBuilder;
use ergo_lib::chain::transaction::input::prover_result::ProverResult;
use ergo_lib::chain::transaction::{Input, Transaction};
use ergo_lib::ergotree_interpreter::sigma_protocol::prover::{ContextExtension, ProofBytes};
use ergo_lib::ergotree_ir::chain::ergo_box::box_value::BoxValue;
use ergo_lib::ergotree_ir::chain::ergo_box::BoxId;
use ergo_lib::ergotree_ir::ergo_tree::ErgoTree;
use ergo_lib::ergotree_ir::serialization::SigmaSerializable;

fn block_id() -> Vec<u8> {
    (100u8..132).collect()
}

// the x coordinate of the secp256k1 base point: a point that is certainly
// on the curve
const POINT_X: [u8; 32] = [
    0x79, 0xbe, 0x66, 0x7e, 0xf9, 0xdc, 0xbb, 0xac, 0x55, 0xa0, 0x62, 0x95, 0xce, 0x87, 0x0b,
    0x07, 0x02, 0x9b, 0xfc, 0xdb, 0x2d, 0xce, 0x28, 0xd9, 0x59, 0xf2, 0x81, 0x5b, 0x16, 0xf8,
    0x17, 0x98,
];

/// A pay-to-public-key script, the commonest register-chain contract.
fn p2pk_tree_bytes() -> Vec<u8> {
    let mut b = vec![0x00u8, 0x08, 0xcd, 0x02];
    b.extend_from_slice(&POINT_X);
    b
}

fn sample_tx() -> Transaction {
    let tree = ErgoTree::sigma_parse_bytes(&p2pk_tree_bytes()).expect("tree parses");
    let candidate = ErgoBoxCandidateBuilder::new(BoxValue::SAFE_USER_MIN, tree, 0)
        .build()
        .expect("candidate builds");
    let input = Input::new(
        BoxId::zero(),
        ProverResult { proof: ProofBytes::Empty, extension: ContextExtension::empty() },
    );
    Transaction::new_from_vec(vec![input], vec![], vec![candidate]).expect("transaction builds")
}

fn two_tx_block() -> Vec<u8> {
    let tx_bytes = sample_tx().sigma_serialize_bytes().expect("transaction serializes");
    // count 3: the walk parses two transactions and skips the first
    let mut block = vec![0x03u8];
    block.extend_from_slice(&tx_bytes);
    block.extend_from_slice(&tx_bytes);
    block
}

fn resolver_with_zero_box(script: Vec<u8>) -> BoxMap {
    BoxMap { entries: vec![BoxEntry { box_id: vec![0u8; 32], script }] }
}

#[test]
fn empty_block_builds_empty_filter() {
    let resolver = BoxMap { entries: Vec::new() };
    let f = ErgoFilter::new_script_filter(&block_id(), &[0x00], &resolver).unwrap();
    assert_eq!(f.content, vec![0x00]);
}

#[test]
fn single_transaction_block_builds_empty_filter() {
    // the walk runs over indices 1..n and so parses nothing for a count of 1
    let resolver = BoxMap { entries: Vec::new() };
    let f = ErgoFilter::new_script_filter(&block_id(), &[0x01], &resolver).unwrap();
    assert_eq!(f.content, vec![0x00]);
}

#[test]
fn sentinel_count_reads_second_count() {
    // 10000002 encoded as a variable-length integer, then a count of zero
    let block = vec![0x82u8, 0xad, 0xe2, 0x04, 0x00];
    let resolver = BoxMap { entries: Vec::new() };
    let f = ErgoFilter::new_script_filter(&block_id(), &block, &resolver).unwrap();
    assert_eq!(f.content, vec![0x00]);
}

#[test]
fn garbage_transaction_is_malformed() {
    let block = vec![0x02u8, 0xff, 0xff, 0xff];
    let resolver = BoxMap { entries: Vec::new() };
    let r = ErgoFilter::new_script_filter(&block_id(), &block, &resolver);
    assert!(matches!(r, Err(FilterError::MalformedChainData)));
}

#[test]
fn truncated_count_is_malformed() {
    // a continuation bit with nothing after it
    let block = vec![0x80u8];
    let resolver = BoxMap { entries: Vec::new() };
    let r = ErgoFilter::new_script_filter(&block_id(), &block, &resolver);
    assert!(matches!(r, Err(FilterError::MalformedChainData)));
}

#[test]
fn unknown_box_fails_the_build() {
    let resolver = BoxMap { entries: Vec::new() };
    let r = ErgoFilter::new_script_filter(&block_id(), &two_tx_block(), &resolver);
    match r {
        Err(FilterError::UnresolvedBox(id)) => assert_eq!(id, vec![0u8; 32]),
        _ => panic!("expected an unresolved-box failure"),
    }
}

#[test]
fn block_filter_holds_outputs_and_spent_scripts() {
    let spent_script = {
        let mut b = vec![0x00u8, 0x08, 0xcd, 0x03];
        b.extend_from_slice(&POINT_X);
        b
    };
    let resolver = resolver_with_zero_box(spent_script.clone());
    let f = ErgoFilter::new_script_filter(&block_id(), &two_tx_block(), &resolver).unwrap();

    let reader = RawFilterReader::new(&block_id());
    // the counted transaction's output script is indexed
    let out_hit = vec![p2pk_tree_bytes()];
    assert_eq!(reader.match_any(f.content.as_slice(), &out_hit).unwrap(), true);
    // so is the script of the box its input spends
    let in_hit = vec![spent_script];
    assert_eq!(reader.match_any(f.content.as_slice(), &in_hit).unwrap(), true);
    // an unrelated script is not
    let miss = vec![vec![0x00u8, 0x08, 0xcd, 0x03, 0x99, 0x98]];
    assert_eq!(reader.match_any(f.content.as_slice(), &miss).unwrap(), false);
}
