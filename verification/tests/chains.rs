use ergvein_filters::btc::ErgveinFilter;
use ergvein_filters::filter::{ErgveinFilter as AnyFilter, FilterCurrency};
use ergvein_filters::mempool::ErgveinMempoolFilter;
use ergvein_filters::util::{
    is_script_indexable, Block, CoinEntry, CoinMap, FilterError, OutPoint, Tx, TxIn, TxOut,
};

fn p2wpkh(seed: u8) -> Vec<u8> {
    let mut s = vec![0x00u8, 0x14];
    s.extend(std::iter::repeat(seed).take(20));
    s
}

fn p2wsh(seed: u8) -> Vec<u8> {
    let mut s = vec![0x00u8, 0x20];
    s.extend(std::iter::repeat(seed).take(32));
    s
}

fn op_return(payload: &[u8]) -> Vec<u8> {
    let mut s = vec![0x6au8];
    s.extend_from_slice(payload);
    s
}

fn p2pkh(seed: u8) -> Vec<u8> {
    // legacy pay-to-public-key-hash: deliberately not indexable
    let mut s = vec![0x76u8, 0xa9, 0x14];
    s.extend(std::iter::repeat(seed).take(20));
    s.extend_from_slice(&[0x88, 0xac]);
    s
}

fn outpoint(txid_byte: u8, vout: u32) -> OutPoint {
    OutPoint { txid: vec![txid_byte; 32], vout }
}

fn tx(outputs: Vec<Vec<u8>>, inputs: Vec<(Vec<u8>, OutPoint)>) -> Tx {
    Tx {
        output: outputs.into_iter().map(|s| TxOut { script_pubkey: s }).collect(),
        input: inputs
            .into_iter()
            .map(|(sig, op)| TxIn { script_sig: sig, previous_output: op })
            .collect(),
    }
}

fn block_hash() -> Vec<u8> {
    (0u8..32).collect()
}

#[test]
fn indexable_scripts() {
    assert!(is_script_indexable(&p2wpkh(1)));
    assert!(is_script_indexable(&p2wsh(2)));
    assert!(is_script_indexable(&op_return(b"data")));
    assert!(is_script_indexable(&[0x6a]));
    assert!(!is_script_indexable(&[]));
    assert!(!is_script_indexable(&p2pkh(3)));
    // right length but wrong witness version
    let mut nearly = p2wpkh(4);
    nearly[0] = 0x51;
    assert!(!is_script_indexable(&nearly));
}

#[test]
fn block_filter_matches_own_outputs() {
    let coinbase = tx(vec![p2pkh(9)], vec![(vec![0xaa], outpoint(0, 0))]);
    let spend = tx(vec![p2wpkh(1), p2wsh(2), p2pkh(3)], vec![]);
    let block = Block { block_hash: block_hash(), txdata: vec![coinbase, spend] };
    let coins = CoinMap { entries: Vec::new() };
    let filter = ErgveinFilter::new_script_filter(&block, &coins).unwrap();

    let hit = vec![p2wpkh(1)];
    assert_eq!(filter.match_any(&block_hash(), &hit).unwrap(), true);
    let hit2 = vec![p2wsh(2)];
    assert_eq!(filter.match_any(&block_hash(), &hit2).unwrap(), true);
    // the legacy output is not indexed
    let miss = vec![p2pkh(3)];
    assert_eq!(filter.match_any(&block_hash(), &miss).unwrap(), false);
    // both indexable outputs at once
    let both = vec![p2wpkh(1), p2wsh(2)];
    assert_eq!(filter.match_all(&block_hash(), &both).unwrap(), true);
}

#[test]
fn block_filter_indexes_resolved_inputs() {
    let coinbase = tx(vec![p2pkh(9)], vec![]);
    let spender = tx(vec![], vec![(Vec::new(), outpoint(5, 0))]);
    let block = Block { block_hash: block_hash(), txdata: vec![coinbase, spender] };
    let spent_script = p2wpkh(7);
    let coins = CoinMap {
        entries: vec![CoinEntry { outpoint: outpoint(5, 0), script: spent_script.clone() }],
    };
    let filter = ErgveinFilter::new_script_filter(&block, &coins).unwrap();
    let hit = vec![spent_script];
    assert_eq!(filter.match_any(&block_hash(), &hit).unwrap(), true);
}

#[test]
fn block_filter_skips_nonempty_script_sig_inputs() {
    let coinbase = tx(vec![], vec![]);
    // a legacy-style input: its unlock script is not empty, so its previous
    // output is never resolved
    let spender = tx(vec![], vec![(vec![0x01, 0x02], outpoint(5, 0))]);
    let block = Block { block_hash: block_hash(), txdata: vec![coinbase, spender] };
    let spent_script = p2wpkh(7);
    let coins = CoinMap {
        entries: vec![CoinEntry { outpoint: outpoint(5, 0), script: spent_script.clone() }],
    };
    let filter = ErgveinFilter::new_script_filter(&block, &coins).unwrap();
    let probe = vec![spent_script];
    assert_eq!(filter.match_any(&block_hash(), &probe).unwrap(), false);
}

#[test]
fn block_build_ignores_unresolvable_coinbase_inputs() {
    // the coinbase has inputs that resolve nowhere; they are never inspected
    let coinbase = tx(vec![p2wpkh(1)], vec![(Vec::new(), outpoint(0xee, 7))]);
    let block = Block { block_hash: block_hash(), txdata: vec![coinbase] };
    let coins = CoinMap { entries: Vec::new() };
    let filter = ErgveinFilter::new_script_filter(&block, &coins).unwrap();
    let hit = vec![p2wpkh(1)];
    assert_eq!(filter.match_any(&block_hash(), &hit).unwrap(), true);
}

#[test]
fn block_build_swallows_missing_coins() {
    // a non-coinbase segwit input that cannot be resolved is skipped, the
    // build still succeeds
    let coinbase = tx(vec![], vec![]);
    let spender = tx(vec![p2wpkh(2)], vec![(Vec::new(), outpoint(0xee, 7))]);
    let block = Block { block_hash: block_hash(), txdata: vec![coinbase, spender] };
    let coins = CoinMap { entries: Vec::new() };
    let filter = ErgveinFilter::new_script_filter(&block, &coins).unwrap();
    assert_eq!(filter.match_any(&block_hash(), &vec![p2wpkh(2)]).unwrap(), true);
}

#[test]
fn mempool_build_fails_on_missing_coin() {
    let spender = tx(vec![p2wpkh(2)], vec![(Vec::new(), outpoint(0xee, 7))]);
    let coins = CoinMap { entries: Vec::new() };
    let r = ErgveinMempoolFilter::new_script_filter(1, 2, vec![spender], &coins);
    match r {
        Err(FilterError::UtxoMissing(op)) => {
            assert_eq!(op.txid, vec![0xee; 32]);
            assert_eq!(op.vout, 7);
        },
        _ => panic!("expected a missing-utxo failure"),
    }
}

#[test]
fn mempool_build_and_match() {
    let k0 = u64::from_le_bytes(*b"qwertyui");
    let k1 = u64::from_le_bytes(*b"opasdfgh");
    let spent = p2wsh(0x33);
    let make_t1 = || tx(vec![p2wpkh(1), op_return(b"tag")], vec![(Vec::new(), outpoint(5, 0))]);
    let t2 = tx(vec![p2pkh(6)], vec![]);
    let coins =
        CoinMap { entries: vec![CoinEntry { outpoint: outpoint(5, 0), script: spent.clone() }] };
    let filter =
        ErgveinMempoolFilter::new_script_filter(k0, k1, vec![make_t1(), t2], &coins).unwrap();

    // every indexable output of the first transaction matches
    assert_eq!(filter.match_tx_outputs(k0, k1, &make_t1()).unwrap(), true);
    assert_eq!(filter.match_any(k0, k1, &vec![spent]).unwrap(), true);
    assert_eq!(filter.match_any(k0, k1, &vec![p2pkh(6)]).unwrap(), false);
    // a transaction with no indexable output does not match
    let plain = tx(vec![p2pkh(6)], vec![]);
    assert_eq!(filter.match_tx_outputs(k0, k1, &plain).unwrap(), false);
}

#[test]
fn fixed_transaction_scenario() {
    // a fixed two-output, one-input transaction whose sole indexable output
    // is a witness-pubkey-hash script
    let wpkh = p2wpkh(0x42);
    let t = tx(vec![wpkh.clone(), p2pkh(0x43)], vec![(vec![0x01], outpoint(1, 0))]);
    let coinbase = tx(vec![], vec![]);
    let block = Block { block_hash: block_hash(), txdata: vec![coinbase, t] };
    let coins = CoinMap { entries: Vec::new() };
    let filter = ErgveinFilter::new_script_filter(&block, &coins).unwrap();

    assert_eq!(filter.match_any(&block_hash(), &vec![wpkh]).unwrap(), true);
    let unrelated = vec![vec![0x55u8; 20]];
    assert_eq!(filter.match_any(&block_hash(), &unrelated).unwrap(), false);
}

#[test]
fn corrupt_filter_bytes_error() {
    let filter = ErgveinFilter::new(&[0x09, 0xff]);
    let r = filter.match_any(&block_hash(), &vec![vec![1u8, 2, 3]]);
    assert!(matches!(r, Err(FilterError::CorruptFilter)));
}

#[test]
fn facade_tags_and_content() {
    let content = vec![0x00u8];
    let f = AnyFilter::new(FilterCurrency::Btc, &content);
    assert_eq!(f.currency(), FilterCurrency::Btc);
    assert_eq!(f.content(), content.as_slice());
    let g = AnyFilter::new(FilterCurrency::Ergo, &content);
    assert_eq!(g.currency(), FilterCurrency::Ergo);
    assert_eq!(g.content(), content.as_slice());
}

#[test]
fn facade_matches_like_the_chain_filter() {
    let coinbase = tx(vec![], vec![]);
    let spend = tx(vec![p2wpkh(1)], vec![]);
    let block = Block { block_hash: block_hash(), txdata: vec![coinbase, spend] };
    let coins = CoinMap { entries: Vec::new() };
    let filter = ErgveinFilter::new_script_filter(&block, &coins).unwrap();
    let facade = AnyFilter::new(FilterCurrency::Btc, filter.content.as_slice());
    assert_eq!(facade.match_any(&block_hash(), &vec![p2wpkh(1)]).unwrap(), true);
    assert_eq!(facade.match_any(&block_hash(), &vec![p2wpkh(9)]).unwrap(), false);
    assert_eq!(facade.match_all(&block_hash(), &vec![p2wpkh(1)]).unwrap(), true);
}
