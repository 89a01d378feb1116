use vstd::prelude::*;
use crate::gcs::{build_spec, gcs_match_all, gcs_match_any, spec_match_all, spec_match_any, GcsFilterWriter};
use crate::util::{
    add_input_scripts, add_output_scripts, input_scan, lemma_input_scan_bound,
    lemma_output_scripts_bound, output_scripts, total_inputs, total_outputs, Block, FilterError,
    FilterWriter, OutPointView, ScriptResolver, Tx,
};
use crate::utils::{keys_from_block_id, spec_key0, spec_key1, M};

verus! {

/// The elements of a UTXO-chain block filter: every indexable output script,
/// then every indexable script of a resolved segwit-style input, the
/// coinbase transaction's inputs never inspected and unresolved references
/// skipped.
pub open spec fn btc_block_elements(
    txs: Seq<crate::util::TxView>,
    coins: Map<OutPointView, Seq<u8>>,
) -> Seq<Seq<u8>> {
    output_scripts(txs, 0) + input_scan(txs, 1, 0, coins, true).added
}

/// A block filter holds no more elements than the block has outputs and
/// inputs, whatever the resolver knows.
pub proof fn lemma_btc_block_elements_bound(
    txs: Seq<crate::util::TxView>,
    coins: Map<OutPointView, Seq<u8>>,
)
    ensures
        0 <= btc_block_elements(txs, coins).len() <= total_outputs(txs, 0) + total_inputs(
            txs,
            1,
            0,
        ),
{
    lemma_output_scripts_bound(txs, 0);
    lemma_input_scan_bound(txs, 1, 0, coins, true);
}

/// A block-filter walk never stops: unresolved references are skipped.
pub proof fn lemma_block_scan_never_fails(
    txs: Seq<crate::util::TxView>,
    i: int,
    j: int,
    coins: Map<OutPointView, Seq<u8>>,
)
    ensures
        input_scan(txs, i, j, coins, true).missing is None,
    decreases txs.len() - i, (if 0 <= i < txs.len() {
        txs[i].input.len() + 1 - j
    } else {
        0
    }),
{
    if i < 0 || i >= txs.len() || j < 0 {
    } else if j >= txs[i].input.len() {
        lemma_block_scan_never_fails(txs, i + 1, 0, coins);
    } else {
        lemma_block_scan_never_fails(txs, i, j + 1, coins);
    }
}

/// Accumulates the elements of one block filter, its keys drawn from the
/// block's identifying hash.
pub struct BlockFilterWriter {
    gcs: GcsFilterWriter,
}

impl FilterWriter for BlockFilterWriter {
    closed spec fn filter_elements(&self) -> Seq<Seq<u8>> {
        self.gcs.elements()
    }

    closed spec fn block_filter(&self) -> bool {
        true
    }

    closed spec fn filter_keys(&self) -> (u64, u64) {
        (self.gcs.key0(), self.gcs.key1())
    }

    fn add_filter_element(&mut self, data: &[u8]) {
        self.gcs.add_element(data);
    }

    fn is_block_filter(&mut self) -> (r: bool) {
        true
    }
}

impl BlockFilterWriter {
    /// Start a block filter whose keys come from the block's identifying
    /// hash.
    pub fn new(block_hash: &[u8]) -> (r: BlockFilterWriter)
        requires
            block_hash@.len() >= 16,
        ensures
            r.filter_elements() =~= Seq::<Seq<u8>>::empty(),
            r.block_filter(),
            r.filter_keys() == (spec_key0(block_hash@), spec_key1(block_hash@)),
    {
        let (k0, k1) = keys_from_block_id(block_hash);
        BlockFilterWriter { gcs: GcsFilterWriter::new(k0, k1) }
    }

    /// Encode the accumulated filter.
    pub fn finish(&self) -> (r: Vec<u8>)
        requires
            self.filter_elements().len() * M <= u64::MAX,
        ensures
            r@ =~= build_spec(self.filter_elements(), self.filter_keys().0, self.filter_keys().1),
    {
        self.gcs.finish()
    }
}

/// A BIP158-like filter over a UTXO-chain block that diverges only in which
/// data enters it: segwit scripts and data carriers alone, to save bandwidth
/// for light clients.
pub struct ErgveinFilter {
    /// Golomb-Rice encoded filter
    pub content: Vec<u8>,
}

impl ErgveinFilter {
    /// Wrap a filter received as pre-computed bytes.
    pub fn new(content: &[u8]) -> (r: ErgveinFilter)
        ensures
            r.content@ == content@,
    {
        ErgveinFilter { content: vstd::slice::slice_to_vec(content) }
    }

    /// Build the script filter of a block: spent and output scripts, the
    /// selection policy applied.  Unresolved previous outputs are skipped,
    /// never an error.
    pub fn new_script_filter<R: ScriptResolver>(block: &Block, script_for_coin: &R) -> (r: Result<
        ErgveinFilter,
        FilterError,
    >)
        requires
            block@.block_hash.len() >= 16,
            btc_block_elements(block@.txdata, script_for_coin.coins()).len() * M <= u64::MAX,
        ensures
            r matches Ok(f) && f.content@ == build_spec(
                btc_block_elements(block@.txdata, script_for_coin.coins()),
                spec_key0(block@.block_hash),
                spec_key1(block@.block_hash),
            ),
    {
        let mut writer = BlockFilterWriter::new(block.block_hash.as_slice());
        add_output_scripts(&mut writer, &block.txdata);
        let res = add_input_scripts(&mut writer, &block.txdata, script_for_coin);
        proof {
            lemma_block_scan_never_fails(block@.txdata, 1, 0, script_for_coin.coins());
        }
        match res {
            Ok(_) => {},
            Err(e) => {
                return Err(e);
            },
        }
        proof {
            assert(Seq::<Seq<u8>>::empty() + output_scripts(block@.txdata, 0) + input_scan(
                block@.txdata,
                1,
                0,
                script_for_coin.coins(),
                true,
            ).added =~= btc_block_elements(block@.txdata, script_for_coin.coins()));
        }
        let content = writer.finish();
        Ok(ErgveinFilter { content })
    }

    /// Match the output scripts of one transaction against the filter.
    pub fn match_tx_outputs(&self, block_hash: &[u8], tx: &Tx) -> (r: Result<bool, FilterError>)
        requires
            block_hash@.len() >= 16,
        ensures
            ({
                let sm = spec_match_any(
                    self.content@,
                    spec_key0(block_hash@),
                    spec_key1(block_hash@),
                    tx@.output,
                );
                &&& (sm matches Some(b) ==> r == Ok::<bool, FilterError>(b))
                &&& (sm is None ==> (r matches Err(e) && e is CorruptFilter))
            }),
    {
        let mut scripts: Vec<Vec<u8>> = Vec::new();
        let mut i: usize = 0;
        while i < tx.output.len()
            invariant
                i <= tx.output@.len(),
                scripts@.len() == i,
                forall|t: int| 0 <= t < i ==> scripts@[t]@ == tx@.output[t],
            decreases tx.output@.len() - i,
        {
            scripts.push(vstd::slice::slice_to_vec(tx.output[i].script_pubkey.as_slice()));
            proof {
                assert(tx@.output[i as int] == tx.output@[i as int]@);
            }
            i = i + 1;
        }
        proof {
            assert forall|t: int| 0 <= t < scripts@.len() implies scripts.deep_view()[t]
                == tx@.output[t] by {
                assert(scripts.deep_view()[t] =~= scripts@[t]@);
            }
            assert(scripts.deep_view() =~= tx@.output);
        }
        self.match_any(block_hash, &scripts)
    }

    /// Does any of the query scripts stand in the filter?
    pub fn match_any(&self, block_hash: &[u8], query: &Vec<Vec<u8>>) -> (r: Result<
        bool,
        FilterError,
    >)
        requires
            block_hash@.len() >= 16,
        ensures
            ({
                let sm = spec_match_any(
                    self.content@,
                    spec_key0(block_hash@),
                    spec_key1(block_hash@),
                    query.deep_view(),
                );
                &&& (sm matches Some(b) ==> r == Ok::<bool, FilterError>(b))
                &&& (sm is None ==> (r matches Err(e) && e is CorruptFilter))
            }),
    {
        let (k0, k1) = keys_from_block_id(block_hash);
        match gcs_match_any(self.content.as_slice(), k0, k1, query) {
            Some(b) => Ok(b),
            None => Err(FilterError::CorruptFilter),
        }
    }

    /// Do all of the query scripts stand in the filter?
    pub fn match_all(&self, block_hash: &[u8], query: &Vec<Vec<u8>>) -> (r: Result<
        bool,
        FilterError,
    >)
        requires
            block_hash@.len() >= 16,
        ensures
            ({
                let sm = spec_match_all(
                    self.content@,
                    spec_key0(block_hash@),
                    spec_key1(block_hash@),
                    query.deep_view(),
                );
                &&& (sm matches Some(b) ==> r == Ok::<bool, FilterError>(b))
                &&& (sm is None ==> (r matches Err(e) && e is CorruptFilter))
            }),
    {
        let (k0, k1) = keys_from_block_id(block_hash);
        match gcs_match_all(self.content.as_slice(), k0, k1, query) {
            Some(b) => Ok(b),
            None => Err(FilterError::CorruptFilter),
        }
    }
}

} // verus!
