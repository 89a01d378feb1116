use vstd::prelude::*;
use crate::gcs::{
    build_spec, gcs_match_all, gcs_match_any, spec_match_all, spec_match_any, GcsFilterWriter,
};
use crate::util::{
    add_input_scripts, add_output_scripts, input_scan, lemma_input_scan_bound,
    lemma_output_scripts_bound, output_scripts, seq_views, total_inputs, total_outputs,
    FilterError, FilterWriter, OutPointView, ScriptResolver, Tx,
};
use crate::utils::M;

verus! {

/// The elements of a mempool filter over unconfirmed transactions: every
/// indexable output script, then every indexable script of a resolved
/// segwit-style input.  No transaction is skipped.
pub open spec fn mempool_elements(
    txs: Seq<crate::util::TxView>,
    coins: Map<OutPointView, Seq<u8>>,
) -> Seq<Seq<u8>> {
    output_scripts(txs, 0) + input_scan(txs, 0, 0, coins, false).added
}

/// A mempool filter holds no more elements than its transactions have
/// outputs and inputs, whatever the resolver knows.
pub proof fn lemma_mempool_elements_bound(
    txs: Seq<crate::util::TxView>,
    coins: Map<OutPointView, Seq<u8>>,
)
    ensures
        0 <= mempool_elements(txs, coins).len() <= total_outputs(txs, 0) + total_inputs(
            txs,
            0,
            0,
        ),
{
    lemma_output_scripts_bound(txs, 0);
    lemma_input_scan_bound(txs, 0, 0, coins, false);
}

/// A filter over the unconfirmed transactions of a mempool, keyed by
/// caller-supplied key material: a mempool has no block hash to derive keys
/// from.
pub struct ErgveinMempoolFilter {
    /// Golomb-Rice encoded filter
    pub content: Vec<u8>,
}

impl ErgveinMempoolFilter {
    /// Wrap a filter received as pre-computed bytes.
    pub fn new(content: &[u8]) -> (r: ErgveinMempoolFilter)
        ensures
            r.content@ == content@,
    {
        ErgveinMempoolFilter { content: vstd::slice::slice_to_vec(content) }
    }

    /// Build the script filter of a set of unconfirmed transactions: spent
    /// and output scripts, the selection policy applied.  An unresolved
    /// previous output aborts the build.
    pub fn new_script_filter<R: ScriptResolver>(
        k0: u64,
        k1: u64,
        txs: Vec<Tx>,
        script_for_coin: &R,
    ) -> (r: Result<ErgveinMempoolFilter, FilterError>)
        requires
            mempool_elements(seq_views(txs@), script_for_coin.coins()).len() * M <= u64::MAX,
        ensures
            ({
                let tv = seq_views(txs@);
                let scan = input_scan(tv, 0, 0, script_for_coin.coins(), false);
                &&& (scan.missing is None ==> (r matches Ok(f) && f.content@ == build_spec(
                    mempool_elements(tv, script_for_coin.coins()),
                    k0,
                    k1,
                )))
                &&& (scan.missing matches Some(op) ==> (r matches Err(e) && e matches
                    FilterError::UtxoMissing(o) && o@ == op))
            }),
    {
        let mut writer = MempoolFilterWriter::new(k0, k1);
        add_output_scripts(&mut writer, &txs);
        match add_input_scripts(&mut writer, &txs, script_for_coin) {
            Ok(_) => {},
            Err(e) => {
                return Err(e);
            },
        }
        proof {
            assert(Seq::<Seq<u8>>::empty() + output_scripts(seq_views(txs@), 0) + input_scan(
                seq_views(txs@),
                0,
                0,
                script_for_coin.coins(),
                false,
            ).added =~= mempool_elements(seq_views(txs@), script_for_coin.coins()));
        }
        let content = writer.finish();
        Ok(ErgveinMempoolFilter { content })
    }

    /// Match the output scripts of one transaction against the filter.
    pub fn match_tx_outputs(&self, k0: u64, k1: u64, tx: &Tx) -> (r: Result<bool, FilterError>)
        ensures
            ({
                let sm = spec_match_any(self.content@, k0, k1, tx@.output);
                &&& (sm matches Some(b) ==> r == Ok::<bool, FilterError>(b))
                &&& (sm is None ==> (r matches Err(e) && e is CorruptFilter))
            }),
    {
        let mut scripts: Vec<Vec<u8>> = Vec::new();
        let mut i: usize = 0;
        while i < tx.output.len()
            invariant
                i <= tx.output@.len(),
                scripts@.len() == i,
                forall|t: int| 0 <= t < i ==> scripts@[t]@ == tx@.output[t],
            decreases tx.output@.len() - i,
        {
            scripts.push(vstd::slice::slice_to_vec(tx.output[i].script_pubkey.as_slice()));
            proof {
                assert(tx@.output[i as int] == tx.output@[i as int]@);
            }
            i = i + 1;
        }
        proof {
            assert forall|t: int| 0 <= t < scripts@.len() implies scripts.deep_view()[t]
                == tx@.output[t] by {
                assert(scripts.deep_view()[t] =~= scripts@[t]@);
            }
            assert(scripts.deep_view() =~= tx@.output);
        }
        self.match_any(k0, k1, &scripts)
    }

    /// Does any of the query scripts stand in the filter?
    pub fn match_any(&self, k0: u64, k1: u64, query: &Vec<Vec<u8>>) -> (r: Result<
        bool,
        FilterError,
    >)
        ensures
            ({
                let sm = spec_match_any(self.content@, k0, k1, query.deep_view());
                &&& (sm matches Some(b) ==> r == Ok::<bool, FilterError>(b))
                &&& (sm is None ==> (r matches Err(e) && e is CorruptFilter))
            }),
    {
        let reader = MempoolFilterReader::new(k0, k1);
        reader.match_any(self.content.as_slice(), query)
    }

    /// Do all of the query scripts stand in the filter?
    pub fn match_all(&self, k0: u64, k1: u64, query: &Vec<Vec<u8>>) -> (r: Result<
        bool,
        FilterError,
    >)
        ensures
            ({
                let sm = spec_match_all(self.content@, k0, k1, query.deep_view());
                &&& (sm matches Some(b) ==> r == Ok::<bool, FilterError>(b))
                &&& (sm is None ==> (r matches Err(e) && e is CorruptFilter))
            }),
    {
        let reader = MempoolFilterReader::new(k0, k1);
        reader.match_all(self.content.as_slice(), query)
    }
}

/// Accumulates the elements of one mempool filter under caller-supplied
/// keys.
pub struct MempoolFilterWriter {
    gcs: GcsFilterWriter,
}

impl FilterWriter for MempoolFilterWriter {
    closed spec fn filter_elements(&self) -> Seq<Seq<u8>> {
        self.gcs.elements()
    }

    closed spec fn block_filter(&self) -> bool {
        false
    }

    closed spec fn filter_keys(&self) -> (u64, u64) {
        (self.gcs.key0(), self.gcs.key1())
    }

    fn add_filter_element(&mut self, data: &[u8]) {
        self.gcs.add_element(data);
    }

    fn is_block_filter(&mut self) -> (r: bool) {
        false
    }
}

impl MempoolFilterWriter {
    /// Start a mempool filter under the given keys.
    pub fn new(k0: u64, k1: u64) -> (r: MempoolFilterWriter)
        ensures
            r.filter_elements() =~= Seq::<Seq<u8>>::empty(),
            !r.block_filter(),
            r.filter_keys() == (k0, k1),
    {
        MempoolFilterWriter { gcs: GcsFilterWriter::new(k0, k1) }
    }

    /// Add an arbitrary element to the filter.
    pub fn add_element(&mut self, data: &[u8])
        ensures
            final(self).filter_elements() == old(self).filter_elements().push(data@),
            final(self).block_filter() == old(self).block_filter(),
            final(self).filter_keys() == old(self).filter_keys(),
    {
        self.gcs.add_element(data);
    }

    /// Encode the accumulated filter.
    pub fn finish(&self) -> (r: Vec<u8>)
        requires
            self.filter_elements().len() * M <= u64::MAX,
        ensures
            r@ =~= build_spec(self.filter_elements(), self.filter_keys().0, self.filter_keys().1),
    {
        self.gcs.finish()
    }
}

/// Reads and matches a mempool filter under caller-supplied keys.
pub struct MempoolFilterReader {
    k0: u64,
    k1: u64,
}

impl MempoolFilterReader {
    pub closed spec fn keys(&self) -> (u64, u64) {
        (self.k0, self.k1)
    }

    /// A reader for filters coded under the given keys.
    pub fn new(k0: u64, k1: u64) -> (r: MempoolFilterReader)
        ensures
            r.keys() == (k0, k1),
    {
        MempoolFilterReader { k0, k1 }
    }

    /// Does any of the query elements stand in the encoded filter?
    pub fn match_any(&self, content: &[u8], query: &Vec<Vec<u8>>) -> (r: Result<bool, FilterError>)
        ensures
            ({
                let sm = spec_match_any(content@, self.keys().0, self.keys().1, query.deep_view());
                &&& (sm matches Some(b) ==> r == Ok::<bool, FilterError>(b))
                &&& (sm is None ==> (r matches Err(e) && e is CorruptFilter))
            }),
    {
        match gcs_match_any(content, self.k0, self.k1, query) {
            Some(b) => Ok(b),
            None => Err(FilterError::CorruptFilter),
        }
    }

    /// Do all of the query elements stand in the encoded filter?
    pub fn match_all(&self, content: &[u8], query: &Vec<Vec<u8>>) -> (r: Result<bool, FilterError>)
        ensures
            ({
                let sm = spec_match_all(content@, self.keys().0, self.keys().1, query.deep_view());
                &&& (sm matches Some(b) ==> r == Ok::<bool, FilterError>(b))
                &&& (sm is None ==> (r matches Err(e) && e is CorruptFilter))
            }),
    {
        match gcs_match_all(content, self.k0, self.k1, query) {
            Some(b) => Ok(b),
            None => Err(FilterError::CorruptFilter),
        }
    }
}

} // verus!
