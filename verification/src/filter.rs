use vstd::prelude::*;
use crate::gcs::{gcs_match_all, gcs_match_any, spec_match_all, spec_match_any};
use crate::util::FilterError;
use crate::utils::{keys_from_block_id, spec_key0, spec_key1};

verus! {

/// Which ledger a filter belongs to.
#[derive(Clone, Copy, PartialEq, Eq, Structural, Debug)]
pub enum FilterCurrency {
    Btc,
    Ergo,
}

/// One filter of any supported ledger: a tag and the encoded bytes.  The
/// facade carries no selection logic; it lets a caller hold one filter value
/// per chain without branching on the chain at the call site.
pub enum ErgveinFilter {
    Btc(crate::btc::ErgveinFilter),
    Ergo(crate::ergo::ErgoFilter),
}

impl ErgveinFilter {
    /// The ledger this filter belongs to.
    pub open spec fn spec_currency(&self) -> FilterCurrency {
        match self {
            ErgveinFilter::Btc(_) => FilterCurrency::Btc,
            ErgveinFilter::Ergo(_) => FilterCurrency::Ergo,
        }
    }

    /// The encoded filter bytes.
    pub open spec fn spec_content(&self) -> Seq<u8> {
        match self {
            ErgveinFilter::Btc(f) => f.content@,
            ErgveinFilter::Ergo(f) => f.content@,
        }
    }

    /// Wrap a filter received as pre-computed bytes.
    pub fn new(currency: FilterCurrency, content: &[u8]) -> (r: ErgveinFilter)
        ensures
            r.spec_currency() == currency,
            r.spec_content() == content@,
    {
        match currency {
            FilterCurrency::Btc => ErgveinFilter::Btc(crate::btc::ErgveinFilter::new(content)),
            FilterCurrency::Ergo => ErgveinFilter::Ergo(crate::ergo::ErgoFilter::new(content)),
        }
    }

    /// The currency tag of the filter.
    pub fn currency(&self) -> (r: FilterCurrency)
        ensures
            r == self.spec_currency(),
    {
        match self {
            ErgveinFilter::Btc(_) => FilterCurrency::Btc,
            ErgveinFilter::Ergo(_) => FilterCurrency::Ergo,
        }
    }

    /// The raw content of the filter.
    pub fn content(&self) -> (r: &[u8])
        ensures
            r@ == self.spec_content(),
    {
        match self {
            ErgveinFilter::Btc(f) => f.content.as_slice(),
            ErgveinFilter::Ergo(f) => f.content.as_slice(),
        }
    }

    /// Does any of the query elements stand in the filter?  The keys come
    /// from the identifying hash of the block the filter belongs to.
    pub fn match_any(&self, block_hash: &[u8], query: &Vec<Vec<u8>>) -> (r: Result<
        bool,
        FilterError,
    >)
        requires
            block_hash@.len() >= 16,
        ensures
            ({
                let sm = spec_match_any(
                    self.spec_content(),
                    spec_key0(block_hash@),
                    spec_key1(block_hash@),
                    query.deep_view(),
                );
                &&& (sm matches Some(b) ==> r == Ok::<bool, FilterError>(b))
                &&& (sm is None ==> (r matches Err(e) && e is CorruptFilter))
            }),
    {
        let filter_reader = RawFilterReader::new(block_hash);
        filter_reader.match_any(self.content(), query)
    }

    /// Do all of the query elements stand in the filter?
    pub fn match_all(&self, block_hash: &[u8], query: &Vec<Vec<u8>>) -> (r: Result<
        bool,
        FilterError,
    >)
        requires
            block_hash@.len() >= 16,
        ensures
            ({
                let sm = spec_match_all(
                    self.spec_content(),
                    spec_key0(block_hash@),
                    spec_key1(block_hash@),
                    query.deep_view(),
                );
                &&& (sm matches Some(b) ==> r == Ok::<bool, FilterError>(b))
                &&& (sm is None ==> (r matches Err(e) && e is CorruptFilter))
            }),
    {
        let filter_reader = RawFilterReader::new(block_hash);
        filter_reader.match_all(self.content(), query)
    }
}

/// Reads and matches an encoded filter whose keys come from a block's
/// identifying hash.
pub struct RawFilterReader {
    k0: u64,
    k1: u64,
}

impl RawFilterReader {
    pub closed spec fn keys(&self) -> (u64, u64) {
        (self.k0, self.k1)
    }

    /// A reader keyed by the block's identifying hash.
    pub fn new(block_hash: &[u8]) -> (r: RawFilterReader)
        requires
            block_hash@.len() >= 16,
        ensures
            r.keys() == (spec_key0(block_hash@), spec_key1(block_hash@)),
    {
        let (k0, k1) = keys_from_block_id(block_hash);
        RawFilterReader { k0, k1 }
    }

    /// Does any of the query elements stand in the encoded filter?
    pub fn match_any(&self, content: &[u8], query: &Vec<Vec<u8>>) -> (r: Result<bool, FilterError>)
        ensures
            ({
                let sm = spec_match_any(content@, self.keys().0, self.keys().1, query.deep_view());
                &&& (sm matches Some(b) ==> r == Ok::<bool, FilterError>(b))
                &&& (sm is None ==> (r matches Err(e) && e is CorruptFilter))
            }),
    {
        match gcs_match_any(content, self.k0, self.k1, query) {
            Some(b) => Ok(b),
            None => Err(FilterError::CorruptFilter),
        }
    }

    /// Do all of the query elements stand in the encoded filter?
    pub fn match_all(&self, content: &[u8], query: &Vec<Vec<u8>>) -> (r: Result<bool, FilterError>)
        ensures
            ({
                let sm = spec_match_all(content@, self.keys().0, self.keys().1, query.deep_view());
                &&& (sm matches Some(b) ==> r == Ok::<bool, FilterError>(b))
                &&& (sm is None ==> (r matches Err(e) && e is CorruptFilter))
            }),
    {
        match gcs_match_all(content, self.k0, self.k1, query) {
            Some(b) => Ok(b),
            None => Err(FilterError::CorruptFilter),
        }
    }
}

} // verus!
