use vstd::prelude::*;
use vstd::arithmetic::power2::pow2;
use ergotree_ir::serialization::sigma_byte_reader::{SigmaByteRead, SigmaByteReader};
use ergotree_ir::serialization::SigmaSerializable;
use std::io::Cursor;
use crate::gcs::{build_spec, GcsFilterWriter};
use crate::util::FilterError;
use crate::utils::{keys_from_block_id, spec_key0, spec_key1, M};

verus! {

#[verifier::external_type_specification]
#[verifier::external_body]
#[verifier::reject_recursive_types(R)]
pub struct ExSigmaByteReader<R>(SigmaByteReader<R>);

#[verifier::external_type_specification]
#[verifier::external_body]
#[verifier::reject_recursive_types(T)]
pub struct ExCursor<T>(Cursor<T>);

/// The bytes a register-chain block reader has not yet consumed.
pub uninterp spec fn ergo_stream(r: SigmaByteReader<Cursor<Vec<u8>>>) -> Seq<u8>;

/// One transaction of a register-chain block, reduced to what the filter
/// reads: its outputs' serialized scripts and its inputs' box identifiers.
pub struct TxData {
    pub output_scripts: Vec<Vec<u8>>,
    pub input_box_ids: Vec<Vec<u8>>,
}

/// The mathematical value of a `TxData`.
pub ghost struct TxDataView {
    pub output_scripts: Seq<Seq<u8>>,
    pub input_box_ids: Seq<Seq<u8>>,
}

impl View for TxData {
    type V = TxDataView;

    open spec fn view(&self) -> TxDataView {
        TxDataView {
            output_scripts: self.output_scripts.deep_view(),
            input_box_ids: self.input_box_ids.deep_view(),
        }
    }
}

/// What one serialized transaction at the head of a byte stream parses to,
/// and the bytes that follow it; `None` where no transaction parses there.
pub uninterp spec fn tx_split(s: Seq<u8>) -> Option<(TxDataView, Seq<u8>)>;

/// Parse a base-128 variable-length integer, low seven-bit group first, at
/// byte `i` of `s`: its value and the position after it.  At most ten
/// groups; `None` past that or past the end of the stream.
pub open spec fn vlq_parse_rec(s: Seq<u8>, i: int, shift: nat) -> Option<(int, int)>
    decreases 70 - shift,
{
    if shift >= 64 {
        None
    } else if i < 0 || i >= s.len() {
        None
    } else {
        let b = s[i];
        if b < 128 {
            Some(((b as int) * pow2(shift) as int, i + 1))
        } else {
            match vlq_parse_rec(s, i + 1, (shift + 7) as nat) {
                None => None,
                Some(vj) => Some(((b - 128) * pow2(shift) as int + vj.0, vj.1)),
            }
        }
    }
}

/// The variable-length integer at byte `i` of `s`.
pub open spec fn vlq_parse(s: Seq<u8>, i: int) -> Option<(int, int)> {
    vlq_parse_rec(s, i, 0)
}

/// Relies on `ergotree_ir::serialization::sigma_byte_reader::from_bytes`:
/// a fresh reader whose stream is exactly the given bytes.
#[verifier::external_body]
fn reader_from_bytes(block: &[u8]) -> (r: SigmaByteReader<Cursor<Vec<u8>>>)
    ensures
        ergo_stream(r) == block@,
{
    ergotree_ir::serialization::sigma_byte_reader::from_bytes(block.to_vec())
}

/// Relies on `sigma_ser::vlq_encode::ReadSigmaVlqExt::get_u32`: a base-128
/// variable-length integer read off the stream, low group first, rejected
/// when it does not fit 32 bits.  Nothing is said of an encoding whose
/// mathematical value leaves the 64-bit domain.
#[verifier::external_body]
fn read_vlq_u32(r: &mut SigmaByteReader<Cursor<Vec<u8>>>) -> (res: Result<u32, FilterError>)
    ensures
        vlq_parse(ergo_stream(*old(r)), 0) matches Some(vj) ==> (vj.0 <= u32::MAX ==> (res matches
            Ok(v) && v == vj.0 && ergo_stream(*final(r)) == ergo_stream(*old(r)).skip(vj.1))),
        vlq_parse(ergo_stream(*old(r)), 0) is None ==> res is Err,
        res matches Err(e) ==> e is MalformedChainData,
{
    match sigma_ser::vlq_encode::ReadSigmaVlqExt::get_u32(r) {
        Ok(v) => Ok(v),
        Err(_) => Err(FilterError::MalformedChainData),
    }
}

/// Relies on ergo-lib's `Transaction::sigma_parse` to read one transaction
/// off the stream, and on ergotree-ir's
/// `SigmaSerializable::sigma_serialize_bytes` to hand each output's script
/// out as bytes.  The reader's val-def type store is cleared first, so that
/// the outcome is a function of the remaining stream bytes alone and not of
/// parser state an earlier transaction left behind.
#[verifier::external_body]
fn parse_tx(r: &mut SigmaByteReader<Cursor<Vec<u8>>>) -> (res: Result<TxData, FilterError>)
    ensures
        tx_split(ergo_stream(*old(r))) matches Some(tr) ==> (res matches Ok(t) && t@ == tr.0
            && ergo_stream(*final(r)) == tr.1),
        tx_split(ergo_stream(*old(r))) is None ==> res is Err,
        res matches Err(e) ==> e is MalformedChainData,
{
    *r.val_def_type_store() = Default::default();
    let tx = match ergo_lib::chain::transaction::Transaction::sigma_parse(r) {
        Ok(t) => t,
        Err(_) => return Err(FilterError::MalformedChainData),
    };
    let outs: Result<Vec<Vec<u8>>, _> =
        tx.output_candidates.iter().map(|o| o.ergo_tree.sigma_serialize_bytes()).collect();
    match outs {
        Ok(output_scripts) => Ok(TxData {
            output_scripts,
            input_box_ids: tx.inputs.iter().map(|i| i.box_id.as_ref().to_vec()).collect(),
        }),
        Err(_) => Err(FilterError::MalformedChainData),
    }
}

/// A resolver of box identifiers to their serialized locking scripts,
/// supplied by the caller of a build.
pub trait BoxResolver {
    /// The boxes the resolver knows, as a map from box identifier to
    /// serialized script.
    spec fn boxes(&self) -> Map<Seq<u8>, Seq<u8>>;

    /// Look one box identifier up.
    fn script_for_box(&self, box_id: &Vec<u8>) -> (r: Option<Vec<u8>>)
        ensures
            match r {
                Some(s) => self.boxes().contains_key(box_id@) && s@ == self.boxes()[box_id@],
                None => !self.boxes().contains_key(box_id@),
            },
    ;
}

/// One known box of a `BoxMap`.
pub struct BoxEntry {
    pub box_id: Vec<u8>,
    pub script: Vec<u8>,
}

/// An in-memory resolver: a list of boxes, looked up front to back.
pub struct BoxMap {
    pub entries: Vec<BoxEntry>,
}

/// The map carried by the entries from index `i` on; an earlier entry wins
/// over a later one with the same identifier.
pub open spec fn boxes_from(s: Seq<BoxEntry>, i: int) -> Map<Seq<u8>, Seq<u8>>
    decreases s.len() - i,
{
    if i < 0 || i >= s.len() {
        Map::empty()
    } else {
        boxes_from(s, i + 1).insert(s[i].box_id@, s[i].script@)
    }
}

proof fn lemma_boxes_from_first(s: Seq<BoxEntry>, i: int, j: int)
    requires
        0 <= i <= j < s.len(),
        forall|t: int| i <= t < j ==> s[t].box_id@ != s[j].box_id@,
    ensures
        boxes_from(s, i).contains_key(s[j].box_id@),
        boxes_from(s, i)[s[j].box_id@] == s[j].script@,
    decreases j - i,
{
    if i < j {
        lemma_boxes_from_first(s, i + 1, j);
    }
}

proof fn lemma_boxes_from_absent(s: Seq<BoxEntry>, i: int, key: Seq<u8>)
    requires
        0 <= i,
        forall|t: int| i <= t < s.len() ==> s[t].box_id@ != key,
    ensures
        !boxes_from(s, i).contains_key(key),
    decreases s.len() - i,
{
    if i < s.len() {
        lemma_boxes_from_absent(s, i + 1, key);
    }
}

impl BoxResolver for BoxMap {
    open spec fn boxes(&self) -> Map<Seq<u8>, Seq<u8>> {
        boxes_from(self.entries@, 0)
    }

    fn script_for_box(&self, box_id: &Vec<u8>) -> (r: Option<Vec<u8>>) {
        let n = self.entries.len();
        let mut i: usize = 0;
        while i < n
            invariant
                i <= n,
                n == self.entries@.len(),
                forall|t: int| 0 <= t < i ==> self.entries@[t].box_id@ != box_id@,
            decreases n - i,
        {
            let e = &self.entries[i];
            if crate::util::bytes_eq(e.box_id.as_slice(), box_id.as_slice()) {
                proof {
                    lemma_boxes_from_first(self.entries@, 0, i as int);
                }
                return Some(vstd::slice::slice_to_vec(e.script.as_slice()));
            }
            i = i + 1;
        }
        proof {
            lemma_boxes_from_absent(self.entries@, 0, box_id@);
        }
        None
    }
}

/// The first of the box identifiers that the resolver does not know.
pub open spec fn first_missing_box(ids: Seq<Seq<u8>>, boxes: Map<Seq<u8>, Seq<u8>>) -> Option<
    Seq<u8>,
>
    decreases ids.len(),
{
    if ids.len() == 0 {
        None
    } else if !boxes.contains_key(ids[0]) {
        Some(ids[0])
    } else {
        first_missing_box(ids.drop_first(), boxes)
    }
}

/// Where the first unknown box identifier stands; the list's length when
/// the resolver knows them all.
pub open spec fn first_missing_idx(ids: Seq<Seq<u8>>, boxes: Map<Seq<u8>, Seq<u8>>) -> int
    decreases ids.len(),
{
    if ids.len() == 0 {
        0
    } else if !boxes.contains_key(ids[0]) {
        0
    } else {
        1 + first_missing_idx(ids.drop_first(), boxes)
    }
}

/// The scripts the known boxes resolve to, in input order.
pub open spec fn box_scripts(ids: Seq<Seq<u8>>, boxes: Map<Seq<u8>, Seq<u8>>) -> Seq<Seq<u8>> {
    ids.map_values(|id: Seq<u8>| boxes[id])
}

/// What walking a register-chain block leaves behind.  Exactly one of
/// `missing` and `malformed` is set when the walk stops early; `added` is
/// every element the walk put into the filter, up to the point where it
/// stopped.
pub ghost struct ErgoScan {
    pub added: Seq<Seq<u8>>,
    pub missing: Option<Seq<u8>>,
    pub malformed: bool,
}

/// Walk transactions `idx` up to `n` at the head of stream `s`.  The
/// transaction at index 1 is parsed but contributes nothing (the chain's
/// coinbase analogue); every other transaction contributes all its output
/// scripts and the resolved script of every input box.  A transaction that
/// does not parse, or a box the resolver does not know, stops the walk.
pub open spec fn ergo_scan(s: Seq<u8>, idx: int, n: int, boxes: Map<Seq<u8>, Seq<u8>>) -> ErgoScan
    decreases n - idx,
{
    if idx >= n {
        ErgoScan { added: Seq::empty(), missing: None, malformed: false }
    } else {
        match tx_split(s) {
            None => ErgoScan { added: Seq::empty(), missing: None, malformed: true },
            Some(tr) => {
                if idx == 1 {
                    ergo_scan(tr.1, idx + 1, n, boxes)
                } else {
                    match first_missing_box(tr.0.input_box_ids, boxes) {
                        Some(bid) => ErgoScan {
                            added: tr.0.output_scripts + box_scripts(
                                tr.0.input_box_ids.take(
                                    first_missing_idx(tr.0.input_box_ids, boxes),
                                ),
                                boxes,
                            ),
                            missing: Some(bid),
                            malformed: false,
                        },
                        None => {
                            let rest = ergo_scan(tr.1, idx + 1, n, boxes);
                            ErgoScan {
                                added: (tr.0.output_scripts + box_scripts(
                                    tr.0.input_box_ids,
                                    boxes,
                                )) + rest.added,
                                missing: rest.missing,
                                malformed: rest.malformed,
                            }
                        },
                    }
                }
            },
        }
    }
}

/// What building a filter over a raw block payload leaves behind: the walk
/// of its transactions, after the transaction count prefix (with its
/// reserved-sentinel escape) is read.  `None` where the count encoding
/// leaves the 64-bit domain and nothing is said of the build.
pub open spec fn ergo_block_scan(block: Seq<u8>, boxes: Map<Seq<u8>, Seq<u8>>) -> Option<ErgoScan> {
    match vlq_parse(block, 0) {
        None => Some(ErgoScan { added: Seq::empty(), missing: None, malformed: true }),
        Some(vj) => if vj.0 > u32::MAX {
            None
        } else if vj.0 == 10000002 {
            match vlq_parse(block.skip(vj.1), 0) {
                None => Some(ErgoScan { added: Seq::empty(), missing: None, malformed: true }),
                Some(vj2) => if vj2.0 > u32::MAX {
                    None
                } else {
                    Some(ergo_scan(block.skip(vj.1).skip(vj2.1), 1, vj2.0, boxes))
                },
            }
        } else {
            Some(ergo_scan(block.skip(vj.1), 1, vj.0, boxes))
        },
    }
}

proof fn lemma_first_missing_at(ids: Seq<Seq<u8>>, boxes: Map<Seq<u8>, Seq<u8>>, j: int)
    requires
        0 <= j < ids.len(),
        forall|t: int| 0 <= t < j ==> boxes.contains_key(#[trigger] ids[t]),
        !boxes.contains_key(ids[j]),
    ensures
        first_missing_box(ids, boxes) == Some(ids[j]),
        first_missing_idx(ids, boxes) == j,
    decreases j,
{
    if j > 0 {
        assert(forall|t: int|
            0 <= t < j - 1 ==> boxes.contains_key(#[trigger] ids.drop_first()[t]));
        assert(ids.drop_first()[j - 1] == ids[j]);
        lemma_first_missing_at(ids.drop_first(), boxes, j - 1);
    }
}

proof fn lemma_first_missing_none(ids: Seq<Seq<u8>>, boxes: Map<Seq<u8>, Seq<u8>>)
    requires
        forall|t: int| 0 <= t < ids.len() ==> boxes.contains_key(#[trigger] ids[t]),
    ensures
        first_missing_box(ids, boxes) is None,
        first_missing_idx(ids, boxes) == ids.len(),
    decreases ids.len(),
{
    if ids.len() > 0 {
        assert(forall|t: int|
            0 <= t < ids.len() - 1 ==> boxes.contains_key(#[trigger] ids.drop_first()[t]));
        lemma_first_missing_none(ids.drop_first(), boxes);
    }
}

/// Walks a raw register-chain block payload and compiles its filter.
pub struct ErgoFilterWriter {
    reader: SigmaByteReader<Cursor<Vec<u8>>>,
    writer: GcsFilterWriter,
}

impl ErgoFilterWriter {
    /// The block bytes not yet walked.
    pub closed spec fn stream(&self) -> Seq<u8> {
        ergo_stream(self.reader)
    }

    /// The elements accumulated so far.
    pub closed spec fn elements(&self) -> Seq<Seq<u8>> {
        self.writer.elements()
    }

    /// The sip-hash keys the filter will be coded with.
    pub closed spec fn keys(&self) -> (u64, u64) {
        (self.writer.key0(), self.writer.key1())
    }

    /// Start a filter over a raw block payload, its keys drawn from the
    /// block's identifier.
    pub fn new(block_id: &[u8], block: &[u8]) -> (r: ErgoFilterWriter)
        requires
            block_id@.len() >= 16,
        ensures
            r.stream() == block@,
            r.elements() =~= Seq::<Seq<u8>>::empty(),
            r.keys() == (spec_key0(block_id@), spec_key1(block_id@)),
    {
        let (k0, k1) = keys_from_block_id(block_id);
        ErgoFilterWriter { reader: reader_from_bytes(block), writer: GcsFilterWriter::new(k0, k1) }
    }

    /// How many elements have been accumulated.
    pub fn element_count(&self) -> (r: usize)
        ensures
            r == self.elements().len(),
    {
        self.writer.element_count()
    }

    /// Walk the block: read the transaction count (honouring the reserved
    /// sentinel escape), parse each transaction, skip the one at index 1,
    /// and add every output script and every resolved input-box script.
    pub fn add_scripts<R: BoxResolver>(&mut self, script_for_coin: &R) -> (r: Result<
        (),
        FilterError,
    >)
        ensures
            final(self).keys() == old(self).keys(),
            ergo_block_scan(old(self).stream(), script_for_coin.boxes()) matches Some(scan) ==> ({
                &&& final(self).elements() == old(self).elements() + scan.added
                &&& (scan.malformed ==> (r matches Err(e) && e is MalformedChainData))
                &&& (scan.missing matches Some(b) ==> (r matches Err(e) && e matches
                    FilterError::UnresolvedBox(id) && id@ == b))
                &&& ((!scan.malformed && scan.missing is None) ==> r is Ok)
            }),
    {
        let ghost block0 = ergo_stream(self.reader);
        let ghost boxes = script_for_coin.boxes();
        let ghost base = self.writer.elements();
        let n0 = match read_vlq_u32(&mut self.reader) {
            Err(e) => {
                proof {
                    if ergo_block_scan(block0, boxes) is Some {
                        let scan = ergo_block_scan(block0, boxes)->Some_0;
                        assert(self.writer.elements() =~= base + scan.added);
                    }
                }
                return Err(e);
            },
            Ok(v) => v,
        };
        let n_tx: u32 = if n0 == 10000002 {
            match read_vlq_u32(&mut self.reader) {
                Err(e) => {
                    proof {
                        if ergo_block_scan(block0, boxes) is Some {
                            let scan = ergo_block_scan(block0, boxes)->Some_0;
                            assert(self.writer.elements() =~= base + scan.added);
                        }
                    }
                    return Err(e);
                },
                Ok(v) => v,
            }
        } else {
            n0
        };
        proof {
            if ergo_block_scan(block0, boxes) is Some {
                let scan = ergo_block_scan(block0, boxes)->Some_0;
                assert(scan == ergo_scan(ergo_stream(self.reader), 1, n_tx as int, boxes));
            }
        }
        let ghost mut acc: Seq<Seq<u8>> = Seq::empty();
        let mut i: u32 = 1;
        proof {
            if ergo_block_scan(block0, boxes) is Some {
                let scan = ergo_block_scan(block0, boxes)->Some_0;
                let cur = ergo_scan(ergo_stream(self.reader), i as int, n_tx as int, boxes);
                assert(scan.added =~= acc + cur.added);
            }
        }
        while i < n_tx
            invariant
                1 <= i,
                i <= n_tx || i == 1,
                boxes == script_for_coin.boxes(),
                block0 == old(self).stream(),
                self.writer.key0() == old(self).writer.key0(),
                self.writer.key1() == old(self).writer.key1(),
                base == old(self).writer.elements(),
                self.writer.elements() == base + acc,
                ergo_block_scan(block0, boxes) matches Some(scan) ==> ({
                    let cur = ergo_scan(ergo_stream(self.reader), i as int, n_tx as int, boxes);
                    &&& scan.added == acc + cur.added
                    &&& scan.missing == cur.missing
                    &&& scan.malformed == cur.malformed
                }),
            decreases n_tx - i,
        {
            let ghost sentry = ergo_stream(self.reader);
            let tx = match parse_tx(&mut self.reader) {
                Err(e) => {
                    proof {
                        if ergo_block_scan(block0, boxes) is Some {
                            let scan = ergo_block_scan(block0, boxes)->Some_0;
                            assert(tx_split(sentry) is None);
                            assert(scan.added =~= acc);
                            assert(self.writer.elements() =~= base + scan.added);
                        }
                    }
                    return Err(e);
                },
                Ok(t) => t,
            };
            proof {
                assert(tx_split(sentry) matches Some(tr) && tx@ == tr.0 && ergo_stream(
                    self.reader,
                ) == tr.1);
            }
            if i > 1 {
                let ghost tv = tx@;
                let ghost after_tx = ergo_stream(self.reader);
                let ghost acctx = acc;
                let mut j: usize = 0;
                while j < tx.output_scripts.len()
                    invariant
                        j <= tx.output_scripts@.len(),
                        tv == tx@,
                        base == old(self).writer.elements(),
                        self.writer.key0() == old(self).writer.key0(),
                        self.writer.key1() == old(self).writer.key1(),
                        self.writer.elements() == base + acc,
                        ergo_stream(self.reader) == after_tx,
                        acc == acctx + tv.output_scripts.take(j as int),
                    decreases tx.output_scripts@.len() - j,
                {
                    self.writer.add_element(tx.output_scripts[j].as_slice());
                    proof {
                        assert(tv.output_scripts[j as int] =~= tx.output_scripts@[j as int]@);
                        acc = acc.push(tv.output_scripts[j as int]);
                        assert(self.writer.elements() =~= base + acc);
                        assert(acc =~= acctx + tv.output_scripts.take(j as int + 1));
                    }
                    j = j + 1;
                }
                proof {
                    assert(tv.output_scripts.take(tv.output_scripts.len() as int)
                        =~= tv.output_scripts);
                }
                let mut j2: usize = 0;
                while j2 < tx.input_box_ids.len()
                    invariant
                        j2 <= tx.input_box_ids@.len(),
                        tv == tx@,
                        boxes == script_for_coin.boxes(),
                        base == old(self).writer.elements(),
                        self.writer.key0() == old(self).writer.key0(),
                        self.writer.key1() == old(self).writer.key1(),
                        self.writer.elements() == base + acc,
                        block0 == old(self).stream(),
                        ergo_stream(self.reader) == after_tx,
                        1 < i < n_tx,
                        tx_split(sentry) matches Some(tr) && tr.0 == tv && tr.1 == after_tx,
                        ergo_block_scan(block0, boxes) matches Some(scan) ==> ({
                            let cur = ergo_scan(sentry, i as int, n_tx as int, boxes);
                            &&& scan.added == acctx + cur.added
                            &&& scan.missing == cur.missing
                            &&& scan.malformed == cur.malformed
                        }),
                        forall|t: int|
                            0 <= t < j2 ==> boxes.contains_key(#[trigger] tv.input_box_ids[t]),
                        acc == (acctx + tv.output_scripts) + box_scripts(
                            tv.input_box_ids.take(j2 as int),
                            boxes,
                        ),
                    decreases tx.input_box_ids@.len() - j2,
                {
                    proof {
                        assert(tv.input_box_ids[j2 as int] =~= tx.input_box_ids@[j2 as int]@);
                    }
                    match script_for_coin.script_for_box(&tx.input_box_ids[j2]) {
                        Some(script) => {
                            self.writer.add_element(script.as_slice());
                            proof {
                                acc = acc.push(script@);
                                assert(self.writer.elements() =~= base + acc);
                                assert(box_scripts(tv.input_box_ids.take(j2 as int + 1), boxes)
                                    =~= box_scripts(tv.input_box_ids.take(j2 as int), boxes).push(
                                    boxes[tv.input_box_ids[j2 as int]],
                                ));
                                assert(acc =~= (acctx + tv.output_scripts) + box_scripts(
                                    tv.input_box_ids.take(j2 as int + 1),
                                    boxes,
                                ));
                            }
                        },
                        None => {
                            proof {
                                lemma_first_missing_at(tv.input_box_ids, boxes, j2 as int);
                                let cur = ergo_scan(sentry, i as int, n_tx as int, boxes);
                                assert(cur.missing == Some(tv.input_box_ids[j2 as int]));
                                assert(cur.added == tv.output_scripts + box_scripts(
                                    tv.input_box_ids.take(j2 as int),
                                    boxes,
                                ));
                                if ergo_block_scan(block0, boxes) is Some {
                                    let scan = ergo_block_scan(block0, boxes)->Some_0;
                                    assert(scan.added =~= acc) by {
                                        assert(acctx + (tv.output_scripts + box_scripts(
                                            tv.input_box_ids.take(j2 as int),
                                            boxes,
                                        )) =~= (acctx + tv.output_scripts) + box_scripts(
                                            tv.input_box_ids.take(j2 as int),
                                            boxes,
                                        ));
                                    };
                                    assert(self.writer.elements() =~= base + scan.added);
                                }
                            }
                            return Err(
                                FilterError::UnresolvedBox(
                                    vstd::slice::slice_to_vec(tx.input_box_ids[j2].as_slice()),
                                ),
                            );
                        },
                    }
                    j2 = j2 + 1;
                }
                proof {
                    lemma_first_missing_none(tv.input_box_ids, boxes);
                    assert(tv.input_box_ids.take(tv.input_box_ids.len() as int)
                        =~= tv.input_box_ids);
                    let cur = ergo_scan(sentry, i as int, n_tx as int, boxes);
                    let cur2 = ergo_scan(after_tx, i as int + 1, n_tx as int, boxes);
                    assert(cur.added == (tv.output_scripts + box_scripts(tv.input_box_ids, boxes))
                        + cur2.added);
                    assert(cur.missing == cur2.missing);
                    assert(cur.malformed == cur2.malformed);
                    assert(acc =~= acctx + (tv.output_scripts + box_scripts(
                        tv.input_box_ids,
                        boxes,
                    )));
                    if ergo_block_scan(block0, boxes) is Some {
                        let scan = ergo_block_scan(block0, boxes)->Some_0;
                        assert(scan.added =~= acc + cur2.added) by {
                            assert(acctx + ((tv.output_scripts + box_scripts(
                                tv.input_box_ids,
                                boxes,
                            )) + cur2.added) =~= (acctx + (tv.output_scripts + box_scripts(
                                tv.input_box_ids,
                                boxes,
                            ))) + cur2.added);
                        };
                    }
                }
            } else {
                proof {
                    assert(ergo_scan(sentry, 1, n_tx as int, boxes) == ergo_scan(
                        ergo_stream(self.reader),
                        2,
                        n_tx as int,
                        boxes,
                    ));
                }
            }
            i = i + 1;
        }
        proof {
            if ergo_block_scan(block0, boxes) is Some {
                let scan = ergo_block_scan(block0, boxes)->Some_0;
                assert(scan.added =~= acc);
                assert(self.writer.elements() =~= base + scan.added);
            }
        }
        Ok(())
    }

    /// Encode the accumulated filter.
    pub fn finish(&self) -> (r: Vec<u8>)
        requires
            self.elements().len() * M <= u64::MAX,
        ensures
            r@ =~= build_spec(self.elements(), self.keys().0, self.keys().1),
    {
        self.writer.finish()
    }
}

/// A filter over a register-chain block that holds every output script and
/// every spent box script of its transactions.
pub struct ErgoFilter {
    /// Golomb-Rice encoded filter
    pub content: Vec<u8>,
}

impl ErgoFilter {
    /// Wrap a filter received as pre-computed bytes.
    pub fn new(content: &[u8]) -> (r: ErgoFilter)
        ensures
            r.content@ == content@,
    {
        ErgoFilter { content: vstd::slice::slice_to_vec(content) }
    }

    /// Build the script filter of a register-chain block from its raw
    /// serialized payload, as the chain's node hands it out.  A transaction
    /// that does not deserialize, or a box the resolver does not know, is
    /// fatal: no partial filter is returned.
    pub fn new_script_filter<R: BoxResolver>(
        block_id: &[u8],
        block: &[u8],
        script_for_coin: &R,
    ) -> (r: Result<ErgoFilter, FilterError>)
        requires
            block_id@.len() >= 16,
        ensures
            ergo_block_scan(block@, script_for_coin.boxes()) matches Some(sc) ==> ({
                &&& (sc.malformed ==> (r matches Err(e) && e is MalformedChainData))
                &&& (sc.missing matches Some(b) ==> (r matches Err(e) && e matches
                    FilterError::UnresolvedBox(id) && id@ == b))
                &&& ((!sc.malformed && sc.missing is None && sc.added.len() * M <= u64::MAX) ==> (
                r matches Ok(f) && f.content@ == build_spec(
                    sc.added,
                    spec_key0(block_id@),
                    spec_key1(block_id@),
                )))
            }),
    {
        let mut writer = ErgoFilterWriter::new(block_id, block);
        match writer.add_scripts(script_for_coin) {
            Err(e) => {
                return Err(e);
            },
            Ok(_) => {},
        }
        let count = writer.element_count();
        proof {
            crate::gcs::lemma_nm_fits(count as u64);
        }
        if count as u64 > u64::MAX / M {
            return Err(FilterError::MalformedChainData);
        }
        proof {
            if ergo_block_scan(block@, script_for_coin.boxes()) is Some {
                let sc = ergo_block_scan(block@, script_for_coin.boxes())->Some_0;
                if !sc.malformed && sc.missing is None {
                    assert(writer.elements() =~= Seq::<Seq<u8>>::empty() + sc.added);
                    assert(writer.elements() =~= sc.added);
                }
            }
        }
        let content = writer.finish();
        Ok(ErgoFilter { content })
    }
}

} // verus!
