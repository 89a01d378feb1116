use vstd::prelude::*;

verus! {

/// Why a filter operation failed.
#[derive(Debug)]
pub enum FilterError {
    /// The encoded filter ended or overflowed while decoding.
    CorruptFilter,
    /// A previous output could not be resolved during a mempool build.
    UtxoMissing(OutPoint),
    /// A box reference could not be resolved during a register-chain build.
    UnresolvedBox(Vec<u8>),
    /// The register-chain block payload did not deserialize.
    MalformedChainData,
}

/// A reference to the output of an earlier transaction.
#[derive(Debug)]
pub struct OutPoint {
    pub txid: Vec<u8>,
    pub vout: u32,
}

/// The mathematical value of an `OutPoint`.
pub ghost struct OutPointView {
    pub txid: Seq<u8>,
    pub vout: u32,
}

impl View for OutPoint {
    type V = OutPointView;

    open spec fn view(&self) -> OutPointView {
        OutPointView { txid: self.txid@, vout: self.vout }
    }
}

/// A transaction output: only its locking script matters to a filter.
pub struct TxOut {
    pub script_pubkey: Vec<u8>,
}

impl View for TxOut {
    type V = Seq<u8>;

    open spec fn view(&self) -> Seq<u8> {
        self.script_pubkey@
    }
}

/// A transaction input: its unlock script and the output it spends.
pub struct TxIn {
    pub script_sig: Vec<u8>,
    pub previous_output: OutPoint,
}

/// The mathematical value of a `TxIn`.
pub ghost struct TxInView {
    pub script_sig: Seq<u8>,
    pub previous_output: OutPointView,
}

impl View for TxIn {
    type V = TxInView;

    open spec fn view(&self) -> TxInView {
        TxInView { script_sig: self.script_sig@, previous_output: self.previous_output@ }
    }
}

/// A transaction, reduced to what filter construction reads.
pub struct Tx {
    pub input: Vec<TxIn>,
    pub output: Vec<TxOut>,
}

/// The mathematical value of a `Tx`.
pub ghost struct TxView {
    pub input: Seq<TxInView>,
    pub output: Seq<Seq<u8>>,
}

/// The values of a sequence of viewable things.
pub open spec fn seq_views<T: View>(s: Seq<T>) -> Seq<T::V> {
    s.map_values(|x: T| x@)
}

impl View for Tx {
    type V = TxView;

    open spec fn view(&self) -> TxView {
        TxView { input: seq_views(self.input@), output: seq_views(self.output@) }
    }
}

/// A block, reduced to its identifying hash and its transactions.
pub struct Block {
    pub block_hash: Vec<u8>,
    pub txdata: Vec<Tx>,
}

/// The mathematical value of a `Block`.
pub ghost struct BlockView {
    pub block_hash: Seq<u8>,
    pub txdata: Seq<TxView>,
}

impl View for Block {
    type V = BlockView;

    open spec fn view(&self) -> BlockView {
        BlockView { block_hash: self.block_hash@, txdata: seq_views(self.txdata@) }
    }
}

/// A pay-to-witness-public-key-hash script: version byte zero and a 20-byte
/// push.
pub open spec fn is_p2wpkh(s: Seq<u8>) -> bool {
    s.len() == 22 && s[0] == 0x00u8 && s[1] == 0x14u8
}

/// A pay-to-witness-script-hash script: version byte zero and a 32-byte push.
pub open spec fn is_p2wsh(s: Seq<u8>) -> bool {
    s.len() == 34 && s[0] == 0x00u8 && s[1] == 0x20u8
}

/// A data-carrier script: it opens with OP_RETURN.
pub open spec fn is_op_return(s: Seq<u8>) -> bool {
    s.len() >= 1 && s[0] == 0x6au8
}

/// Whether a script enters a filter: non-empty, and a witness program of
/// version zero or a data carrier.  Legacy script kinds are left out to save
/// bandwidth for light clients.
pub open spec fn is_indexable(s: Seq<u8>) -> bool {
    s.len() > 0 && (is_p2wsh(s) || is_p2wpkh(s) || is_op_return(s))
}

/// Decide whether a script enters a filter.
pub fn is_script_indexable(script: &[u8]) -> (r: bool)
    ensures
        r == is_indexable(script@),
{
    if script.len() == 0 {
        return false;
    }
    let b0 = *vstd::slice::slice_index_get(script, 0);
    if script.len() == 34 && b0 == 0x00 {
        if *vstd::slice::slice_index_get(script, 1) == 0x20 {
            return true;
        }
    }
    if script.len() == 22 && b0 == 0x00 {
        if *vstd::slice::slice_index_get(script, 1) == 0x14 {
            return true;
        }
    }
    b0 == 0x6a
}

/// Something that accumulates filter elements: the common face of the block
/// and mempool filter writers.
pub trait FilterWriter {
    /// The elements accumulated so far.
    spec fn filter_elements(&self) -> Seq<Seq<u8>>;

    /// Whether this writer builds a block filter (as opposed to a mempool
    /// filter).
    spec fn block_filter(&self) -> bool;

    /// The sip-hash keys the filter will be coded with.
    spec fn filter_keys(&self) -> (u64, u64);

    /// Append one element.
    fn add_filter_element(&mut self, data: &[u8])
        ensures
            final(self).filter_elements() == old(self).filter_elements().push(data@),
            final(self).block_filter() == old(self).block_filter(),
            final(self).filter_keys() == old(self).filter_keys(),
    ;

    /// Whether this writer builds a block filter.
    fn is_block_filter(&mut self) -> (r: bool)
        ensures
            r == old(self).block_filter(),
            final(self).filter_elements() == old(self).filter_elements(),
            final(self).block_filter() == old(self).block_filter(),
            final(self).filter_keys() == old(self).filter_keys(),
    ;
}

/// A resolver of previous outputs to their locking scripts, supplied by the
/// caller of a build.
pub trait ScriptResolver {
    /// The coins the resolver knows, as a map from output reference to
    /// locking script.
    spec fn coins(&self) -> Map<OutPointView, Seq<u8>>;

    /// Look one output reference up.
    fn script_for_coin(&self, coin: &OutPoint) -> (r: Option<Vec<u8>>)
        ensures
            match r {
                Some(s) => self.coins().contains_key(coin@) && s@ == self.coins()[coin@],
                None => !self.coins().contains_key(coin@),
            },
    ;
}

/// Byte-wise equality of two slices.
pub fn bytes_eq(a: &[u8], b: &[u8]) -> (r: bool)
    ensures
        r == (a@ == b@),
{
    if a.len() != b.len() {
        proof {
            assert(a@.len() != b@.len());
        }
        return false;
    }
    let n = a.len();
    let mut i: usize = 0;
    while i < n
        invariant
            i <= n,
            n == a@.len(),
            n == b@.len(),
            forall|t: int| 0 <= t < i ==> a@[t] == b@[t],
        decreases n - i,
    {
        if *vstd::slice::slice_index_get(a, i) != *vstd::slice::slice_index_get(b, i) {
            return false;
        }
        i = i + 1;
    }
    proof {
        assert(a@ =~= b@);
    }
    true
}

/// One known coin of a `CoinMap`.
pub struct CoinEntry {
    pub outpoint: OutPoint,
    pub script: Vec<u8>,
}

/// An in-memory resolver: a list of coins, looked up front to back.
pub struct CoinMap {
    pub entries: Vec<CoinEntry>,
}

/// The map carried by the entries from index `i` on; an earlier entry wins
/// over a later one with the same output reference.
pub open spec fn coins_from(s: Seq<CoinEntry>, i: int) -> Map<OutPointView, Seq<u8>>
    decreases s.len() - i,
{
    if i < 0 || i >= s.len() {
        Map::empty()
    } else {
        coins_from(s, i + 1).insert(s[i].outpoint@, s[i].script@)
    }
}

/// Looking up a key finds the first entry that carries it.
proof fn lemma_coins_from_first(s: Seq<CoinEntry>, i: int, j: int)
    requires
        0 <= i <= j < s.len(),
        forall|t: int| i <= t < j ==> s[t].outpoint@ != s[j].outpoint@,
    ensures
        coins_from(s, i).contains_key(s[j].outpoint@),
        coins_from(s, i)[s[j].outpoint@] == s[j].script@,
    decreases j - i,
{
    if i < j {
        lemma_coins_from_first(s, i + 1, j);
    }
}

/// A key no entry carries is not in the map.
proof fn lemma_coins_from_absent(s: Seq<CoinEntry>, i: int, key: OutPointView)
    requires
        0 <= i,
        forall|t: int| i <= t < s.len() ==> s[t].outpoint@ != key,
    ensures
        !coins_from(s, i).contains_key(key),
    decreases s.len() - i,
{
    if i < s.len() {
        lemma_coins_from_absent(s, i + 1, key);
    }
}

impl ScriptResolver for CoinMap {
    open spec fn coins(&self) -> Map<OutPointView, Seq<u8>> {
        coins_from(self.entries@, 0)
    }

    fn script_for_coin(&self, coin: &OutPoint) -> (r: Option<Vec<u8>>) {
        let n = self.entries.len();
        let mut i: usize = 0;
        while i < n
            invariant
                i <= n,
                n == self.entries@.len(),
                forall|t: int| 0 <= t < i ==> self.entries@[t].outpoint@ != coin@,
            decreases n - i,
        {
            let e = &self.entries[i];
            if e.outpoint.vout == coin.vout && bytes_eq(
                e.outpoint.txid.as_slice(),
                coin.txid.as_slice(),
            ) {
                proof {
                    lemma_coins_from_first(self.entries@, 0, i as int);
                }
                let script = vstd::slice::slice_to_vec(e.script.as_slice());
                return Some(script);
            }
            i = i + 1;
        }
        proof {
            lemma_coins_from_absent(self.entries@, 0, coin@);
        }
        None
    }
}

/// The indexable output scripts of one transaction, from output `j` on.
pub open spec fn tx_output_scripts(tx: TxView, j: int) -> Seq<Seq<u8>>
    decreases tx.output.len() - j,
{
    if j < 0 || j >= tx.output.len() {
        Seq::empty()
    } else {
        (if is_indexable(tx.output[j]) {
            seq![tx.output[j]]
        } else {
            Seq::empty()
        }) + tx_output_scripts(tx, j + 1)
    }
}

/// The indexable output scripts of every transaction from index `i` on, in
/// order.
pub open spec fn output_scripts(txs: Seq<TxView>, i: int) -> Seq<Seq<u8>>
    decreases txs.len() - i,
{
    if i < 0 || i >= txs.len() {
        Seq::empty()
    } else {
        tx_output_scripts(txs[i], 0) + output_scripts(txs, i + 1)
    }
}

/// What walking the inputs leaves behind: the scripts added to the filter,
/// and the first unresolved output reference where the walk stopped, if it
/// did.
pub ghost struct InputScan {
    pub added: Seq<Seq<u8>>,
    pub missing: Option<OutPointView>,
}

/// Walk the empty-unlock-script inputs of every transaction from `(i, j)`
/// on, resolving each spent output to its locking script.  An indexable
/// resolved script is added.  An unresolved reference is skipped on a block
/// filter and stops a mempool walk.
pub open spec fn input_scan(
    txs: Seq<TxView>,
    i: int,
    j: int,
    coins: Map<OutPointView, Seq<u8>>,
    block: bool,
) -> InputScan
    decreases txs.len() - i, (if 0 <= i < txs.len() { txs[i].input.len() + 1 - j } else { 0 }),
{
    if i < 0 || i >= txs.len() || j < 0 {
        InputScan { added: Seq::empty(), missing: None }
    } else if j >= txs[i].input.len() {
        input_scan(txs, i + 1, 0, coins, block)
    } else {
        let inp = txs[i].input[j];
        if inp.script_sig.len() == 0 {
            if coins.contains_key(inp.previous_output) {
                let s = coins[inp.previous_output];
                let rest = input_scan(txs, i, j + 1, coins, block);
                InputScan {
                    added: (if is_indexable(s) {
                        seq![s]
                    } else {
                        Seq::empty()
                    }) + rest.added,
                    missing: rest.missing,
                }
            } else if block {
                input_scan(txs, i, j + 1, coins, block)
            } else {
                InputScan { added: Seq::empty(), missing: Some(inp.previous_output) }
            }
        } else {
            input_scan(txs, i, j + 1, coins, block)
        }
    }
}

/// Make a fresh copy of an output reference.
fn copy_outpoint(coin: &OutPoint) -> (r: OutPoint)
    ensures
        r@ == coin@,
{
    OutPoint { txid: vstd::slice::slice_to_vec(coin.txid.as_slice()), vout: coin.vout }
}

/// Add every indexable output script of the given transactions to the
/// writer.
pub fn add_output_scripts<W: FilterWriter>(writer: &mut W, txs: &Vec<Tx>)
    ensures
        final(writer).filter_elements() == old(writer).filter_elements() + output_scripts(
            seq_views(txs@),
            0,
        ),
        final(writer).block_filter() == old(writer).block_filter(),
        final(writer).filter_keys() == old(writer).filter_keys(),
{
    let ghost tv = seq_views(txs@);
    let ghost base = old(writer).filter_elements();
    let ghost mut acc: Seq<Seq<u8>> = Seq::empty();
    let mut i: usize = 0;
    proof {
        assert(acc + output_scripts(tv, 0) =~= output_scripts(tv, 0));
    }
    while i < txs.len()
        invariant
            i <= txs@.len(),
            tv == seq_views(txs@),
            tv.len() == txs@.len(),
            writer.filter_elements() == base + acc,
            writer.block_filter() == old(writer).block_filter(),
            writer.filter_keys() == old(writer).filter_keys(),
            acc + output_scripts(tv, i as int) == output_scripts(tv, 0),
        decreases txs@.len() - i,
    {
        let tx = &txs[i];
        proof {
            assert(tv[i as int] == txs@[i as int]@);
        }
        let mut j: usize = 0;
        proof {
            assert(acc + (tx_output_scripts(tv[i as int], 0) + output_scripts(tv, i as int + 1))
                =~= (acc + tx_output_scripts(tv[i as int], 0)) + output_scripts(tv, i as int + 1));
        }
        while j < tx.output.len()
            invariant
                j <= tx.output@.len(),
                tv == seq_views(txs@),
                i < tv.len(),
                tv[i as int] == tx@,
                writer.filter_elements() == base + acc,
                writer.block_filter() == old(writer).block_filter(),
                writer.filter_keys() == old(writer).filter_keys(),
                (acc + tx_output_scripts(tv[i as int], j as int)) + output_scripts(
                    tv,
                    i as int + 1,
                ) == output_scripts(tv, 0),
            decreases tx.output@.len() - j,
        {
            proof {
                assert(tv[i as int].output[j as int] == tx.output@[j as int]@);
            }
            let script = &tx.output[j].script_pubkey;
            if is_script_indexable(script.as_slice()) {
                writer.add_filter_element(script.as_slice());
                proof {
                    acc = acc.push(script@);
                    assert(writer.filter_elements() =~= base + acc);
                }
            }
            proof {
                let t = tv[i as int];
                assert(tx_output_scripts(t, j as int) == (if is_indexable(t.output[j as int]) {
                    seq![t.output[j as int]]
                } else {
                    Seq::<Seq<u8>>::empty()
                }) + tx_output_scripts(t, j as int + 1));
                assert((acc + tx_output_scripts(t, j as int + 1)) + output_scripts(
                    tv,
                    i as int + 1,
                ) =~= output_scripts(tv, 0));
            }
            j = j + 1;
        }
        proof {
            assert(tx_output_scripts(tv[i as int], tx.output@.len() as int) =~= Seq::<Seq<
                u8,
            >>::empty());
            assert(acc + output_scripts(tv, i as int + 1) =~= (acc + tx_output_scripts(
                tv[i as int],
                tx.output@.len() as int,
            )) + output_scripts(tv, i as int + 1));
        }
        i = i + 1;
    }
    proof {
        assert(output_scripts(tv, txs@.len() as int) =~= Seq::<Seq<u8>>::empty());
        assert(acc =~= acc + output_scripts(tv, txs@.len() as int));
    }
}

/// Add the resolved, indexable scripts spent by segwit-style inputs.  On a
/// block filter the first transaction is skipped and unresolved references
/// are ignored; on a mempool filter an unresolved reference aborts the build
/// with the reference that failed.
pub fn add_input_scripts<W: FilterWriter, R: ScriptResolver>(
    writer: &mut W,
    txs: &Vec<Tx>,
    script_for_coin: &R,
) -> (r: Result<(), FilterError>)
    ensures
        ({
            let block = old(writer).block_filter();
            let skip: int = if block {
                1
            } else {
                0
            };
            let res = input_scan(seq_views(txs@), skip, 0, script_for_coin.coins(), block);
            &&& final(writer).filter_elements() == old(writer).filter_elements() + res.added
            &&& final(writer).block_filter() == block
            &&& final(writer).filter_keys() == old(writer).filter_keys()
            &&& (res.missing is None <==> r is Ok)
            &&& (res.missing matches Some(op) ==> r matches Err(e) && e matches
                FilterError::UtxoMissing(o) && o@ == op)
        }),
{
    let ghost tv = seq_views(txs@);
    let ghost coins = script_for_coin.coins();
    let ghost base = old(writer).filter_elements();
    let block = writer.is_block_filter();
    let skip: usize = if block {
        1
    } else {
        0
    };
    let ghost full = input_scan(tv, skip as int, 0, coins, block);
    let ghost mut acc: Seq<Seq<u8>> = Seq::empty();
    let mut i: usize = skip;
    proof {
        assert(acc + full.added =~= full.added);
    }
    while i < txs.len()
        invariant
            skip <= i,
            i <= txs@.len() || i == skip,
            tv == seq_views(txs@),
            tv.len() == txs@.len(),
            coins == script_for_coin.coins(),
            writer.filter_elements() == base + acc,
            writer.block_filter() == block,
            writer.filter_keys() == old(writer).filter_keys(),
            base == old(writer).filter_elements(),
            block == old(writer).block_filter(),
            skip == (if block { 1usize } else { 0usize }),
            full == input_scan(tv, skip as int, 0, coins, block),
            ({
                let rest = input_scan(tv, i as int, 0, coins, block);
                full.added == acc + rest.added && full.missing == rest.missing
            }),
        decreases txs@.len() - i,
    {
        let tx = &txs[i];
        proof {
            assert(tv[i as int] == txs@[i as int]@);
        }
        let mut j: usize = 0;
        while j < tx.input.len()
            invariant
                j <= tx.input@.len(),
                i < tv.len(),
                tv == seq_views(txs@),
                tv[i as int] == tx@,
                coins == script_for_coin.coins(),
                writer.filter_elements() == base + acc,
                writer.block_filter() == block,
                writer.filter_keys() == old(writer).filter_keys(),
                base == old(writer).filter_elements(),
                block == old(writer).block_filter(),
                skip == (if block { 1usize } else { 0usize }),
                full == input_scan(tv, skip as int, 0, coins, block),
                ({
                    let rest = input_scan(tv, i as int, j as int, coins, block);
                    full.added == acc + rest.added && full.missing == rest.missing
                }),
            decreases tx.input@.len() - j,
        {
            proof {
                assert(tv[i as int].input[j as int] == tx.input@[j as int]@);
            }
            let inp = &tx.input[j];
            if inp.script_sig.len() == 0 {
                match script_for_coin.script_for_coin(&inp.previous_output) {
                    Some(script) => {
                        proof {
                            let rest = input_scan(tv, i as int, j as int, coins, block);
                            let next = input_scan(tv, i as int, j as int + 1, coins, block);
                            if is_indexable(script@) {
                                assert(rest.added =~= seq![script@] + next.added);
                            } else {
                                assert(rest.added =~= next.added);
                            }
                        }
                        if is_script_indexable(script.as_slice()) {
                            writer.add_filter_element(script.as_slice());
                            proof {
                                let next = input_scan(tv, i as int, j as int + 1, coins, block);
                                acc = acc.push(script@);
                                assert(writer.filter_elements() =~= base + acc);
                                assert(full.added =~= acc + next.added);
                            }
                        }
                    },
                    None => {
                        if !block {
                            proof {
                                let rest = input_scan(tv, i as int, j as int, coins, block);
                                assert(rest.missing == Some(inp.previous_output@));
                                assert(rest.added =~= Seq::<Seq<u8>>::empty());
                                assert(full.added =~= acc);
                                assert(writer.filter_elements() =~= base + full.added);
                            }
                            return Err(FilterError::UtxoMissing(copy_outpoint(
                                &inp.previous_output,
                            )));
                        }
                    },
                }
            }
            j = j + 1;
        }
        proof {
            assert(input_scan(tv, i as int, tx.input@.len() as int, coins, block) == input_scan(
                tv,
                i as int + 1,
                0,
                coins,
                block,
            ));
        }
        i = i + 1;
    }
    proof {
        assert(input_scan(tv, i as int, 0, coins, block) == InputScan {
            added: Seq::empty(),
            missing: None,
        });
        assert(full.added =~= acc);
        assert(writer.filter_elements() =~= base + full.added);
    }
    Ok(())
}

/// How many outputs the transactions from index `i` on carry.
pub open spec fn total_outputs(txs: Seq<TxView>, i: int) -> int
    decreases txs.len() - i,
{
    if i < 0 || i >= txs.len() {
        0
    } else {
        txs[i].output.len() + total_outputs(txs, i + 1)
    }
}

/// How many inputs the transactions from index `i` on carry, the first one
/// counted from input `j`.
pub open spec fn total_inputs(txs: Seq<TxView>, i: int, j: int) -> int
    decreases txs.len() - i,
{
    if i < 0 || i >= txs.len() {
        0
    } else {
        (if j <= txs[i].input.len() {
            txs[i].input.len() - j
        } else {
            0
        }) + total_inputs(txs, i + 1, 0)
    }
}

proof fn lemma_tx_output_scripts_bound(tx: TxView, j: int)
    requires
        0 <= j,
    ensures
        0 <= tx_output_scripts(tx, j).len(),
        j <= tx.output.len() ==> tx_output_scripts(tx, j).len() <= tx.output.len() - j,
    decreases tx.output.len() - j,
{
    if 0 <= j < tx.output.len() {
        lemma_tx_output_scripts_bound(tx, j + 1);
    }
}

/// A filter never holds more output scripts than the transactions have
/// outputs.
pub proof fn lemma_output_scripts_bound(txs: Seq<TxView>, i: int)
    requires
        0 <= i,
    ensures
        0 <= output_scripts(txs, i).len() <= total_outputs(txs, i),
    decreases txs.len() - i,
{
    if i < txs.len() {
        lemma_tx_output_scripts_bound(txs[i], 0);
        lemma_output_scripts_bound(txs, i + 1);
    }
}

/// A filter never holds more spent-coin scripts than the transactions have
/// inputs.
pub proof fn lemma_input_scan_bound(
    txs: Seq<TxView>,
    i: int,
    j: int,
    coins: Map<OutPointView, Seq<u8>>,
    block: bool,
)
    requires
        0 <= i,
        0 <= j,
    ensures
        0 <= input_scan(txs, i, j, coins, block).added.len() <= total_inputs(txs, i, j),
    decreases txs.len() - i, (if 0 <= i < txs.len() {
        txs[i].input.len() + 1 - j
    } else {
        0
    }),
{
    if i < txs.len() {
        if j >= txs[i].input.len() {
            lemma_input_scan_bound(txs, i + 1, 0, coins, block);
        } else {
            lemma_input_scan_bound(txs, i, j + 1, coins, block);
        }
    }
}

} // verus!
