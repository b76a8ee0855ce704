//! Transactions, their canonical encoding and their identities.
use crate::encode::{push_u32, push_u64, push_var_bytes, push_varint, u32_le, u64_le, var_bytes, varint_bytes};
use crate::hash::{hash_of_bytes, hashes_view, push_hash, sha256d_of, zero_hash, Hash256};
use vstd::prelude::*;

verus! {

/// Reference to an output of an earlier transaction.
#[derive(Clone, Copy, Debug, PartialEq, Eq)]
pub struct OutPoint {
    /// Identity of the transaction that holds the output.
    pub txid: Hash256,
    /// Index of the output in that transaction.
    pub vout: u32,
}

/// Whether `o` is the reference that coinbase inputs carry.
pub open spec fn outpoint_is_null(o: OutPoint) -> bool {
    o.txid.0@ == zero_hash() && o.vout == u32::MAX
}

impl OutPoint {
    pub fn new(txid: Hash256, vout: u32) -> (r: OutPoint)
        ensures
            r.txid == txid,
            r.vout == vout,
    {
        OutPoint { txid, vout }
    }

    /// The reference of a coinbase input: zero identity, largest index.
    pub fn null() -> (r: OutPoint)
        ensures
            outpoint_is_null(r),
    {
        OutPoint { txid: Hash256::all_zeros(), vout: u32::MAX }
    }

    pub fn is_null(&self) -> (r: bool)
        ensures
            r == outpoint_is_null(*self),
    {
        let zero = Hash256::all_zeros();
        self.vout == u32::MAX && self.txid.same_as(&zero)
    }
}

impl Default for OutPoint {
    fn default() -> (r: OutPoint)
        ensures
            outpoint_is_null(r),
    {
        OutPoint::null()
    }
}

/// Transaction input: the output it spends and the script that unlocks it.
#[derive(Clone, Debug, PartialEq, Eq)]
pub struct TxIn {
    pub previous_out: OutPoint,
    pub sequence: u32,
    /// Bookkeeping only; not part of the encoding.
    pub value_in: i64,
    pub sig_script: Vec<u8>,
}

/// Transaction output: an amount and the script that locks it.
#[derive(Clone, Debug, PartialEq, Eq)]
pub struct TxOut {
    pub value_out: u64,
    pub pkscript: Vec<u8>,
}

impl Default for TxOut {
    fn default() -> (r: TxOut)
        ensures
            r.value_out == 0,
            r.pkscript@ == Seq::<u8>::empty(),
    {
        TxOut { value_out: 0, pkscript: Vec::new() }
    }
}

/// A transaction with ordered inputs and outputs.
#[derive(Clone, Debug, PartialEq, Eq)]
pub struct Transaction {
    pub version: u32,
    /// Block height or time before which it is not valid, or zero.
    pub lock_time: u32,
    pub input_ent: Vec<TxIn>,
    pub output_ent: Vec<TxOut>,
}

pub open spec fn outpoint_bytes(o: OutPoint) -> Seq<u8> {
    o.txid.0@ + u32_le(o.vout)
}

/// Encoding of an input; with `keep_script` false its script is written empty.
pub open spec fn txin_bytes(t: TxIn, keep_script: bool) -> Seq<u8> {
    outpoint_bytes(t.previous_out) + u32_le(t.sequence) + var_bytes(
        if keep_script { t.sig_script@ } else { Seq::empty() },
    )
}

pub open spec fn txout_bytes(o: TxOut) -> Seq<u8> {
    u64_le(o.value_out) + var_bytes(o.pkscript@)
}

pub open spec fn inputs_bytes(s: Seq<TxIn>, keep_script: bool) -> Seq<u8>
    decreases s.len(),
{
    if s.len() == 0 {
        Seq::empty()
    } else {
        inputs_bytes(s.drop_last(), keep_script) + txin_bytes(s.last(), keep_script)
    }
}

pub open spec fn outputs_bytes(s: Seq<TxOut>) -> Seq<u8>
    decreases s.len(),
{
    if s.len() == 0 {
        Seq::empty()
    } else {
        outputs_bytes(s.drop_last()) + txout_bytes(s.last())
    }
}

/// Canonical encoding of a transaction; with `keep_scripts` false every
/// unlocking script is written empty.
pub open spec fn tx_bytes(tx: Transaction, keep_scripts: bool) -> Seq<u8> {
    u32_le(tx.version) + u32_le(tx.lock_time) + varint_bytes(tx.input_ent.len() as u64)
        + inputs_bytes(tx.input_ent@, keep_scripts) + varint_bytes(tx.output_ent.len() as u64)
        + outputs_bytes(tx.output_ent@)
}

/// Identity of a transaction.
pub open spec fn txid_of(tx: Transaction) -> Seq<u8> {
    sha256d_of(tx_bytes(tx, true))
}

/// Identity of a transaction with its unlocking scripts left out.
pub open spec fn norm_txid_of(tx: Transaction) -> Seq<u8> {
    sha256d_of(tx_bytes(tx, false))
}

pub open spec fn is_coin_base_spec(tx: Transaction) -> bool {
    tx.input_ent.len() == 1 && outpoint_is_null(tx.input_ent@[0].previous_out)
}

fn push_txin(buf: &mut Vec<u8>, t: &TxIn, keep_script: bool)
    ensures
        final(buf)@ == old(buf)@ + txin_bytes(*t, keep_script),
{
    push_hash(buf, &t.previous_out.txid);
    push_u32(buf, t.previous_out.vout);
    push_u32(buf, t.sequence);
    if keep_script {
        push_var_bytes(buf, &t.sig_script);
    } else {
        let empty: Vec<u8> = Vec::new();
        push_var_bytes(buf, &empty);
        assert(empty@ =~= Seq::<u8>::empty());
    }
    assert(buf@ =~= old(buf)@ + txin_bytes(*t, keep_script));
}

fn push_txout(buf: &mut Vec<u8>, o: &TxOut)
    ensures
        final(buf)@ == old(buf)@ + txout_bytes(*o),
{
    push_u64(buf, o.value_out);
    push_var_bytes(buf, &o.pkscript);
    assert(buf@ =~= old(buf)@ + txout_bytes(*o));
}

impl Transaction {
    fn encode_with(&self, keep_scripts: bool) -> (r: Vec<u8>)
        ensures
            r@ == tx_bytes(*self, keep_scripts),
    {
        let mut buf: Vec<u8> = Vec::new();
        push_u32(&mut buf, self.version);
        push_u32(&mut buf, self.lock_time);
        push_varint(&mut buf, self.input_ent.len() as u64);
        let ghost start = buf@;
        let mut i: usize = 0;
        while i < self.input_ent.len()
            invariant
                i <= self.input_ent.len(),
                buf@ == start + inputs_bytes(self.input_ent@.subrange(0, i as int), keep_scripts),
            decreases self.input_ent.len() - i,
        {
            push_txin(&mut buf, &self.input_ent[i], keep_scripts);
            assert(self.input_ent@.subrange(0, i + 1).drop_last() =~= self.input_ent@.subrange(0, i as int));
            i = i + 1;
        }
        assert(self.input_ent@.subrange(0, i as int) =~= self.input_ent@);
        push_varint(&mut buf, self.output_ent.len() as u64);
        let ghost mid = buf@;
        let mut k: usize = 0;
        while k < self.output_ent.len()
            invariant
                k <= self.output_ent.len(),
                buf@ == mid + outputs_bytes(self.output_ent@.subrange(0, k as int)),
            decreases self.output_ent.len() - k,
        {
            push_txout(&mut buf, &self.output_ent[k]);
            assert(self.output_ent@.subrange(0, k + 1).drop_last() =~= self.output_ent@.subrange(0, k as int));
            k = k + 1;
        }
        assert(self.output_ent@.subrange(0, k as int) =~= self.output_ent@);
        assert(buf@ =~= tx_bytes(*self, keep_scripts));
        buf
    }

    /// Canonical encoding.
    pub fn encode(&self) -> (r: Vec<u8>)
        ensures
            r@ == tx_bytes(*self, true),
    {
        self.encode_with(true)
    }

    /// Hash of the canonical encoding.
    pub fn txid(&self) -> (r: Hash256)
        ensures
            r.0@ == txid_of(*self),
    {
        let bytes = self.encode_with(true);
        hash_of_bytes(&bytes)
    }

    /// Hash of the encoding with every unlocking script emptied.
    pub fn norm_txid(&self) -> (r: Hash256)
        ensures
            r.0@ == norm_txid_of(*self),
    {
        let bytes = self.encode_with(false);
        hash_of_bytes(&bytes)
    }

    /// Exactly one input, and it spends the null reference.
    pub fn is_coin_base(&self) -> (r: bool)
        ensures
            r == is_coin_base_spec(*self),
    {
        self.input_ent.len() == 1 && self.input_ent[0].previous_out.is_null()
    }
}

/// Encodings of transactions one after another.
pub open spec fn txs_bytes(s: Seq<Transaction>) -> Seq<u8>
    decreases s.len(),
{
    if s.len() == 0 {
        Seq::empty()
    } else {
        txs_bytes(s.drop_last()) + tx_bytes(s.last(), true)
    }
}

/// Appends a count-prefixed list of transactions.
pub fn push_transactions(buf: &mut Vec<u8>, txs: &Vec<Transaction>)
    ensures
        final(buf)@ == old(buf)@ + varint_bytes(txs.len() as u64) + txs_bytes(txs@),
{
    push_varint(buf, txs.len() as u64);
    let ghost start = buf@;
    let mut i: usize = 0;
    while i < txs.len()
        invariant
            i <= txs.len(),
            buf@ == start + txs_bytes(txs@.subrange(0, i as int)),
        decreases txs.len() - i,
    {
        let bytes = txs[i].encode();
        let mut k: usize = 0;
        let ghost before = buf@;
        while k < bytes.len()
            invariant
                k <= bytes.len(),
                buf@ == before + bytes@.subrange(0, k as int),
            decreases bytes.len() - k,
        {
            buf.push(bytes[k]);
            assert(bytes@.subrange(0, k + 1) =~= bytes@.subrange(0, k as int).push(bytes@[k as int]));
            k = k + 1;
        }
        assert(bytes@.subrange(0, k as int) =~= bytes@);
        assert(txs@.subrange(0, i + 1).drop_last() =~= txs@.subrange(0, i as int));
        assert(buf@ =~= start + txs_bytes(txs@.subrange(0, i + 1)));
        i = i + 1;
    }
    assert(txs@.subrange(0, i as int) =~= txs@);
    assert(buf@ =~= old(buf)@ + varint_bytes(txs.len() as u64) + txs_bytes(txs@));
}

/// Identities of the transactions, in order.
pub open spec fn txids_of(txs: Seq<Transaction>) -> Seq<Seq<u8>> {
    txs.map_values(|t: Transaction| txid_of(t))
}

/// The identity of each transaction, in order.
pub fn txids(txs: &Vec<Transaction>) -> (r: Vec<Hash256>)
    ensures
        hashes_view(r@) == txids_of(txs@),
{
    let mut ids: Vec<Hash256> = Vec::new();
    let mut i: usize = 0;
    while i < txs.len()
        invariant
            i <= txs.len(),
            ids.len() == i,
            forall|j: int| 0 <= j < i ==> #[trigger] ids@[j].0@ == txid_of(txs@[j]),
        decreases txs.len() - i,
    {
        let id = txs[i].txid();
        ids.push(id);
        i = i + 1;
    }
    assert(hashes_view(ids@) =~= txids_of(txs@));
    ids
}

/// Two transactions that differ at most in their unlocking scripts.
pub open spec fn same_but_scripts(a: Transaction, b: Transaction) -> bool {
    &&& a.version == b.version
    &&& a.lock_time == b.lock_time
    &&& a.output_ent@ == b.output_ent@
    &&& a.input_ent.len() == b.input_ent.len()
    &&& forall|i: int|
        0 <= i < a.input_ent.len() ==> {
            &&& (#[trigger] a.input_ent@[i]).previous_out == b.input_ent@[i].previous_out
            &&& a.input_ent@[i].sequence == b.input_ent@[i].sequence
        }
}

proof fn lemma_inputs_without_scripts(a: Seq<TxIn>, b: Seq<TxIn>)
    requires
        a.len() == b.len(),
        forall|i: int|
            0 <= i < a.len() ==> {
                &&& (#[trigger] a[i]).previous_out == b[i].previous_out
                &&& a[i].sequence == b[i].sequence
            },
    ensures
        inputs_bytes(a, false) == inputs_bytes(b, false),
    decreases a.len(),
{
    if a.len() > 0 {
        lemma_inputs_without_scripts(a.drop_last(), b.drop_last());
        assert(a.last() == a[a.len() - 1]);
    }
}

/// Replacing unlocking scripts leaves the normalized identity unchanged.
pub proof fn lemma_norm_txid_ignores_scripts(a: Transaction, b: Transaction)
    requires
        same_but_scripts(a, b),
    ensures
        norm_txid_of(a) == norm_txid_of(b),
{
    lemma_inputs_without_scripts(a.input_ent@, b.input_ent@);
}

} // verus!
