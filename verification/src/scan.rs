//! The chain scanner.
//!
//! `scan` walks a bounded range of compact blocks strictly in height order,
//! verifies hash-chain continuity from block to block, trial-decrypts every
//! shielded output against the wallet's key, matches every revealed
//! nullifier against the working sets, and aggregates what it found into one
//! [`ScanEvents`] value. The whole call is specified by the spec-level fold
//! [`scan_blocks`]: a continuity failure anywhere invalidates the whole
//! range, so no partial events are ever returned.
//!
//! Within one transaction the scanner processes first-pool outputs, then
//! second-pool actions as outputs, then first-pool spends, then second-pool
//! actions as spends; discovery therefore always precedes spend matching.

use vstd::prelude::*;
use crate::chain::{count_outputs, lemma_count_outputs_nonneg, CompactAction, CompactBlock,
    CompactOutput, CompactSpend, CompactTx};
use crate::decoder::{find_nf, Decoder, Pool};
use crate::keys::{sapling_scan_of, orchard_scan_of, DecryptedNote, DecryptedNoteModel,
    ViewingKey};

verus! {

/// A scanned block's identity: height, hash and block time.
pub struct BlockInfo {
    pub height: u32,
    pub hash: Vec<u8>,
    pub time: u32,
}

/// Spec-level image of a [`BlockInfo`].
pub struct BlockInfoModel {
    pub height: u32,
    pub hash: Seq<u8>,
    pub time: u32,
}

impl View for BlockInfo {
    type V = BlockInfoModel;

    open spec fn view(&self) -> BlockInfoModel {
        BlockInfoModel { height: self.height, hash: self.hash@, time: self.time }
    }
}

/// A note discovered by trial decryption.
pub struct ReceivedNote {
    pub pool: Pool,
    pub txid: Vec<u8>,
    pub height: u32,
    pub time: u32,
    pub position: u64,
    pub note: DecryptedNote,
}

/// Spec-level image of a [`ReceivedNote`].
pub struct ReceivedNoteModel {
    pub pool: Pool,
    pub txid: Seq<u8>,
    pub height: u32,
    pub time: u32,
    pub position: int,
    pub note: DecryptedNoteModel,
}

impl View for ReceivedNote {
    type V = ReceivedNoteModel;

    open spec fn view(&self) -> ReceivedNoteModel {
        ReceivedNoteModel {
            pool: self.pool,
            txid: self.txid@,
            height: self.height,
            time: self.time,
            position: self.position as int,
            note: self.note@,
        }
    }
}

/// A spend of a wallet note, observed as a matching nullifier, with the
/// fee its transaction paid.
pub struct SpentNote {
    pub pool: Pool,
    pub txid: Vec<u8>,
    pub height: u32,
    pub fee: u32,
    pub nf: Vec<u8>,
}

/// Spec-level image of a [`SpentNote`].
pub struct SpentNoteModel {
    pub pool: Pool,
    pub txid: Seq<u8>,
    pub height: u32,
    pub fee: u32,
    pub nf: Seq<u8>,
}

impl View for SpentNote {
    type V = SpentNoteModel;

    open spec fn view(&self) -> SpentNoteModel {
        SpentNoteModel {
            pool: self.pool,
            txid: self.txid@,
            height: self.height,
            fee: self.fee,
            nf: self.nf@,
        }
    }
}

/// Everything one block contributed to a scan.
pub struct BlockEvents {
    pub block: BlockInfo,
    pub received: Vec<ReceivedNote>,
    pub spent: Vec<SpentNote>,
}

/// Spec-level image of a [`BlockEvents`].
pub struct BlockEventsModel {
    pub block: BlockInfoModel,
    pub received: Seq<ReceivedNoteModel>,
    pub spent: Seq<SpentNoteModel>,
}

impl View for BlockEvents {
    type V = BlockEventsModel;

    open spec fn view(&self) -> BlockEventsModel {
        BlockEventsModel {
            block: self.block@,
            received: self.received@.map_values(|r: ReceivedNote| r@),
            spent: self.spent@.map_values(|s: SpentNote| s@),
        }
    }
}

/// The aggregate result of one successful scan call, one entry per block in
/// increasing height order.
pub struct ScanEvents {
    pub blocks: Vec<BlockEvents>,
}

impl View for ScanEvents {
    type V = Seq<BlockEventsModel>;

    open spec fn view(&self) -> Seq<BlockEventsModel> {
        self.blocks@.map_values(|b: BlockEvents| b@)
    }
}

/// Why a scan call failed: a hash-chain continuity violation, or malformed
/// block data.
#[derive(Clone, Copy, Debug, PartialEq, Eq, Structural)]
pub enum ScanError {
    Reorganization,
    Other,
}

/// The scanner's running state between blocks: both working nullifier sets
/// and the trusted hash of the previously applied block.
pub struct ScanState {
    pub sap: Seq<Seq<u8>>,
    pub orc: Seq<Seq<u8>>,
    pub prev_hash: Seq<u8>,
}

/// The scanner's running state inside a block: the working sets, the
/// commitment-tree position of the next first-pool output, and the events
/// accumulated so far for the block.
pub struct TxScanState {
    pub sap: Seq<Seq<u8>>,
    pub orc: Seq<Seq<u8>>,
    pub pos: int,
    pub received: Seq<ReceivedNoteModel>,
    pub spent: Seq<SpentNoteModel>,
}

/// Folds first-pool outputs: each output advances the tree position by one;
/// a decryption hit registers the note's nullifier and records the note.
pub open spec fn fold_sapling_outputs(
    vk: Seq<char>,
    txid: Seq<u8>,
    height: u32,
    time: u32,
    st: TxScanState,
    outs: Seq<CompactOutput>,
) -> TxScanState
    decreases outs.len(),
{
    if outs.len() == 0 {
        st
    } else {
        let prev = fold_sapling_outputs(vk, txid, height, time, st, outs.drop_last());
        let o = outs.last();
        match sapling_scan_of(vk, o.cmu@, o.epk@, o.ciphertext@, prev.pos as u64) {
            Some(n) => TxScanState {
                sap: prev.sap.push(n.nf),
                pos: prev.pos + 1,
                received: prev.received.push(ReceivedNoteModel {
                    pool: Pool::Sapling,
                    txid,
                    height,
                    time,
                    position: prev.pos,
                    note: n,
                }),
                ..prev
            },
            None => TxScanState { pos: prev.pos + 1, ..prev },
        }
    }
}

/// Folds second-pool actions as outputs: a decryption hit registers the
/// note's nullifier and records the note.
pub open spec fn fold_orchard_outputs(
    vk: Seq<char>,
    txid: Seq<u8>,
    height: u32,
    time: u32,
    st: TxScanState,
    acts: Seq<CompactAction>,
) -> TxScanState
    decreases acts.len(),
{
    if acts.len() == 0 {
        st
    } else {
        let prev = fold_orchard_outputs(vk, txid, height, time, st, acts.drop_last());
        let a = acts.last();
        match orchard_scan_of(vk, a.nf@, a.cmx@, a.epk@, a.ciphertext@) {
            Some(n) => TxScanState {
                orc: prev.orc.push(n.nf),
                received: prev.received.push(ReceivedNoteModel {
                    pool: Pool::Orchard,
                    txid,
                    height,
                    time,
                    position: 0,
                    note: n,
                }),
                ..prev
            },
            None => prev,
        }
    }
}

/// Folds first-pool spends: a candidate matching the working set removes the
/// first matching nullifier and records the spend.
pub open spec fn fold_sapling_spends(
    txid: Seq<u8>,
    height: u32,
    fee: u32,
    st: TxScanState,
    spends: Seq<CompactSpend>,
) -> TxScanState
    decreases spends.len(),
{
    if spends.len() == 0 {
        st
    } else {
        let prev = fold_sapling_spends(txid, height, fee, st, spends.drop_last());
        let cand = spends.last().nf@;
        if find_nf(prev.sap, cand) >= 0 {
            TxScanState {
                sap: prev.sap.remove(find_nf(prev.sap, cand)),
                spent: prev.spent.push(SpentNoteModel {
                    pool: Pool::Sapling,
                    txid,
                    height,
                    fee,
                    nf: cand,
                }),
                ..prev
            }
        } else {
            prev
        }
    }
}

/// Folds second-pool actions as spends, like [`fold_sapling_spends`].
pub open spec fn fold_orchard_spends(
    txid: Seq<u8>,
    height: u32,
    fee: u32,
    st: TxScanState,
    acts: Seq<CompactAction>,
) -> TxScanState
    decreases acts.len(),
{
    if acts.len() == 0 {
        st
    } else {
        let prev = fold_orchard_spends(txid, height, fee, st, acts.drop_last());
        let cand = acts.last().nf@;
        if find_nf(prev.orc, cand) >= 0 {
            TxScanState {
                orc: prev.orc.remove(find_nf(prev.orc, cand)),
                spent: prev.spent.push(SpentNoteModel {
                    pool: Pool::Orchard,
                    txid,
                    height,
                    fee,
                    nf: cand,
                }),
                ..prev
            }
        } else {
            prev
        }
    }
}

/// One transaction: outputs of both pools first, then spends of both pools.
pub open spec fn fold_tx(
    vk: Seq<char>,
    height: u32,
    time: u32,
    st: TxScanState,
    tx: CompactTx,
) -> TxScanState {
    let s1 = fold_sapling_outputs(vk, tx.txid@, height, time, st, tx.outputs@);
    let s2 = fold_orchard_outputs(vk, tx.txid@, height, time, s1, tx.actions@);
    let s3 = fold_sapling_spends(tx.txid@, height, tx.fee, s2, tx.spends@);
    fold_orchard_spends(tx.txid@, height, tx.fee, s3, tx.actions@)
}

/// A block's transactions, in order.
pub open spec fn fold_txs(
    vk: Seq<char>,
    height: u32,
    time: u32,
    st: TxScanState,
    txs: Seq<CompactTx>,
) -> TxScanState
    decreases txs.len(),
{
    if txs.len() == 0 {
        st
    } else {
        fold_tx(vk, height, time, fold_txs(vk, height, time, st, txs.drop_last()), txs.last())
    }
}

/// The outcome of scanning one block.
pub enum BlockStep {
    Reorg,
    Malformed,
    Good { st: ScanState, ev: BlockEventsModel },
}

/// One block: the height must be the expected one, the declared parent hash
/// must equal the trusted previous hash, and the commitment tree must have
/// room for the block's outputs; then the transactions are folded with
/// positions anchored at the end-of-block tree size.
pub open spec fn block_step(
    vk: Seq<char>,
    st: ScanState,
    b: CompactBlock,
    expected_height: int,
) -> BlockStep {
    if b.height != expected_height {
        BlockStep::Malformed
    } else if b.prev_hash@ != st.prev_hash {
        BlockStep::Reorg
    } else if b.sapling_tree_size < count_outputs(b.vtx@) {
        BlockStep::Malformed
    } else {
        let base = b.sapling_tree_size - count_outputs(b.vtx@);
        let t0 = TxScanState {
            sap: st.sap,
            orc: st.orc,
            pos: base,
            received: Seq::empty(),
            spent: Seq::empty(),
        };
        let t = fold_txs(vk, b.height, b.time, t0, b.vtx@);
        BlockStep::Good {
            st: ScanState { sap: t.sap, orc: t.orc, prev_hash: b.hash@ },
            ev: BlockEventsModel {
                block: BlockInfoModel { height: b.height, hash: b.hash@, time: b.time },
                received: t.received,
                spent: t.spent,
            },
        }
    }
}

/// The outcome of a whole scan call.
pub enum ScanModel {
    Reorg,
    Malformed,
    Good { st: ScanState, events: Seq<BlockEventsModel> },
}

/// The scan of a block range: blocks folded strictly in order, the first
/// failure invalidating the whole call.
pub open spec fn scan_blocks(
    vk: Seq<char>,
    st0: ScanState,
    blocks: Seq<CompactBlock>,
    start: int,
) -> ScanModel
    decreases blocks.len(),
{
    if blocks.len() == 0 {
        ScanModel::Good { st: st0, events: Seq::empty() }
    } else {
        match scan_blocks(vk, st0, blocks.drop_last(), start) {
            ScanModel::Reorg => ScanModel::Reorg,
            ScanModel::Malformed => ScanModel::Malformed,
            ScanModel::Good { st, events } => match block_step(
                vk,
                st,
                blocks.last(),
                start + blocks.len() - 1,
            ) {
                BlockStep::Reorg => ScanModel::Reorg,
                BlockStep::Malformed => ScanModel::Malformed,
                BlockStep::Good { st: st2, ev } => ScanModel::Good {
                    st: st2,
                    events: events.push(ev),
                },
            },
        }
    }
}

pub proof fn lemma_sapling_outputs_frame(
    vk: Seq<char>,
    txid: Seq<u8>,
    height: u32,
    time: u32,
    st: TxScanState,
    outs: Seq<CompactOutput>,
)
    ensures
        fold_sapling_outputs(vk, txid, height, time, st, outs).orc == st.orc,
        fold_sapling_outputs(vk, txid, height, time, st, outs).spent == st.spent,
        fold_sapling_outputs(vk, txid, height, time, st, outs).pos == st.pos + outs.len(),
    decreases outs.len(),
{
    if outs.len() > 0 {
        lemma_sapling_outputs_frame(vk, txid, height, time, st, outs.drop_last());
    }
}

pub proof fn lemma_orchard_outputs_frame(
    vk: Seq<char>,
    txid: Seq<u8>,
    height: u32,
    time: u32,
    st: TxScanState,
    acts: Seq<CompactAction>,
)
    ensures
        fold_orchard_outputs(vk, txid, height, time, st, acts).sap == st.sap,
        fold_orchard_outputs(vk, txid, height, time, st, acts).spent == st.spent,
        fold_orchard_outputs(vk, txid, height, time, st, acts).pos == st.pos,
    decreases acts.len(),
{
    if acts.len() > 0 {
        lemma_orchard_outputs_frame(vk, txid, height, time, st, acts.drop_last());
    }
}

pub proof fn lemma_sapling_spends_frame(
    txid: Seq<u8>,
    height: u32,
    fee: u32,
    st: TxScanState,
    spends: Seq<CompactSpend>,
)
    ensures
        fold_sapling_spends(txid, height, fee, st, spends).orc == st.orc,
        fold_sapling_spends(txid, height, fee, st, spends).received == st.received,
        fold_sapling_spends(txid, height, fee, st, spends).pos == st.pos,
    decreases spends.len(),
{
    if spends.len() > 0 {
        lemma_sapling_spends_frame(txid, height, fee, st, spends.drop_last());
    }
}

pub proof fn lemma_orchard_spends_frame(
    txid: Seq<u8>,
    height: u32,
    fee: u32,
    st: TxScanState,
    acts: Seq<CompactAction>,
)
    ensures
        fold_orchard_spends(txid, height, fee, st, acts).sap == st.sap,
        fold_orchard_spends(txid, height, fee, st, acts).received == st.received,
        fold_orchard_spends(txid, height, fee, st, acts).pos == st.pos,
    decreases acts.len(),
{
    if acts.len() > 0 {
        lemma_orchard_spends_frame(txid, height, fee, st, acts.drop_last());
    }
}

/// A fresh copy of a byte buffer.
pub fn copy_bytes(v: &Vec<u8>) -> (r: Vec<u8>)
    ensures
        r@ == v@,
{
    let mut r: Vec<u8> = Vec::new();
    let mut i: usize = 0;
    while i < v.len()
        invariant
            i <= v.len(),
            r@ == v@.take(i as int),
        decreases v.len() - i,
    {
        r.push(v[i]);
        proof {
            assert(v@.take(i + 1 as int) =~= v@.take(i as int).push(v@[i as int]));
        }
        i += 1;
    }
    proof {
        assert(v@.take(v@.len() as int) =~= v@);
    }
    r
}

fn sapling_outputs_phase(
    key: &ViewingKey,
    txid: &Vec<u8>,
    height: u32,
    time: u32,
    sap: &mut Decoder,
    pos: &mut u64,
    received: &mut Vec<ReceivedNote>,
    outs: &Vec<CompactOutput>,
    Ghost(st0): Ghost<TxScanState>,
)
    requires
        st0.sap == old(sap)@,
        st0.pos == *old(pos) as int,
        st0.received == old(received)@.map_values(|r: ReceivedNote| r@),
        *old(pos) + outs@.len() <= u64::MAX,
        old(sap).pool == Pool::Sapling,
    ensures
        ({
            let st1 = fold_sapling_outputs(key.encoding_spec(), txid@, height, time, st0, outs@);
            final(sap)@ == st1.sap && final(sap).pool == Pool::Sapling && *final(pos) as int
                == st1.pos && final(received)@.map_values(|r: ReceivedNote| r@) == st1.received
        }),
{
    let ghost vk = key.encoding_spec();
    let mut j: usize = 0;
    proof {
        assert(outs@.take(0) =~= Seq::<CompactOutput>::empty());
    }
    while j < outs.len()
        invariant
            j <= outs.len(),
            vk == key.encoding_spec(),
            *old(pos) + outs@.len() <= u64::MAX,
            st0.pos == *old(pos) as int,
            sap.pool == Pool::Sapling,
            ({
                let stj = fold_sapling_outputs(vk, txid@, height, time, st0, outs@.take(j as int));
                sap@ == stj.sap && *pos as int == stj.pos && received@.map_values(
                    |r: ReceivedNote| r@,
                ) == stj.received
            }),
        decreases outs.len() - j,
    {
        let ghost stj = fold_sapling_outputs(vk, txid@, height, time, st0, outs@.take(j as int));
        proof {
            lemma_sapling_outputs_frame(vk, txid@, height, time, st0, outs@.take(j as int));
            assert(outs@.take(j + 1 as int).drop_last() =~= outs@.take(j as int));
            assert(outs@.take(j + 1 as int).last() == outs@[j as int]);
        }
        let here = *pos;
        proof {
            assert(stj.pos as u64 == here);
        }
        match key.sapling_try_decrypt(&outs[j], here) {
            Some(note) => {
                let ghost nm = note@;
                let nf_copy = copy_bytes(&note.nf);
                sap.register(nf_copy);
                let rec = ReceivedNote {
                    pool: Pool::Sapling,
                    txid: copy_bytes(txid),
                    height,
                    time,
                    position: here,
                    note,
                };
                let ghost rec_before = received@.map_values(|r: ReceivedNote| r@);
                received.push(rec);
                proof {
                    assert(received@.map_values(|r: ReceivedNote| r@) =~= rec_before.push(
                        ReceivedNoteModel {
                            pool: Pool::Sapling,
                            txid: txid@,
                            height,
                            time,
                            position: stj.pos,
                            note: nm,
                        },
                    ));
                }
            }
            None => {}
        }
        *pos = *pos + 1;
        j += 1;
    }
    proof {
        assert(outs@.take(outs@.len() as int) =~= outs@);
    }
}

fn orchard_outputs_phase(
    key: &ViewingKey,
    txid: &Vec<u8>,
    height: u32,
    time: u32,
    orc: &mut Decoder,
    received: &mut Vec<ReceivedNote>,
    acts: &Vec<CompactAction>,
    Ghost(st0): Ghost<TxScanState>,
)
    requires
        st0.orc == old(orc)@,
        st0.received == old(received)@.map_values(|r: ReceivedNote| r@),
        old(orc).pool == Pool::Orchard,
    ensures
        ({
            let st1 = fold_orchard_outputs(key.encoding_spec(), txid@, height, time, st0, acts@);
            final(orc)@ == st1.orc && final(orc).pool == Pool::Orchard && final(received)@.map_values(|r: ReceivedNote| r@) == st1.received
        }),
{
    let ghost vk = key.encoding_spec();
    let mut j: usize = 0;
    proof {
        assert(acts@.take(0) =~= Seq::<CompactAction>::empty());
    }
    while j < acts.len()
        invariant
            j <= acts.len(),
            vk == key.encoding_spec(),
            orc.pool == Pool::Orchard,
            ({
                let stj = fold_orchard_outputs(vk, txid@, height, time, st0, acts@.take(j as int));
                orc@ == stj.orc && received@.map_values(|r: ReceivedNote| r@) == stj.received
            }),
        decreases acts.len() - j,
    {
        let ghost stj = fold_orchard_outputs(vk, txid@, height, time, st0, acts@.take(j as int));
        proof {
            assert(acts@.take(j + 1 as int).drop_last() =~= acts@.take(j as int));
            assert(acts@.take(j + 1 as int).last() == acts@[j as int]);
        }
        match key.orchard_try_decrypt(&acts[j]) {
            Some(note) => {
                let ghost nm = note@;
                let nf_copy = copy_bytes(&note.nf);
                orc.register(nf_copy);
                let rec = ReceivedNote {
                    pool: Pool::Orchard,
                    txid: copy_bytes(txid),
                    height,
                    time,
                    position: 0,
                    note,
                };
                let ghost rec_before = received@.map_values(|r: ReceivedNote| r@);
                received.push(rec);
                proof {
                    assert(received@.map_values(|r: ReceivedNote| r@) =~= rec_before.push(
                        ReceivedNoteModel {
                            pool: Pool::Orchard,
                            txid: txid@,
                            height,
                            time,
                            position: 0,
                            note: nm,
                        },
                    ));
                }
            }
            None => {}
        }
        j += 1;
    }
    proof {
        assert(acts@.take(acts@.len() as int) =~= acts@);
    }
}

fn sapling_spends_phase(
    txid: &Vec<u8>,
    height: u32,
    fee: u32,
    sap: &mut Decoder,
    spent: &mut Vec<SpentNote>,
    spends: &Vec<CompactSpend>,
    Ghost(st0): Ghost<TxScanState>,
)
    requires
        st0.sap == old(sap)@,
        st0.spent == old(spent)@.map_values(|s: SpentNote| s@),
        old(sap).pool == Pool::Sapling,
    ensures
        ({
            let st1 = fold_sapling_spends(txid@, height, fee, st0, spends@);
            final(sap)@ == st1.sap && final(sap).pool == Pool::Sapling && final(spent)@.map_values(
                |s: SpentNote| s@,
            ) == st1.spent
        }),
{
    let mut j: usize = 0;
    proof {
        assert(spends@.take(0) =~= Seq::<CompactSpend>::empty());
    }
    while j < spends.len()
        invariant
            j <= spends.len(),
            sap.pool == Pool::Sapling,
            ({
                let stj = fold_sapling_spends(txid@, height, fee, st0, spends@.take(j as int));
                sap@ == stj.sap && spent@.map_values(|s: SpentNote| s@) == stj.spent
            }),
        decreases spends.len() - j,
    {
        let ghost stj = fold_sapling_spends(txid@, height, fee, st0, spends@.take(j as int));
        proof {
            assert(spends@.take(j + 1 as int).drop_last() =~= spends@.take(j as int));
            assert(spends@.take(j + 1 as int).last() == spends@[j as int]);
        }
        if sap.match_spend(&spends[j].nf) {
            let rec = SpentNote {
                pool: Pool::Sapling,
                txid: copy_bytes(txid),
                height,
                fee,
                nf: copy_bytes(&spends[j].nf),
            };
            let ghost spent_before = spent@.map_values(|s: SpentNote| s@);
            spent.push(rec);
            proof {
                assert(spent@.map_values(|s: SpentNote| s@) =~= spent_before.push(
                    SpentNoteModel {
                        pool: Pool::Sapling,
                        txid: txid@,
                        height,
                        fee,
                        nf: spends@[j as int].nf@,
                    },
                ));
            }
        }
        j += 1;
    }
    proof {
        assert(spends@.take(spends@.len() as int) =~= spends@);
    }
}

fn orchard_spends_phase(
    txid: &Vec<u8>,
    height: u32,
    fee: u32,
    orc: &mut Decoder,
    spent: &mut Vec<SpentNote>,
    acts: &Vec<CompactAction>,
    Ghost(st0): Ghost<TxScanState>,
)
    requires
        st0.orc == old(orc)@,
        st0.spent == old(spent)@.map_values(|s: SpentNote| s@),
        old(orc).pool == Pool::Orchard,
    ensures
        ({
            let st1 = fold_orchard_spends(txid@, height, fee, st0, acts@);
            final(orc)@ == st1.orc && final(orc).pool == Pool::Orchard && final(spent)@.map_values(
                |s: SpentNote| s@,
            ) == st1.spent
        }),
{
    let mut j: usize = 0;
    proof {
        assert(acts@.take(0) =~= Seq::<CompactAction>::empty());
    }
    while j < acts.len()
        invariant
            j <= acts.len(),
            orc.pool == Pool::Orchard,
            ({
                let stj = fold_orchard_spends(txid@, height, fee, st0, acts@.take(j as int));
                orc@ == stj.orc && spent@.map_values(|s: SpentNote| s@) == stj.spent
            }),
        decreases acts.len() - j,
    {
        let ghost stj = fold_orchard_spends(txid@, height, fee, st0, acts@.take(j as int));
        proof {
            assert(acts@.take(j + 1 as int).drop_last() =~= acts@.take(j as int));
            assert(acts@.take(j + 1 as int).last() == acts@[j as int]);
        }
        if orc.match_spend(&acts[j].nf) {
            let rec = SpentNote {
                pool: Pool::Orchard,
                txid: copy_bytes(txid),
                height,
                fee,
                nf: copy_bytes(&acts[j].nf),
            };
            let ghost spent_before = spent@.map_values(|s: SpentNote| s@);
            spent.push(rec);
            proof {
                assert(spent@.map_values(|s: SpentNote| s@) =~= spent_before.push(
                    SpentNoteModel {
                        pool: Pool::Orchard,
                        txid: txid@,
                        height,
                        fee,
                        nf: acts@[j as int].nf@,
                    },
                ));
            }
        }
        j += 1;
    }
    proof {
        assert(acts@.take(acts@.len() as int) =~= acts@);
    }
}

fn scan_tx(
    key: &ViewingKey,
    height: u32,
    time: u32,
    tx: &CompactTx,
    sap: &mut Decoder,
    orc: &mut Decoder,
    pos: &mut u64,
    received: &mut Vec<ReceivedNote>,
    spent: &mut Vec<SpentNote>,
    Ghost(st0): Ghost<TxScanState>,
)
    requires
        st0.sap == old(sap)@,
        st0.orc == old(orc)@,
        st0.pos == *old(pos) as int,
        st0.received == old(received)@.map_values(|r: ReceivedNote| r@),
        st0.spent == old(spent)@.map_values(|s: SpentNote| s@),
        *old(pos) + tx.outputs@.len() <= u64::MAX,
        old(sap).pool == Pool::Sapling,
        old(orc).pool == Pool::Orchard,
    ensures
        ({
            let st1 = fold_tx(key.encoding_spec(), height, time, st0, *tx);
            final(sap)@ == st1.sap && final(orc)@ == st1.orc && *final(pos) as int == st1.pos
                && final(received)@.map_values(|r: ReceivedNote| r@) == st1.received && final(spent)@.map_values(|s: SpentNote| s@) == st1.spent && final(sap).pool == Pool::Sapling
                && final(orc).pool == Pool::Orchard
        }),
{
    let ghost vk = key.encoding_spec();
    sapling_outputs_phase(key, &tx.txid, height, time, sap, pos, received, &tx.outputs,
        Ghost(st0));
    let ghost s1 = fold_sapling_outputs(vk, tx.txid@, height, time, st0, tx.outputs@);
    proof {
        lemma_sapling_outputs_frame(vk, tx.txid@, height, time, st0, tx.outputs@);
    }
    orchard_outputs_phase(key, &tx.txid, height, time, orc, received, &tx.actions, Ghost(s1));
    let ghost s2 = fold_orchard_outputs(vk, tx.txid@, height, time, s1, tx.actions@);
    proof {
        lemma_orchard_outputs_frame(vk, tx.txid@, height, time, s1, tx.actions@);
    }
    sapling_spends_phase(&tx.txid, height, tx.fee, sap, spent, &tx.spends, Ghost(s2));
    let ghost s3 = fold_sapling_spends(tx.txid@, height, tx.fee, s2, tx.spends@);
    proof {
        lemma_sapling_spends_frame(tx.txid@, height, tx.fee, s2, tx.spends@);
    }
    orchard_spends_phase(&tx.txid, height, tx.fee, orc, spent, &tx.actions, Ghost(s3));
    proof {
        lemma_orchard_spends_frame(tx.txid@, height, tx.fee, s3, tx.actions@);
    }
}

pub proof fn lemma_count_outputs_prefix(vtx: Seq<CompactTx>, k: int)
    requires
        0 <= k <= vtx.len(),
    ensures
        count_outputs(vtx.take(k)) <= count_outputs(vtx),
    decreases vtx.len(),
{
    lemma_count_outputs_nonneg(vtx);
    if k < vtx.len() {
        assert(vtx.take(k) =~= vtx.drop_last().take(k));
        lemma_count_outputs_prefix(vtx.drop_last(), k);
        lemma_count_outputs_nonneg(vtx.drop_last());
    } else {
        assert(vtx.take(k) =~= vtx);
    }
}

pub proof fn lemma_fold_txs_pos(
    vk: Seq<char>,
    height: u32,
    time: u32,
    st: TxScanState,
    txs: Seq<CompactTx>,
)
    ensures
        fold_txs(vk, height, time, st, txs).pos == st.pos + count_outputs(txs),
    decreases txs.len(),
{
    if txs.len() > 0 {
        lemma_fold_txs_pos(vk, height, time, st, txs.drop_last());
        let prev = fold_txs(vk, height, time, st, txs.drop_last());
        let tx = txs.last();
        lemma_sapling_outputs_frame(vk, tx.txid@, height, time, prev, tx.outputs@);
        let s1 = fold_sapling_outputs(vk, tx.txid@, height, time, prev, tx.outputs@);
        lemma_orchard_outputs_frame(vk, tx.txid@, height, time, s1, tx.actions@);
        let s2 = fold_orchard_outputs(vk, tx.txid@, height, time, s1, tx.actions@);
        lemma_sapling_spends_frame(tx.txid@, height, tx.fee, s2, tx.spends@);
        let s3 = fold_sapling_spends(tx.txid@, height, tx.fee, s2, tx.spends@);
        lemma_orchard_spends_frame(tx.txid@, height, tx.fee, s3, tx.actions@);
    }
}

fn scan_block(
    key: &ViewingKey,
    b: &CompactBlock,
    expected_height: u64,
    sap: &mut Decoder,
    orc: &mut Decoder,
    prev_hash: &Vec<u8>,
) -> (r: Result<BlockEvents, ScanError>)
    requires
        old(sap).pool == Pool::Sapling,
        old(orc).pool == Pool::Orchard,
    ensures
        ({
            let step = block_step(
                key.encoding_spec(),
                ScanState { sap: old(sap)@, orc: old(orc)@, prev_hash: prev_hash@ },
                *b,
                expected_height as int,
            );
            match r {
                Ok(ev) => step matches BlockStep::Good { st, ev: evm } && ev@ == evm && final(sap)@ == st.sap && final(orc)@ == st.orc && final(sap).pool == Pool::Sapling && final(orc).pool == Pool::Orchard,
                Err(ScanError::Reorganization) => step is Reorg,
                Err(ScanError::Other) => step is Malformed,
            }
        }),
{
    let ghost vk = key.encoding_spec();
    let ghost st_in = ScanState { sap: sap@, orc: orc@, prev_hash: prev_hash@ };
    if b.height as u64 != expected_height {
        return Err(ScanError::Other);
    }
    if !crate::chain::bytes_eq(&b.prev_hash, prev_hash) {
        return Err(ScanError::Reorganization);
    }
    // The commitment tree must have room for every output of the block; its
    // end-of-block size anchors the position of the block's first output.
    let mut remaining: u64 = b.sapling_tree_size;
    let mut i: usize = 0;
    proof {
        assert(b.vtx@.take(0) =~= Seq::<CompactTx>::empty());
    }
    while i < b.vtx.len()
        invariant
            i <= b.vtx.len(),
            b.height as u64 == expected_height,
            b.prev_hash@ == prev_hash@,
            count_outputs(b.vtx@.take(i as int)) <= b.sapling_tree_size,
            remaining == b.sapling_tree_size - count_outputs(b.vtx@.take(i as int)),
        decreases b.vtx.len() - i,
    {
        proof {
            assert(b.vtx@.take(i + 1 as int).drop_last() =~= b.vtx@.take(i as int));
            assert(b.vtx@.take(i + 1 as int).last() == b.vtx@[i as int]);
            lemma_count_outputs_nonneg(b.vtx@.take(i as int));
        }
        let n = b.vtx[i].outputs.len() as u64;
        if n > remaining {
            proof {
                lemma_count_outputs_prefix(b.vtx@, i + 1);
            }
            return Err(ScanError::Other);
        }
        remaining = remaining - n;
        i += 1;
    }
    proof {
        assert(b.vtx@.take(b.vtx@.len() as int) =~= b.vtx@);
        lemma_count_outputs_nonneg(b.vtx@);
    }
    let base = remaining;
    let mut pos: u64 = base;
    let mut received: Vec<ReceivedNote> = Vec::new();
    let mut spent: Vec<SpentNote> = Vec::new();
    let ghost t0 = TxScanState {
        sap: st_in.sap,
        orc: st_in.orc,
        pos: base as int,
        received: Seq::empty(),
        spent: Seq::empty(),
    };
    let mut i: usize = 0;
    proof {
        assert(received@.map_values(|r: ReceivedNote| r@) =~= Seq::<ReceivedNoteModel>::empty());
        assert(spent@.map_values(|s: SpentNote| s@) =~= Seq::<SpentNoteModel>::empty());
    }
    while i < b.vtx.len()
        invariant
            i <= b.vtx.len(),
            vk == key.encoding_spec(),
            sap.pool == Pool::Sapling,
            orc.pool == Pool::Orchard,
            b.height as u64 == expected_height,
            b.prev_hash@ == prev_hash@,
            b.sapling_tree_size >= count_outputs(b.vtx@),
            base == b.sapling_tree_size - count_outputs(b.vtx@),
            t0 == (TxScanState {
                sap: old(sap)@,
                orc: old(orc)@,
                pos: base as int,
                received: Seq::<ReceivedNoteModel>::empty(),
                spent: Seq::<SpentNoteModel>::empty(),
            }),
            t0.pos + count_outputs(b.vtx@) <= u64::MAX,
            ({
                let ti = fold_txs(vk, b.height, b.time, t0, b.vtx@.take(i as int));
                sap@ == ti.sap && orc@ == ti.orc && pos as int == ti.pos && received@.map_values(
                    |r: ReceivedNote| r@,
                ) == ti.received && spent@.map_values(|s: SpentNote| s@) == ti.spent
            }),
        decreases b.vtx.len() - i,
    {
        let ghost ti = fold_txs(vk, b.height, b.time, t0, b.vtx@.take(i as int));
        proof {
            assert(b.vtx@.take(i + 1 as int).drop_last() =~= b.vtx@.take(i as int));
            assert(b.vtx@.take(i + 1 as int).last() == b.vtx@[i as int]);
            lemma_fold_txs_pos(vk, b.height, b.time, t0, b.vtx@.take(i as int));
            lemma_count_outputs_prefix(b.vtx@, i + 1);
            lemma_count_outputs_nonneg(b.vtx@.take(i as int));
            assert(count_outputs(b.vtx@.take(i + 1 as int)) == count_outputs(
                b.vtx@.take(i as int),
            ) + b.vtx@[i as int].outputs@.len());
        }
        scan_tx(key, b.height, b.time, &b.vtx[i], sap, orc, &mut pos, &mut received, &mut spent,
            Ghost(ti));
        i += 1;
    }
    proof {
        assert(b.vtx@.take(b.vtx@.len() as int) =~= b.vtx@);
    }
    let info = BlockInfo { height: b.height, hash: copy_bytes(&b.hash), time: b.time };
    Ok(BlockEvents { block: info, received, spent })
}

/// Extending a failed scan with more blocks keeps the same failure.
pub proof fn lemma_scan_blocks_fail_absorb(
    vk: Seq<char>,
    st0: ScanState,
    blocks: Seq<CompactBlock>,
    start: int,
    k: int,
)
    requires
        0 <= k <= blocks.len(),
        !(scan_blocks(vk, st0, blocks.take(k), start) is Good),
    ensures
        scan_blocks(vk, st0, blocks, start) == scan_blocks(vk, st0, blocks.take(k), start),
    decreases blocks.len() - k,
{
    if k == blocks.len() {
        assert(blocks.take(k) =~= blocks);
    } else {
        assert(blocks.take(k + 1).drop_last() =~= blocks.take(k));
        lemma_scan_blocks_fail_absorb(vk, st0, blocks, start, k + 1);
    }
}

/// Range-splitting equivalence: when scanning `b1` from some starting state
/// succeeds, scanning `b1 + b2` in one call is the same as scanning `b1` and
/// then scanning `b2` from the state `b1` left behind — the same outcome,
/// and on success the same aggregate events, concatenated in order. A range
/// `[a, c]` may therefore be scanned as `[a, b]` followed by `[b + 1, c]`
/// with identical results, given identical decoder starting state.
pub proof fn lemma_scan_range_split(
    vk: Seq<char>,
    st0: ScanState,
    b1: Seq<CompactBlock>,
    b2: Seq<CompactBlock>,
    start: int,
)
    ensures
        ({
            match scan_blocks(vk, st0, b1, start) {
                ScanModel::Good { st, events } => scan_blocks(vk, st0, b1 + b2, start) == (
                match scan_blocks(vk, st, b2, start + b1.len()) {
                    ScanModel::Good { st: st2, events: e2 } => ScanModel::Good {
                        st: st2,
                        events: events + e2,
                    },
                    ScanModel::Reorg => ScanModel::Reorg,
                    ScanModel::Malformed => ScanModel::Malformed,
                }),
                _ => true,
            }
        }),
    decreases b2.len(),
{
    match scan_blocks(vk, st0, b1, start) {
        ScanModel::Good { st, events } => {
            if b2.len() == 0 {
                assert(b1 + b2 =~= b1);
                assert(events + Seq::<BlockEventsModel>::empty() =~= events);
            } else {
                lemma_scan_range_split(vk, st0, b1, b2.drop_last(), start);
                assert((b1 + b2).drop_last() =~= b1 + b2.drop_last());
                assert((b1 + b2).last() == b2.last());
                match scan_blocks(vk, st, b2.drop_last(), start + b1.len()) {
                    ScanModel::Good { st: stp, events: ep } => {
                        assert((b1 + b2).len() - 1 == start + b1.len() + b2.len() - 1 - start);
                        match block_step(vk, stp, b2.last(), start + b1.len() + b2.len() - 1) {
                            BlockStep::Good { st: st2, ev } => {
                                assert((events + ep).push(ev) =~= events + ep.push(ev));
                            }
                            _ => {}
                        }
                    }
                    _ => {}
                }
            }
        }
        _ => {}
    }
}

/// Block `k` chains onto what stands before it: its declared parent hash is
/// the previous block's hash, or the trusted starting hash for the first
/// block of the range.
pub open spec fn chained_at(st0: ScanState, blocks: Seq<CompactBlock>, k: int) -> bool {
    if k == 0 {
        blocks[0].prev_hash@ == st0.prev_hash
    } else {
        blocks[k].prev_hash@ == blocks[k - 1].hash@
    }
}

/// Block `k` is well-formed for a range beginning at `start`: it stands at
/// the expected height and its commitment tree has room for its outputs.
pub open spec fn shape_ok_at(blocks: Seq<CompactBlock>, start: int, k: int) -> bool {
    blocks[k].height == start + k && blocks[k].sapling_tree_size >= count_outputs(blocks[k].vtx@)
}

proof fn lemma_scan_prefix_good(
    vk: Seq<char>,
    st0: ScanState,
    blocks: Seq<CompactBlock>,
    start: int,
    k: int,
)
    requires
        0 <= k <= blocks.len(),
        forall|i: int| 0 <= i < k ==> shape_ok_at(blocks, start, i) && chained_at(st0, blocks, i),
    ensures
        scan_blocks(vk, st0, blocks.take(k), start) is Good,
        scan_blocks(vk, st0, blocks.take(k), start)->Good_st.prev_hash == (if k == 0 {
            st0.prev_hash
        } else {
            blocks[k - 1].hash@
        }),
    decreases k,
{
    if k == 0 {
        assert(blocks.take(0) =~= Seq::<CompactBlock>::empty());
    } else {
        lemma_scan_prefix_good(vk, st0, blocks, start, k - 1);
        assert(blocks.take(k).drop_last() =~= blocks.take(k - 1));
        assert(blocks.take(k).last() == blocks[k - 1]);
        assert(shape_ok_at(blocks, start, k - 1) && chained_at(st0, blocks, k - 1));
    }
}

/// Continuity: if every block before `k` is well-formed and chains
/// correctly, block `k` stands at its expected height, and block `k`'s
/// declared parent hash does not match the locally trusted hash of the block
/// before it, then the scan of the whole range is a reorganization — and by
/// the contract of [`scan`], the call then returns `Reorganization` and
/// yields no events at all.
pub proof fn lemma_scan_continuity(
    vk: Seq<char>,
    st0: ScanState,
    blocks: Seq<CompactBlock>,
    start: int,
    k: int,
)
    requires
        0 <= k < blocks.len(),
        forall|i: int| 0 <= i < k ==> shape_ok_at(blocks, start, i) && chained_at(st0, blocks, i),
        blocks[k].height == start + k,
        !chained_at(st0, blocks, k),
    ensures
        scan_blocks(vk, st0, blocks, start) is Reorg,
{
    lemma_scan_prefix_good(vk, st0, blocks, start, k);
    assert(blocks.take(k + 1).drop_last() =~= blocks.take(k));
    assert(blocks.take(k + 1).last() == blocks[k]);
    lemma_scan_blocks_fail_absorb(vk, st0, blocks, start, k + 1);
}

proof fn lemma_fold_events_extend(
    vk: Seq<char>,
    height: u32,
    time: u32,
    st: TxScanState,
    txs: Seq<CompactTx>,
)
    ensures
        ({
            let st1 = fold_txs(vk, height, time, st, txs);
            &&& st1.received.len() >= st.received.len()
            &&& forall|j: int| 0 <= j < st.received.len() ==> st1.received[j] == st.received[j]
            &&& forall|j: int|
                st.received.len() <= j < st1.received.len() ==> (#[trigger] st1.received[j]).height
                    == height
            &&& st1.spent.len() >= st.spent.len()
            &&& forall|j: int| 0 <= j < st.spent.len() ==> st1.spent[j] == st.spent[j]
            &&& forall|j: int|
                st.spent.len() <= j < st1.spent.len() ==> (#[trigger] st1.spent[j]).height
                    == height
        }),
    decreases txs.len(),
{
    if txs.len() > 0 {
        lemma_fold_events_extend(vk, height, time, st, txs.drop_last());
        let prev = fold_txs(vk, height, time, st, txs.drop_last());
        let tx = txs.last();
        lemma_phase_events_extend(vk, height, time, prev, tx);
    }
}

proof fn lemma_phase_events_extend(
    vk: Seq<char>,
    height: u32,
    time: u32,
    st: TxScanState,
    tx: CompactTx,
)
    ensures
        ({
            let st1 = fold_tx(vk, height, time, st, tx);
            &&& st1.received.len() >= st.received.len()
            &&& forall|j: int| 0 <= j < st.received.len() ==> st1.received[j] == st.received[j]
            &&& forall|j: int|
                st.received.len() <= j < st1.received.len() ==> (#[trigger] st1.received[j]).height
                    == height
            &&& st1.spent.len() >= st.spent.len()
            &&& forall|j: int| 0 <= j < st.spent.len() ==> st1.spent[j] == st.spent[j]
            &&& forall|j: int|
                st.spent.len() <= j < st1.spent.len() ==> (#[trigger] st1.spent[j]).height
                    == height
        }),
{
    lemma_sap_out_events(vk, tx.txid@, height, time, st, tx.outputs@);
    let s1 = fold_sapling_outputs(vk, tx.txid@, height, time, st, tx.outputs@);
    lemma_orc_out_events(vk, tx.txid@, height, time, s1, tx.actions@);
    let s2 = fold_orchard_outputs(vk, tx.txid@, height, time, s1, tx.actions@);
    lemma_sapling_outputs_frame(vk, tx.txid@, height, time, st, tx.outputs@);
    lemma_orchard_outputs_frame(vk, tx.txid@, height, time, s1, tx.actions@);
    lemma_sap_spend_events(tx.txid@, height, tx.fee, s2, tx.spends@);
    let s3 = fold_sapling_spends(tx.txid@, height, tx.fee, s2, tx.spends@);
    lemma_sapling_spends_frame(tx.txid@, height, tx.fee, s2, tx.spends@);
    lemma_orc_spend_events(tx.txid@, height, tx.fee, s3, tx.actions@);
    lemma_orchard_spends_frame(tx.txid@, height, tx.fee, s3, tx.actions@);
}

proof fn lemma_sap_out_events(
    vk: Seq<char>,
    txid: Seq<u8>,
    height: u32,
    time: u32,
    st: TxScanState,
    outs: Seq<CompactOutput>,
)
    ensures
        ({
            let st1 = fold_sapling_outputs(vk, txid, height, time, st, outs);
            &&& st1.received.len() >= st.received.len()
            &&& forall|j: int| 0 <= j < st.received.len() ==> st1.received[j] == st.received[j]
            &&& forall|j: int|
                st.received.len() <= j < st1.received.len() ==> (#[trigger] st1.received[j]).height
                    == height
        }),
    decreases outs.len(),
{
    if outs.len() > 0 {
        lemma_sap_out_events(vk, txid, height, time, st, outs.drop_last());
    }
}

proof fn lemma_orc_out_events(
    vk: Seq<char>,
    txid: Seq<u8>,
    height: u32,
    time: u32,
    st: TxScanState,
    acts: Seq<CompactAction>,
)
    ensures
        ({
            let st1 = fold_orchard_outputs(vk, txid, height, time, st, acts);
            &&& st1.received.len() >= st.received.len()
            &&& forall|j: int| 0 <= j < st.received.len() ==> st1.received[j] == st.received[j]
            &&& forall|j: int|
                st.received.len() <= j < st1.received.len() ==> (#[trigger] st1.received[j]).height
                    == height
        }),
    decreases acts.len(),
{
    if acts.len() > 0 {
        lemma_orc_out_events(vk, txid, height, time, st, acts.drop_last());
    }
}

proof fn lemma_sap_spend_events(txid: Seq<u8>, height: u32, fee: u32, st: TxScanState, spends: Seq<
    CompactSpend,
>)
    ensures
        ({
            let st1 = fold_sapling_spends(txid, height, fee, st, spends);
            &&& st1.spent.len() >= st.spent.len()
            &&& forall|j: int| 0 <= j < st.spent.len() ==> st1.spent[j] == st.spent[j]
            &&& forall|j: int|
                st.spent.len() <= j < st1.spent.len() ==> (#[trigger] st1.spent[j]).height
                    == height
        }),
    decreases spends.len(),
{
    if spends.len() > 0 {
        lemma_sap_spend_events(txid, height, fee, st, spends.drop_last());
    }
}

proof fn lemma_orc_spend_events(txid: Seq<u8>, height: u32, fee: u32, st: TxScanState, acts: Seq<
    CompactAction,
>)
    ensures
        ({
            let st1 = fold_orchard_spends(txid, height, fee, st, acts);
            &&& st1.spent.len() >= st.spent.len()
            &&& forall|j: int| 0 <= j < st.spent.len() ==> st1.spent[j] == st.spent[j]
            &&& forall|j: int|
                st.spent.len() <= j < st1.spent.len() ==> (#[trigger] st1.spent[j]).height
                    == height
        }),
    decreases acts.len(),
{
    if acts.len() > 0 {
        lemma_orc_spend_events(txid, height, fee, st, acts.drop_last());
    }
}

/// Every event a successful scan reports stands at the height of the block
/// that produced it.
pub proof fn lemma_scan_good_events_heights(
    vk: Seq<char>,
    st0: ScanState,
    blocks: Seq<CompactBlock>,
    start: int,
)
    ensures
        ({
            match scan_blocks(vk, st0, blocks, start) {
                ScanModel::Good { st, events } => forall|i: int|
                    0 <= i < events.len() ==> {
                        let be = #[trigger] events[i];
                        &&& (forall|j: int|
                            0 <= j < be.received.len() ==> (#[trigger] be.received[j]).height
                                == be.block.height)
                        &&& (forall|j: int|
                            0 <= j < be.spent.len() ==> (#[trigger] be.spent[j]).height
                                == be.block.height)
                    },
                _ => true,
            }
        }),
    decreases blocks.len(),
{
    if blocks.len() > 0 {
        lemma_scan_good_events_heights(vk, st0, blocks.drop_last(), start);
        match scan_blocks(vk, st0, blocks.drop_last(), start) {
            ScanModel::Good { st, events } => {
                let b = blocks.last();
                match block_step(vk, st, b, start + blocks.len() - 1) {
                    BlockStep::Good { st: st2, ev } => {
                        let t0 = TxScanState {
                            sap: st.sap,
                            orc: st.orc,
                            pos: b.sapling_tree_size - count_outputs(b.vtx@),
                            received: Seq::empty(),
                            spent: Seq::empty(),
                        };
                        lemma_fold_events_extend(vk, b.height, b.time, t0, b.vtx@);
                    },
                    _ => {},
                }
            },
            _ => {},
        }
    }
}

/// A successful scan yields exactly one event group per block, standing at
/// consecutive heights from the start of the range, and leaves the last
/// block's hash as the trusted hash.
pub proof fn lemma_scan_good_shape(
    vk: Seq<char>,
    st0: ScanState,
    blocks: Seq<CompactBlock>,
    start: int,
)
    ensures
        ({
            match scan_blocks(vk, st0, blocks, start) {
                ScanModel::Good { st, events } => {
                    &&& events.len() == blocks.len()
                    &&& forall|i: int| 0 <= i < events.len() ==> (#[trigger] events[i]).block.height
                        == start + i
                },
                _ => true,
            }
        }),
    decreases blocks.len(),
{
    if blocks.len() > 0 {
        lemma_scan_good_shape(vk, st0, blocks.drop_last(), start);
    }
}

/// Scans the compact blocks for the height range beginning at
/// `start_height`, in order, against the trusted hash of the block before
/// the range. The outcome — and on success both the aggregated events and
/// the decoders' final working sets — is exactly what the spec-level fold
/// [`scan_blocks`] says for the same inputs; a continuity mismatch yields
/// `Reorganization` and malformed block data yields `Other`, with no events
/// in either case.
pub fn scan(
    key: &ViewingKey,
    blocks: &Vec<CompactBlock>,
    start_height: u32,
    prev_hash: &Vec<u8>,
    sap: &mut Decoder,
    orc: &mut Decoder,
) -> (r: Result<ScanEvents, ScanError>)
    requires
        old(sap).pool == Pool::Sapling,
        old(orc).pool == Pool::Orchard,
        blocks@.len() <= 0xffff_ffff as int,
    ensures
        ({
            let m = scan_blocks(
                key.encoding_spec(),
                ScanState { sap: old(sap)@, orc: old(orc)@, prev_hash: prev_hash@ },
                blocks@,
                start_height as int,
            );
            match r {
                Ok(ev) => m matches ScanModel::Good { st, events } && ev@ == events && final(sap)@ == st.sap && final(orc)@ == st.orc && final(sap).pool == Pool::Sapling && final(orc).pool == Pool::Orchard,
                Err(ScanError::Reorganization) => m is Reorg,
                Err(ScanError::Other) => m is Malformed,
            }
        }),
{
    let ghost vk = key.encoding_spec();
    let ghost st0 = ScanState { sap: sap@, orc: orc@, prev_hash: prev_hash@ };
    let mut cur_prev: Vec<u8> = copy_bytes(prev_hash);
    let mut acc: Vec<BlockEvents> = Vec::new();
    let mut i: usize = 0;
    proof {
        assert(blocks@.take(0) =~= Seq::<CompactBlock>::empty());
        assert(acc@.map_values(|b: BlockEvents| b@) =~= Seq::<BlockEventsModel>::empty());
    }
    while i < blocks.len()
        invariant
            i <= blocks.len(),
            vk == key.encoding_spec(),
            st0 == (ScanState { sap: old(sap)@, orc: old(orc)@, prev_hash: prev_hash@ }),
            start_height + blocks@.len() <= u64::MAX,
            blocks@.len() <= 0xffff_ffff as int,
            sap.pool == Pool::Sapling,
            orc.pool == Pool::Orchard,
            scan_blocks(vk, st0, blocks@.take(i as int), start_height as int)
                == (ScanModel::Good {
                st: ScanState { sap: sap@, orc: orc@, prev_hash: cur_prev@ },
                events: acc@.map_values(|b: BlockEvents| b@),
            }),
        decreases blocks.len() - i,
    {
        proof {
            assert(blocks@.take(i + 1 as int).drop_last() =~= blocks@.take(i as int));
            assert(blocks@.take(i + 1 as int).last() == blocks@[i as int]);
        }
        let expected: u64 = start_height as u64 + i as u64;
        let ghost acc_before = acc@.map_values(|b: BlockEvents| b@);
        match scan_block(key, &blocks[i], expected, sap, orc, &cur_prev) {
            Ok(ev) => {
                cur_prev = copy_bytes(&blocks[i].hash);
                let ghost evm = ev@;
                acc.push(ev);
                proof {
                    assert(acc@.map_values(|b: BlockEvents| b@) =~= acc_before.push(evm));
                }
            }
            Err(e) => {
                proof {
                    lemma_scan_blocks_fail_absorb(vk, st0, blocks@, start_height as int,
                        i + 1 as int);
                }
                return Err(e);
            }
        }
        i += 1;
    }
    proof {
        assert(blocks@.take(blocks@.len() as int) =~= blocks@);
    }
    Ok(ScanEvents { blocks: acc })
}

} // verus!
