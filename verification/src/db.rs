//! The indexed store.
//!
//! Durable wallet state: accounts, addresses, the scanned block hash-chain,
//! discovered notes with their nullifiers, transfer records, and the
//! synced-height watermark. Scan events are applied atomically per call and
//! the store can be rewound to an earlier height; balances and transfer
//! history are served from here.

use vstd::prelude::*;
use crate::account::{AccountBalance, SubAccount};
use crate::chain::{bytes_eq, copy_string, txid_hex_of, txid_to_hex};
use crate::decoder::Pool;
use crate::keys::ViewingKey;
use crate::scan::{BlockInfo, BlockInfoModel, BlockEventsModel, ReceivedNoteModel, ScanEvents,
    SpentNoteModel};
use crate::transaction::{confirmations_of, SubAddrIndex, Transfer, TransferModel};

verus! {

/// An account row: only its display label; its index is its position.
pub struct AccountRow {
    pub label: String,
}

/// Spec-level image of an [`AccountRow`].
pub struct AccountRowModel {
    pub label: Seq<char>,
}

impl View for AccountRow {
    type V = AccountRowModel;

    open spec fn view(&self) -> AccountRowModel {
        AccountRowModel { label: self.label@ }
    }
}

/// An address row: the sub-account it names, the diversifier index it was
/// derived at, its display encoding and its raw per-pool receivers.
pub struct AddrRow {
    pub account_index: u32,
    pub sub_account_index: u32,
    pub diversifier_index: u64,
    pub address: String,
    pub sapling_receiver: Vec<u8>,
    pub orchard_receiver: Vec<u8>,
    pub label: String,
}

/// Spec-level image of an [`AddrRow`].
pub struct AddrRowModel {
    pub account_index: u32,
    pub sub_account_index: u32,
    pub diversifier_index: u64,
    pub address: Seq<char>,
    pub sapling_receiver: Seq<u8>,
    pub orchard_receiver: Seq<u8>,
    pub label: Seq<char>,
}

impl View for AddrRow {
    type V = AddrRowModel;

    open spec fn view(&self) -> AddrRowModel {
        AddrRowModel {
            account_index: self.account_index,
            sub_account_index: self.sub_account_index,
            diversifier_index: self.diversifier_index,
            address: self.address@,
            sapling_receiver: self.sapling_receiver@,
            orchard_receiver: self.orchard_receiver@,
            label: self.label@,
        }
    }
}

/// A discovered note: owner, value, the height it was mined at, its
/// nullifier — computed once at discovery and immutable — and, once a
/// matching spend was seen, the height it was spent at.
pub struct NoteRow {
    pub pool: Pool,
    pub account_index: u32,
    pub sub_account_index: u32,
    pub value: u64,
    pub height: u32,
    pub nf: Vec<u8>,
    pub spent_height: Option<u32>,
    pub txid: Vec<u8>,
    pub position: u64,
}

/// Spec-level image of a [`NoteRow`].
pub struct NoteRowModel {
    pub pool: Pool,
    pub account_index: u32,
    pub sub_account_index: u32,
    pub value: u64,
    pub height: u32,
    pub nf: Seq<u8>,
    pub spent_height: Option<u32>,
    pub txid: Seq<u8>,
    pub position: int,
}

impl View for NoteRow {
    type V = NoteRowModel;

    open spec fn view(&self) -> NoteRowModel {
        NoteRowModel {
            pool: self.pool,
            account_index: self.account_index,
            sub_account_index: self.sub_account_index,
            value: self.value,
            height: self.height,
            nf: self.nf@,
            spent_height: self.spent_height,
            txid: self.txid@,
            position: self.position as int,
        }
    }
}

/// A stored transfer record; confirmations are computed at query time.
pub struct TransferRow {
    pub txid_hex: String,
    pub account_index: u32,
    pub sub_account_index: u32,
    pub address: String,
    pub amount: u64,
    pub fee: u64,
    pub height: u32,
    pub timestamp: u64,
    pub incoming: bool,
}

/// Spec-level image of a [`TransferRow`].
pub struct TransferRowModel {
    pub txid_hex: Seq<char>,
    pub account_index: u32,
    pub sub_account_index: u32,
    pub address: Seq<char>,
    pub amount: u64,
    pub fee: u64,
    pub height: u32,
    pub timestamp: u64,
    pub incoming: bool,
}

impl View for TransferRow {
    type V = TransferRowModel;

    open spec fn view(&self) -> TransferRowModel {
        TransferRowModel {
            txid_hex: self.txid_hex@,
            account_index: self.account_index,
            sub_account_index: self.sub_account_index,
            address: self.address@,
            amount: self.amount,
            fee: self.fee,
            height: self.height,
            timestamp: self.timestamp,
            incoming: self.incoming,
        }
    }
}

/// Spec-level image of the whole store.
pub struct DbModel {
    pub birth_height: u32,
    pub synced_height: u32,
    pub next_diversifier: u64,
    pub accounts: Seq<AccountRowModel>,
    pub addrs: Seq<AddrRowModel>,
    pub blocks: Seq<BlockInfoModel>,
    pub notes: Seq<NoteRowModel>,
    pub transfers: Seq<TransferRowModel>,
}

/// The indexed store. All state lives in memory; the host process decides
/// how it is persisted.
pub struct Db {
    pub key: ViewingKey,
    pub birth_height: u32,
    pub synced_height: u32,
    pub next_diversifier: u64,
    pub accounts: Vec<AccountRow>,
    pub addrs: Vec<AddrRow>,
    pub blocks: Vec<BlockInfo>,
    pub notes: Vec<NoteRow>,
    pub transfers: Vec<TransferRow>,
}

impl View for Db {
    type V = DbModel;

    open spec fn view(&self) -> DbModel {
        DbModel {
            birth_height: self.birth_height,
            synced_height: self.synced_height,
            next_diversifier: self.next_diversifier,
            accounts: self.accounts@.map_values(|r: AccountRow| r@),
            addrs: self.addrs@.map_values(|r: AddrRow| r@),
            blocks: self.blocks@.map_values(|r: BlockInfo| r@),
            notes: self.notes@.map_values(|r: NoteRow| r@),
            transfers: self.transfers@.map_values(|r: TransferRow| r@),
        }
    }
}

/// Well-formedness of a store image: the block rows form the contiguous
/// hash-chain from the birth height up to the synced height, inclusive.
pub open spec fn wf_model(m: DbModel) -> bool {
    &&& m.birth_height <= m.synced_height
    &&& m.blocks.len() == m.synced_height - m.birth_height + 1
    &&& forall|i: int| 0 <= i < m.blocks.len() ==> (#[trigger] m.blocks[i]).height
        == m.birth_height + i
}

/// Index of the first address row naming sub-account `(a, s)`, or `-1`.
pub open spec fn find_addr(addrs: Seq<AddrRowModel>, a: u32, s: u32) -> int
    decreases addrs.len(),
{
    if addrs.len() == 0 {
        -1
    } else if addrs[0].account_index == a && addrs[0].sub_account_index == s {
        0
    } else {
        let rest = find_addr(addrs.drop_first(), a, s);
        if rest < 0 {
            -1
        } else {
            rest + 1
        }
    }
}

pub proof fn lemma_find_addr_props(addrs: Seq<AddrRowModel>, a: u32, s: u32)
    ensures
        find_addr(addrs, a, s) >= 0 ==> find_addr(addrs, a, s) < addrs.len() && addrs[find_addr(
            addrs,
            a,
            s,
        )].account_index == a && addrs[find_addr(addrs, a, s)].sub_account_index == s,
        find_addr(addrs, a, s) >= 0 ==> forall|i: int|
            0 <= i < find_addr(addrs, a, s) ==> !((#[trigger] addrs[i]).account_index == a
                && addrs[i].sub_account_index == s),
        find_addr(addrs, a, s) < 0 ==> forall|i: int|
            0 <= i < addrs.len() ==> !((#[trigger] addrs[i]).account_index == a
                && addrs[i].sub_account_index == s),
    decreases addrs.len(),
{
    if addrs.len() > 0 && !(addrs[0].account_index == a && addrs[0].sub_account_index == s) {
        lemma_find_addr_props(addrs.drop_first(), a, s);
        let rest = addrs.drop_first();
        assert forall|i: int| 1 <= i < addrs.len() implies addrs[i] == rest[i - 1] by {}
    }
}

/// The raw receiver an address row holds for a pool.
pub open spec fn receiver_of(row: AddrRowModel, pool: Pool) -> Seq<u8> {
    match pool {
        Pool::Sapling => row.sapling_receiver,
        Pool::Orchard => row.orchard_receiver,
    }
}

/// Index of the first address row whose receiver for `pool` is `recv`, or
/// `-1`.
pub open spec fn find_receiver(addrs: Seq<AddrRowModel>, pool: Pool, recv: Seq<u8>) -> int
    decreases addrs.len(),
{
    if addrs.len() == 0 {
        -1
    } else if receiver_of(addrs[0], pool) == recv {
        0
    } else {
        let rest = find_receiver(addrs.drop_first(), pool, recv);
        if rest < 0 {
            -1
        } else {
            rest + 1
        }
    }
}

pub proof fn lemma_find_receiver_props(addrs: Seq<AddrRowModel>, pool: Pool, recv: Seq<u8>)
    ensures
        find_receiver(addrs, pool, recv) >= 0 ==> find_receiver(addrs, pool, recv) < addrs.len()
            && receiver_of(addrs[find_receiver(addrs, pool, recv)], pool) == recv,
        find_receiver(addrs, pool, recv) >= 0 ==> forall|i: int|
            0 <= i < find_receiver(addrs, pool, recv) ==> receiver_of(#[trigger] addrs[i], pool)
                != recv,
        find_receiver(addrs, pool, recv) < 0 ==> forall|i: int|
            0 <= i < addrs.len() ==> receiver_of(#[trigger] addrs[i], pool) != recv,
    decreases addrs.len(),
{
    if addrs.len() > 0 && receiver_of(addrs[0], pool) != recv {
        lemma_find_receiver_props(addrs.drop_first(), pool, recv);
        let rest = addrs.drop_first();
        assert forall|i: int| 1 <= i < addrs.len() implies addrs[i] == rest[i - 1] by {}
    }
}

/// Index of the first not-yet-spent note of `pool` carrying nullifier `nf`,
/// or `-1`.
pub open spec fn find_note(notes: Seq<NoteRowModel>, pool: Pool, nf: Seq<u8>) -> int
    decreases notes.len(),
{
    if notes.len() == 0 {
        -1
    } else if notes[0].pool == pool && notes[0].spent_height is None && notes[0].nf == nf {
        0
    } else {
        let rest = find_note(notes.drop_first(), pool, nf);
        if rest < 0 {
            -1
        } else {
            rest + 1
        }
    }
}

pub proof fn lemma_find_note_props(notes: Seq<NoteRowModel>, pool: Pool, nf: Seq<u8>)
    ensures
        find_note(notes, pool, nf) >= 0 ==> find_note(notes, pool, nf) < notes.len() && ({
            let n = notes[find_note(notes, pool, nf)];
            n.pool == pool && n.spent_height is None && n.nf == nf
        }),
        find_note(notes, pool, nf) >= 0 ==> forall|i: int|
            0 <= i < find_note(notes, pool, nf) ==> !((#[trigger] notes[i]).pool == pool
                && notes[i].spent_height is None && notes[i].nf == nf),
        find_note(notes, pool, nf) < 0 ==> forall|i: int|
            0 <= i < notes.len() ==> !((#[trigger] notes[i]).pool == pool && notes[i].spent_height
                is None && notes[i].nf == nf),
    decreases notes.len(),
{
    if notes.len() > 0 && !(notes[0].pool == pool && notes[0].spent_height is None && notes[0].nf
        == nf) {
        lemma_find_note_props(notes.drop_first(), pool, nf);
        let rest = notes.drop_first();
        assert forall|i: int| 1 <= i < notes.len() implies notes[i] == rest[i - 1] by {}
    }
}

impl Db {
    /// Well-formedness of the store.
    pub open spec fn wf(&self) -> bool {
        wf_model(self@)
    }

    /// A fresh store for a wallet born at `birth_height`, whose block table
    /// is seeded with the birth block's hash; nothing is scanned yet and no
    /// account exists yet.
    pub fn new(key: ViewingKey, birth_height: u32, birth_hash: Vec<u8>) -> (r: Db)
        ensures
            r.wf(),
            r@.birth_height == birth_height,
            r@.synced_height == birth_height,
            r@.next_diversifier == 0,
            r@.accounts == Seq::<AccountRowModel>::empty(),
            r@.addrs == Seq::<AddrRowModel>::empty(),
            r@.notes == Seq::<NoteRowModel>::empty(),
            r@.transfers == Seq::<TransferRowModel>::empty(),
            r@.blocks.len() == 1,
            r@.blocks[0].height == birth_height,
            r@.blocks[0].hash == birth_hash@,
            r.key == key,
    {
        let mut blocks: Vec<BlockInfo> = Vec::new();
        blocks.push(BlockInfo { height: birth_height, hash: birth_hash, time: 0 });
        let r = Db {
            key,
            birth_height,
            synced_height: birth_height,
            next_diversifier: 0,
            accounts: Vec::new(),
            addrs: Vec::new(),
            blocks,
            notes: Vec::new(),
            transfers: Vec::new(),
        };
        proof {
            assert(r@.accounts =~= Seq::<AccountRowModel>::empty());
            assert(r@.addrs =~= Seq::<AddrRowModel>::empty());
            assert(r@.notes =~= Seq::<NoteRowModel>::empty());
            assert(r@.transfers =~= Seq::<TransferRowModel>::empty());
        }
        r
    }

    /// The highest height whose data is durably applied.
    pub fn get_synced_height(&self) -> (r: u32)
        ensures
            r == self@.synced_height,
    {
        self.synced_height
    }

    /// The stored hash of the block at `height`: present exactly for the
    /// heights the hash-chain covers.
    pub fn get_block_hash(&self, height: u32) -> (r: Option<Vec<u8>>)
        requires
            self.wf(),
        ensures
            match r {
                Some(h) => self@.birth_height <= height <= self@.synced_height && h@
                    == self@.blocks[height - self@.birth_height].hash,
                None => !(self@.birth_height <= height <= self@.synced_height),
            },
    {
        if height < self.birth_height || height > self.synced_height {
            return None;
        }
        let idx = (height - self.birth_height) as usize;
        Some(crate::scan::copy_bytes(&self.blocks[idx].hash))
    }

    /// The nullifiers of the not-yet-spent notes of one pool, in note order:
    /// the working set a fresh decoder for that pool starts from.
    pub fn get_nfs_for(&self, pool: Pool) -> (r: Vec<Vec<u8>>)
        ensures
            r@.map_values(|v: Vec<u8>| v@) == unspent_nfs_for(self@.notes, pool),
    {
        let mut r: Vec<Vec<u8>> = Vec::new();
        let mut i: usize = 0;
        proof {
            assert(self@.notes.take(0) =~= Seq::<NoteRowModel>::empty());
            assert(r@.map_values(|v: Vec<u8>| v@) =~= Seq::<Seq<u8>>::empty());
        }
        while i < self.notes.len()
            invariant
                i <= self.notes.len(),
                self@.notes.len() == self.notes@.len(),
                r@.map_values(|v: Vec<u8>| v@) == unspent_nfs_for(
                    self@.notes.take(i as int),
                    pool,
                ),
            decreases self.notes.len() - i,
        {
            let ghost before = r@.map_values(|v: Vec<u8>| v@);
            proof {
                assert(self@.notes.take(i + 1 as int).drop_last() =~= self@.notes.take(i as int));
                assert(self@.notes.take(i + 1 as int).last() == self@.notes[i as int]);
                assert(self@.notes[i as int] == self.notes@[i as int]@);
            }
            let keep = match (&self.notes[i].pool, &self.notes[i].spent_height) {
                (Pool::Sapling, Option::None) => pool_is_sapling(pool),
                (Pool::Orchard, Option::None) => !pool_is_sapling(pool),
                _ => false,
            };
            if keep {
                let nf = crate::scan::copy_bytes(&self.notes[i].nf);
                r.push(nf);
                proof {
                    assert(r@.map_values(|v: Vec<u8>| v@) =~= before.push(
                        self@.notes[i as int].nf,
                    ));
                }
            }
            i += 1;
        }
        proof {
            assert(self@.notes.take(self@.notes.len() as int) =~= self@.notes);
        }
        r
    }

    /// The full persisted nullifier set: every not-yet-spent note's
    /// nullifier, both pools, in note order.
    pub fn get_nfs(&self) -> (r: Vec<Vec<u8>>)
        ensures
            r@.map_values(|v: Vec<u8>| v@) == unspent_nfs(self@.notes),
    {
        let mut r: Vec<Vec<u8>> = Vec::new();
        let mut i: usize = 0;
        proof {
            assert(self@.notes.take(0) =~= Seq::<NoteRowModel>::empty());
            assert(r@.map_values(|v: Vec<u8>| v@) =~= Seq::<Seq<u8>>::empty());
        }
        while i < self.notes.len()
            invariant
                i <= self.notes.len(),
                self@.notes.len() == self.notes@.len(),
                r@.map_values(|v: Vec<u8>| v@) == unspent_nfs(self@.notes.take(i as int)),
            decreases self.notes.len() - i,
        {
            let ghost before = r@.map_values(|v: Vec<u8>| v@);
            proof {
                assert(self@.notes.take(i + 1 as int).drop_last() =~= self@.notes.take(i as int));
                assert(self@.notes.take(i + 1 as int).last() == self@.notes[i as int]);
                assert(self@.notes[i as int] == self.notes@[i as int]@);
            }
            let keep = match &self.notes[i].spent_height {
                Option::None => true,
                Option::Some(_) => false,
            };
            if keep {
                let nf = crate::scan::copy_bytes(&self.notes[i].nf);
                r.push(nf);
                proof {
                    assert(r@.map_values(|v: Vec<u8>| v@) =~= before.push(
                        self@.notes[i as int].nf,
                    ));
                }
            }
            i += 1;
        }
        proof {
            assert(self@.notes.take(self@.notes.len() as int) =~= self@.notes);
        }
        r
    }

    /// Every address row, projected to its sub-account identity.
    pub fn get_addresses(&self) -> (r: Vec<SubAccount>)
        ensures
            r@.len() == self@.addrs.len(),
            forall|i: int| 0 <= i < r@.len() ==> (#[trigger] r@[i])@.account_index
                == self@.addrs[i].account_index && r@[i]@.sub_account_index
                == self@.addrs[i].sub_account_index && r@[i]@.address == self@.addrs[i].address,
    {
        let mut r: Vec<SubAccount> = Vec::new();
        let mut i: usize = 0;
        while i < self.addrs.len()
            invariant
                i <= self.addrs.len(),
                self@.addrs.len() == self.addrs@.len(),
                r@.len() == i,
                forall|j: int| 0 <= j < i ==> (#[trigger] r@[j])@.account_index
                    == self@.addrs[j].account_index && r@[j]@.sub_account_index
                    == self@.addrs[j].sub_account_index && r@[j]@.address
                    == self@.addrs[j].address,
            decreases self.addrs.len() - i,
        {
            proof {
                assert(self@.addrs[i as int] == self.addrs@[i as int]@);
            }
            let row = &self.addrs[i];
            r.push(SubAccount {
                account_index: row.account_index,
                sub_account_index: row.sub_account_index,
                address: copy_string(&row.address),
            });
            i += 1;
        }
        r
    }
}

fn find_receiver_in(addrs: &Vec<AddrRow>, pool: Pool, recv: &Vec<u8>) -> (r: Option<usize>)
    ensures
        ({
            let f = find_receiver(addrs@.map_values(|x: AddrRow| x@), pool, recv@);
            match r {
                Some(k) => f == k && k < addrs@.len(),
                None => f < 0,
            }
        }),
{
    let ghost m = addrs@.map_values(|x: AddrRow| x@);
    proof {
        lemma_find_receiver_props(m, pool, recv@);
    }
    let mut i: usize = 0;
    while i < addrs.len()
        invariant
            i <= addrs.len(),
            m == addrs@.map_values(|x: AddrRow| x@),
            forall|j: int| 0 <= j < i ==> receiver_of(#[trigger] m[j], pool) != recv@,
        decreases addrs.len() - i,
    {
        let rv = if pool_is_sapling(pool) {
            &addrs[i].sapling_receiver
        } else {
            &addrs[i].orchard_receiver
        };
        if bytes_eq(rv, recv) {
            proof {
                assert(receiver_of(m[i as int], pool) == recv@);
                lemma_find_receiver_props(m, pool, recv@);
            }
            return Some(i);
        }
        proof {
            assert(receiver_of(m[i as int], pool) != recv@);
        }
        i += 1;
    }
    proof {
        lemma_find_receiver_props(m, pool, recv@);
    }
    None
}

fn find_note_in(notes: &Vec<NoteRow>, pool: Pool, nf: &Vec<u8>) -> (r: Option<usize>)
    ensures
        ({
            let f = find_note(notes@.map_values(|x: NoteRow| x@), pool, nf@);
            match r {
                Some(k) => f == k && k < notes@.len(),
                None => f < 0,
            }
        }),
{
    let ghost m = notes@.map_values(|x: NoteRow| x@);
    let mut i: usize = 0;
    while i < notes.len()
        invariant
            i <= notes.len(),
            m == notes@.map_values(|x: NoteRow| x@),
            forall|j: int| 0 <= j < i ==> !((#[trigger] m[j]).pool == pool && m[j].spent_height
                is None && m[j].nf == nf@),
        decreases notes.len() - i,
    {
        let unspent = match &notes[i].spent_height {
            Option::None => true,
            Option::Some(_) => false,
        };
        let same_pool = pool_is_sapling(notes[i].pool) == pool_is_sapling(pool);
        if unspent && same_pool && bytes_eq(&notes[i].nf, nf) {
            proof {
                assert(m[i as int].pool == pool && m[i as int].spent_height is None
                    && m[i as int].nf == nf@);
                lemma_find_note_props(m, pool, nf@);
            }
            return Some(i);
        }
        proof {
            assert(!(m[i as int].pool == pool && m[i as int].spent_height is None
                && m[i as int].nf == nf@));
        }
        i += 1;
    }
    proof {
        lemma_find_note_props(m, pool, nf@);
    }
    None
}

fn find_addr_in(addrs: &Vec<AddrRow>, a: u32, s: u32) -> (r: Option<usize>)
    ensures
        ({
            let f = find_addr(addrs@.map_values(|x: AddrRow| x@), a, s);
            match r {
                Some(k) => f == k && k < addrs@.len(),
                None => f < 0,
            }
        }),
{
    let ghost m = addrs@.map_values(|x: AddrRow| x@);
    let mut i: usize = 0;
    while i < addrs.len()
        invariant
            i <= addrs.len(),
            m == addrs@.map_values(|x: AddrRow| x@),
            forall|j: int| 0 <= j < i ==> !((#[trigger] m[j]).account_index == a
                && m[j].sub_account_index == s),
        decreases addrs.len() - i,
    {
        if addrs[i].account_index == a && addrs[i].sub_account_index == s {
            proof {
                assert(m[i as int] == addrs@[i as int]@);
                assert(m[i as int].account_index == a && m[i as int].sub_account_index == s);
                lemma_find_addr_props(m, a, s);
            }
            return Some(i);
        }
        proof {
            assert(m[i as int] == addrs@[i as int]@);
        }
        i += 1;
    }
    proof {
        lemma_find_addr_props(m, a, s);
    }
    None
}

impl Db {
    fn apply_received_exec(&mut self, r: &crate::scan::ReceivedNote)
        ensures
            final(self)@ == apply_received_one(old(self)@, r@),
            final(self).key == old(self).key,
    {
        let ghost before = self@;
        let (a, s, addr) = match find_receiver_in(&self.addrs, r.pool, &r.note.address) {
            Some(k) => {
                proof {
                    assert(before.addrs[k as int] == self.addrs@[k as int]@);
                    lemma_find_receiver_props(before.addrs, r.pool, r.note.address@);
                }
                (
                    self.addrs[k].account_index,
                    self.addrs[k].sub_account_index,
                    copy_string(&self.addrs[k].address),
                )
            },
            None => (0u32, 0u32, String::new()),
        };
        self.notes.push(
            NoteRow {
                pool: r.pool,
                account_index: a,
                sub_account_index: s,
                value: r.note.value,
                height: r.height,
                nf: crate::scan::copy_bytes(&r.note.nf),
                spent_height: None,
                txid: crate::scan::copy_bytes(&r.txid),
                position: r.position,
            },
        );
        self.transfers.push(
            TransferRow {
                txid_hex: txid_to_hex(&r.txid),
                account_index: a,
                sub_account_index: s,
                address: addr,
                amount: r.note.value,
                fee: 0,
                height: r.height,
                timestamp: r.time as u64,
                incoming: true,
            },
        );
        proof {
            let m = apply_received_one(before, r@);
            assert(self@.notes =~= m.notes);
            assert(self@.transfers =~= m.transfers);
        }
    }

    fn apply_spent_exec(&mut self, s: &crate::scan::SpentNote, time: u32)
        ensures
            final(self)@ == apply_spent_one(old(self)@, s@, time),
            final(self).key == old(self).key,
    {
        let ghost before = self@;
        match find_note_in(&self.notes, s.pool, &s.nf) {
            None => {},
            Some(k) => {
                proof {
                    assert(before.notes[k as int] == self.notes@[k as int]@);
                }
                let a = self.notes[k].account_index;
                let sub = self.notes[k].sub_account_index;
                let val = self.notes[k].value;
                let addr = match find_addr_in(&self.addrs, a, sub) {
                    Some(x) => {
                        proof {
                            assert(before.addrs[x as int] == self.addrs@[x as int]@);
                        }
                        copy_string(&self.addrs[x].address)
                    },
                    None => String::new(),
                };
                self.notes[k].spent_height = Some(s.height);
                self.transfers.push(
                    TransferRow {
                        txid_hex: txid_to_hex(&s.txid),
                        account_index: a,
                        sub_account_index: sub,
                        address: addr,
                        amount: val,
                        fee: s.fee as u64,
                        height: s.height,
                        timestamp: time as u64,
                        incoming: false,
                    },
                );
                proof {
                    let m = apply_spent_one(before, s@, time);
                    assert(self@.notes =~= m.notes);
                    assert(self@.transfers =~= m.transfers);
                }
            },
        }
    }

    fn apply_block_exec(&mut self, be: &crate::scan::BlockEvents)
        ensures
            final(self)@ == apply_block_events(old(self)@, be@),
            final(self).key == old(self).key,
    {
        let ghost db1 = DbModel {
            blocks: old(self)@.blocks.push(be@.block),
            synced_height: be@.block.height,
            ..old(self)@
        };
        self.blocks.push(
            BlockInfo {
                height: be.block.height,
                hash: crate::scan::copy_bytes(&be.block.hash),
                time: be.block.time,
            },
        );
        self.synced_height = be.block.height;
        proof {
            assert(self@.blocks =~= db1.blocks);
        }
        let ghost rsm = be@.received;
        let mut j: usize = 0;
        proof {
            assert(rsm.take(0) =~= Seq::<ReceivedNoteModel>::empty());
        }
        while j < be.received.len()
            invariant
                j <= be.received.len(),
                rsm == be@.received,
                rsm.len() == be.received@.len(),
                self@ == apply_received(db1, rsm.take(j as int)),
                self.key == old(self).key,
            decreases be.received.len() - j,
        {
            proof {
                assert(rsm.take(j + 1 as int).drop_last() =~= rsm.take(j as int));
                assert(rsm.take(j + 1 as int).last() == rsm[j as int]);
                assert(rsm[j as int] == be.received@[j as int]@);
            }
            self.apply_received_exec(&be.received[j]);
            j += 1;
        }
        proof {
            assert(rsm.take(rsm.len() as int) =~= rsm);
        }
        let ghost db2 = apply_received(db1, rsm);
        let ghost ssm = be@.spent;
        let mut j: usize = 0;
        proof {
            assert(ssm.take(0) =~= Seq::<SpentNoteModel>::empty());
        }
        while j < be.spent.len()
            invariant
                j <= be.spent.len(),
                ssm == be@.spent,
                ssm.len() == be.spent@.len(),
                db2 == apply_received(db1, be@.received),
                self@ == apply_spent(db2, ssm.take(j as int), be@.block.time),
                self.key == old(self).key,
                be@.block.time == be.block.time,
            decreases be.spent.len() - j,
        {
            proof {
                assert(ssm.take(j + 1 as int).drop_last() =~= ssm.take(j as int));
                assert(ssm.take(j + 1 as int).last() == ssm[j as int]);
                assert(ssm[j as int] == be.spent@[j as int]@);
            }
            self.apply_spent_exec(&be.spent[j], be.block.time);
            j += 1;
        }
        proof {
            assert(ssm.take(ssm.len() as int) =~= ssm);
        }
    }

    /// Applies one scan call's events: every block's hash joins the chain,
    /// every discovered note and every observed spend is recorded, and the
    /// synced height advances to the last block of the call — exactly as the
    /// spec-level [`apply_events`] says, and only for event sets that
    /// continue the store's hash-chain contiguously.
    pub fn store_events(&mut self, events: &ScanEvents)
        requires
            old(self).wf(),
            events_follow(old(self)@, events@),
        ensures
            final(self)@ == apply_events(old(self)@, events@),
            final(self).wf(),
            final(self).key == old(self).key,
    {
        let ghost db0 = self@;
        let ghost evs = events@;
        let mut i: usize = 0;
        proof {
            assert(evs.take(0) =~= Seq::<BlockEventsModel>::empty());
        }
        while i < events.blocks.len()
            invariant
                i <= events.blocks.len(),
                db0 == old(self)@,
                evs == events@,
                evs.len() == events.blocks@.len(),
                self@ == apply_events(db0, evs.take(i as int)),
                self.key == old(self).key,
            decreases events.blocks.len() - i,
        {
            proof {
                assert(evs.take(i + 1 as int).drop_last() =~= evs.take(i as int));
                assert(evs.take(i + 1 as int).last() == evs[i as int]);
                assert(evs[i as int] == events.blocks@[i as int]@);
            }
            self.apply_block_exec(&events.blocks[i]);
            i += 1;
        }
        proof {
            assert(evs.take(evs.len() as int) =~= evs);
            lemma_apply_events_wf(db0, evs);
        }
    }
}

/// The block rows at or below height `hh`, in order.
pub open spec fn keep_blocks(blocks: Seq<BlockInfoModel>, hh: u32) -> Seq<BlockInfoModel>
    decreases blocks.len(),
{
    if blocks.len() == 0 {
        Seq::empty()
    } else {
        let p = keep_blocks(blocks.drop_last(), hh);
        if blocks.last().height <= hh {
            p.push(blocks.last())
        } else {
            p
        }
    }
}

/// The note rows at or below height `hh`, in order, with every spent mark
/// above `hh` undone: a rewind removes nullifier matches along with the
/// blocks that carried them.
pub open spec fn keep_notes(notes: Seq<NoteRowModel>, hh: u32) -> Seq<NoteRowModel>
    decreases notes.len(),
{
    if notes.len() == 0 {
        Seq::empty()
    } else {
        let p = keep_notes(notes.drop_last(), hh);
        let n = notes.last();
        if n.height <= hh {
            p.push(
                NoteRowModel {
                    spent_height: (match n.spent_height {
                        Some(sh) => if sh <= hh {
                            Some(sh)
                        } else {
                            None
                        },
                        None => None,
                    }),
                    ..n
                },
            )
        } else {
            p
        }
    }
}

/// The transfer rows at or below height `hh`, in order.
pub open spec fn keep_transfers(ts: Seq<TransferRowModel>, hh: u32) -> Seq<TransferRowModel>
    decreases ts.len(),
{
    if ts.len() == 0 {
        Seq::empty()
    } else {
        let p = keep_transfers(ts.drop_last(), hh);
        if ts.last().height <= hh {
            p.push(ts.last())
        } else {
            p
        }
    }
}

/// The rewind target: `h` clamped below to the birth height — a floor, not
/// negative — and above to the synced height, past which there is nothing
/// to remove.
pub open spec fn clamp_height(db: DbModel, h: u32) -> u32 {
    if h < db.birth_height {
        db.birth_height
    } else if h > db.synced_height {
        db.synced_height
    } else {
        h
    }
}

/// A rewind of the store to height `h`, clamped to the birth height: every
/// block, note, spent mark and transfer above the clamped height is removed
/// and the watermark retreats to it. Accounts and addresses are untouched.
pub open spec fn truncate_model(db: DbModel, h: u32) -> DbModel {
    let hh = clamp_height(db, h);
    DbModel {
        synced_height: hh,
        blocks: keep_blocks(db.blocks, hh),
        notes: keep_notes(db.notes, hh),
        transfers: keep_transfers(db.transfers, hh),
        ..db
    }
}

/// On a consecutive chain, keeping the blocks at or below a height keeps a
/// prefix.
pub proof fn lemma_keep_blocks_prefix(blocks: Seq<BlockInfoModel>, birth: u32, hh: u32)
    requires
        forall|i: int| 0 <= i < blocks.len() ==> (#[trigger] blocks[i]).height == birth + i,
        birth <= hh,
    ensures
        keep_blocks(blocks, hh) == blocks.take(
            if blocks.len() <= hh - birth + 1 {
                blocks.len() as int
            } else {
                hh - birth + 1
            },
        ),
    decreases blocks.len(),
{
    if blocks.len() > 0 {
        lemma_keep_blocks_prefix(blocks.drop_last(), birth, hh);
        let m = if blocks.len() <= hh - birth + 1 {
            blocks.len() as int
        } else {
            hh - birth + 1
        };
        if blocks.last().height <= hh {
            assert(blocks.take(m) =~= blocks.drop_last().take(m - 1).push(blocks.last()));
        } else {
            assert(blocks.take(m) =~= blocks.drop_last().take(m));
        }
    } else {
        assert(blocks.take(0) =~= Seq::<BlockInfoModel>::empty());
    }
}

/// Truncation preserves well-formedness and retreats the watermark to the
/// clamped height.
pub proof fn lemma_truncate_wf(db: DbModel, h: u32)
    requires
        wf_model(db),
    ensures
        wf_model(truncate_model(db, h)),
        truncate_model(db, h).synced_height == clamp_height(db, h),
        truncate_model(db, h).birth_height == db.birth_height,
        truncate_model(db, h).accounts == db.accounts,
        truncate_model(db, h).addrs == db.addrs,
{
    lemma_keep_blocks_prefix(db.blocks, db.birth_height, clamp_height(db, h));
}

impl Db {
    /// Rewinds the store to height `h`, clamped to the birth height:
    /// everything above the clamped height — blocks, notes, spent marks,
    /// transfers — is removed and the watermark retreats. Accounts and
    /// addresses are never affected by a rewind.
    pub fn truncate_height(&mut self, h: u32)
        requires
            old(self).wf(),
        ensures
            final(self)@ == truncate_model(old(self)@, h),
            final(self).wf(),
            final(self).key == old(self).key,
    {
        let ghost db0 = self@;
        let hh = if h < self.birth_height {
            self.birth_height
        } else if h > self.synced_height {
            self.synced_height
        } else {
            h
        };
        proof {
            assert(hh == clamp_height(db0, h));
        }
        let mut blocks: Vec<BlockInfo> = Vec::new();
        let mut i: usize = 0;
        proof {
            assert(db0.blocks.take(0) =~= Seq::<BlockInfoModel>::empty());
            assert(blocks@.map_values(|r: BlockInfo| r@) =~= Seq::<BlockInfoModel>::empty());
        }
        while i < self.blocks.len()
            invariant
                i <= self.blocks.len(),
                db0 == old(self)@,
                *self == *old(self),
                blocks@.map_values(|r: BlockInfo| r@) == keep_blocks(
                    db0.blocks.take(i as int),
                    hh,
                ),
            decreases self.blocks.len() - i,
        {
            let ghost before = blocks@.map_values(|r: BlockInfo| r@);
            proof {
                assert(db0.blocks.take(i + 1 as int).drop_last() =~= db0.blocks.take(i as int));
                assert(db0.blocks.take(i + 1 as int).last() == db0.blocks[i as int]);
                assert(db0.blocks[i as int] == self.blocks@[i as int]@);
            }
            if self.blocks[i].height <= hh {
                blocks.push(
                    BlockInfo {
                        height: self.blocks[i].height,
                        hash: crate::scan::copy_bytes(&self.blocks[i].hash),
                        time: self.blocks[i].time,
                    },
                );
                proof {
                    assert(blocks@.map_values(|r: BlockInfo| r@) =~= before.push(
                        db0.blocks[i as int],
                    ));
                }
            }
            i += 1;
        }
        let mut notes: Vec<NoteRow> = Vec::new();
        let mut i: usize = 0;
        proof {
            assert(db0.blocks.take(db0.blocks.len() as int) =~= db0.blocks);
            assert(db0.notes.take(0) =~= Seq::<NoteRowModel>::empty());
            assert(notes@.map_values(|r: NoteRow| r@) =~= Seq::<NoteRowModel>::empty());
        }
        while i < self.notes.len()
            invariant
                i <= self.notes.len(),
                db0 == old(self)@,
                *self == *old(self),
                notes@.map_values(|r: NoteRow| r@) == keep_notes(db0.notes.take(i as int), hh),
            decreases self.notes.len() - i,
        {
            let ghost before = notes@.map_values(|r: NoteRow| r@);
            proof {
                assert(db0.notes.take(i + 1 as int).drop_last() =~= db0.notes.take(i as int));
                assert(db0.notes.take(i + 1 as int).last() == db0.notes[i as int]);
                assert(db0.notes[i as int] == self.notes@[i as int]@);
            }
            if self.notes[i].height <= hh {
                let spent_height = match &self.notes[i].spent_height {
                    Option::Some(sh) => if *sh <= hh {
                        Some(*sh)
                    } else {
                        None
                    },
                    Option::None => None,
                };
                notes.push(
                    NoteRow {
                        pool: self.notes[i].pool,
                        account_index: self.notes[i].account_index,
                        sub_account_index: self.notes[i].sub_account_index,
                        value: self.notes[i].value,
                        height: self.notes[i].height,
                        nf: crate::scan::copy_bytes(&self.notes[i].nf),
                        spent_height,
                        txid: crate::scan::copy_bytes(&self.notes[i].txid),
                        position: self.notes[i].position,
                    },
                );
                proof {
                    assert(notes@.map_values(|r: NoteRow| r@) =~= before.push(
                        NoteRowModel {
                            spent_height: (match db0.notes[i as int].spent_height {
                                Some(sh) => if sh <= hh {
                                    Some(sh)
                                } else {
                                    None
                                },
                                None => None,
                            }),
                            ..db0.notes[i as int]
                        },
                    ));
                }
            }
            i += 1;
        }
        let mut transfers: Vec<TransferRow> = Vec::new();
        let mut i: usize = 0;
        proof {
            assert(db0.notes.take(db0.notes.len() as int) =~= db0.notes);
            assert(db0.transfers.take(0) =~= Seq::<TransferRowModel>::empty());
            assert(transfers@.map_values(|r: TransferRow| r@) =~= Seq::<
                TransferRowModel,
            >::empty());
        }
        while i < self.transfers.len()
            invariant
                i <= self.transfers.len(),
                db0 == old(self)@,
                *self == *old(self),
                transfers@.map_values(|r: TransferRow| r@) == keep_transfers(
                    db0.transfers.take(i as int),
                    hh,
                ),
            decreases self.transfers.len() - i,
        {
            let ghost before = transfers@.map_values(|r: TransferRow| r@);
            proof {
                assert(db0.transfers.take(i + 1 as int).drop_last() =~= db0.transfers.take(
                    i as int,
                ));
                assert(db0.transfers.take(i + 1 as int).last() == db0.transfers[i as int]);
                assert(db0.transfers[i as int] == self.transfers@[i as int]@);
            }
            if self.transfers[i].height <= hh {
                transfers.push(
                    TransferRow {
                        txid_hex: copy_string(&self.transfers[i].txid_hex),
                        account_index: self.transfers[i].account_index,
                        sub_account_index: self.transfers[i].sub_account_index,
                        address: copy_string(&self.transfers[i].address),
                        amount: self.transfers[i].amount,
                        fee: self.transfers[i].fee,
                        height: self.transfers[i].height,
                        timestamp: self.transfers[i].timestamp,
                        incoming: self.transfers[i].incoming,
                    },
                );
                proof {
                    assert(transfers@.map_values(|r: TransferRow| r@) =~= before.push(
                        db0.transfers[i as int],
                    ));
                }
            }
            i += 1;
        }
        proof {
            assert(db0.transfers.take(db0.transfers.len() as int) =~= db0.transfers);
        }
        self.blocks = blocks;
        self.notes = notes;
        self.transfers = transfers;
        self.synced_height = hh;
        proof {
            lemma_truncate_wf(db0, h);
        }
    }

    /// Creates a new account: the next account index, with a fresh
    /// receiving address found at or after the next unused diversifier
    /// index — indices are never reused, even across rewinds. Fails
    /// exactly when the account table is full or the key yields no further
    /// representable address.
    pub fn new_account(&mut self, label: &str) -> (r: Result<(u32, String), crate::WalletError>)
        ensures
            match r {
                Ok((idx, address)) => {
                    let found = crate::keys::found_address_of(
                        old(self).key.encoding_spec(),
                        old(self)@.next_diversifier,
                    );
                    &&& found is Some
                    &&& idx == old(self)@.accounts.len()
                    &&& address@ == found->0.encoded
                    &&& final(self)@.accounts == old(self)@.accounts.push(
                        AccountRowModel { label: label@ },
                    )
                    &&& final(self)@.addrs == old(self)@.addrs.push(
                        AddrRowModel {
                            account_index: idx,
                            sub_account_index: 0,
                            diversifier_index: found->0.index,
                            address: found->0.encoded,
                            sapling_receiver: found->0.sapling_receiver,
                            orchard_receiver: found->0.orchard_receiver,
                            label: label@,
                        },
                    )
                    &&& final(self)@.next_diversifier == found->0.index + 1
                    &&& final(self)@ == (DbModel {
                        accounts: final(self)@.accounts,
                        addrs: final(self)@.addrs,
                        next_diversifier: final(self)@.next_diversifier,
                        ..old(self)@
                    })
                },
                Err(e) => {
                    let found = crate::keys::found_address_of(
                        old(self).key.encoding_spec(),
                        old(self)@.next_diversifier,
                    );
                    &&& e == crate::WalletError::AddressGeneration
                    &&& final(self)@ == old(self)@
                    &&& (old(self)@.accounts.len() >= 0xffff_ffff || found is None
                        || found->0.index == u64::MAX)
                },
            },
            final(self).key == old(self).key,
            old(self).wf() ==> final(self).wf(),
    {
        let ghost db0 = self@;
        if self.accounts.len() >= 0xffff_ffff {
            return Err(crate::WalletError::AddressGeneration);
        }
        match self.key.find_address(self.next_diversifier) {
            None => Err(crate::WalletError::AddressGeneration),
            Some(wa) => {
                if wa.index == u64::MAX {
                    return Err(crate::WalletError::AddressGeneration);
                }
                let idx = self.accounts.len() as u32;
                let address = copy_string(&wa.encoded);
                self.accounts.push(AccountRow { label: label.to_owned() });
                self.addrs.push(
                    AddrRow {
                        account_index: idx,
                        sub_account_index: 0,
                        diversifier_index: wa.index,
                        address: wa.encoded,
                        sapling_receiver: wa.sapling_receiver,
                        orchard_receiver: wa.orchard_receiver,
                        label: label.to_owned(),
                    },
                );
                self.next_diversifier = wa.index + 1;
                proof {
                    assert(self@.accounts =~= db0.accounts.push(
                        AccountRowModel { label: label@ },
                    ));
                    assert(self@.addrs =~= db0.addrs.push(
                        AddrRowModel {
                            account_index: idx,
                            sub_account_index: 0,
                            diversifier_index: wa.index,
                            address: wa@.encoded,
                            sapling_receiver: wa@.sapling_receiver,
                            orchard_receiver: wa@.orchard_receiver,
                            label: label@,
                        },
                    ));
                }
                Ok((idx, address))
            },
        }
    }

    /// Creates a new address under an existing account: the next unused
    /// sub-account index within it — strictly above every existing one, so
    /// indices are never reused — with a fresh receiving address. Fails
    /// with a not-found condition exactly when the account does not exist,
    /// and otherwise exactly when an index would overflow or the key
    /// yields no further representable address.
    pub fn new_sub_account(&mut self, account_index: u32, label: &str) -> (r: Result<
        (u32, String),
        crate::WalletError,
    >)
        ensures
            account_index as int >= old(self)@.accounts.len() ==> (r matches Err(e) && e
                == crate::WalletError::NotFound && final(self)@ == old(self)@),
            match r {
                Ok((sub, address)) => {
                    let found = crate::keys::found_address_of(
                        old(self).key.encoding_spec(),
                        old(self)@.next_diversifier,
                    );
                    &&& (account_index as int) < old(self)@.accounts.len()
                    &&& found is Some
                    &&& address@ == found->0.encoded
                    &&& (forall|i: int|
                        0 <= i < old(self)@.addrs.len() && (#[trigger] old(
                            self,
                        )@.addrs[i]).account_index == account_index ==> old(
                            self,
                        )@.addrs[i].sub_account_index < sub)
                    &&& final(self)@.addrs == old(self)@.addrs.push(
                        AddrRowModel {
                            account_index,
                            sub_account_index: sub,
                            diversifier_index: found->0.index,
                            address: found->0.encoded,
                            sapling_receiver: found->0.sapling_receiver,
                            orchard_receiver: found->0.orchard_receiver,
                            label: label@,
                        },
                    )
                    &&& sub as int == max_sub_index(old(self)@.addrs, account_index) + 1
                    &&& final(self)@.next_diversifier == found->0.index + 1
                    &&& final(self)@ == (DbModel {
                        addrs: final(self)@.addrs,
                        next_diversifier: final(self)@.next_diversifier,
                        ..old(self)@
                    })
                },
                Err(e) => {
                    let found = crate::keys::found_address_of(
                        old(self).key.encoding_spec(),
                        old(self)@.next_diversifier,
                    );
                    &&& final(self)@ == old(self)@
                    &&& (e == crate::WalletError::NotFound <==> account_index as int >= old(
                        self,
                    )@.accounts.len())
                    &&& (account_index as int) < old(self)@.accounts.len() ==> (e
                        == crate::WalletError::AddressGeneration && (max_sub_index(
                        old(self)@.addrs,
                        account_index,
                    ) == u32::MAX || found is None || found->0.index == u64::MAX))
                },
            },
            final(self).key == old(self).key,
            old(self).wf() ==> final(self).wf(),
    {
        let ghost db0 = self@;
        if (account_index as usize) >= self.accounts.len() {
            return Err(crate::WalletError::NotFound);
        }
        let mut max_sub: u32 = 0;
        let mut i: usize = 0;
        proof {
            assert(db0.addrs.take(0) =~= Seq::<AddrRowModel>::empty());
        }
        while i < self.addrs.len()
            invariant
                i <= self.addrs.len(),
                db0 == old(self)@,
                *self == *old(self),
                max_sub as int == max_sub_index(db0.addrs.take(i as int), account_index),
                forall|j: int|
                    0 <= j < i && (#[trigger] db0.addrs[j]).account_index == account_index
                        ==> db0.addrs[j].sub_account_index <= max_sub,
            decreases self.addrs.len() - i,
        {
            proof {
                assert(db0.addrs[i as int] == self.addrs@[i as int]@);
                assert(db0.addrs.take(i + 1 as int).drop_last() =~= db0.addrs.take(i as int));
                assert(db0.addrs.take(i + 1 as int).last() == db0.addrs[i as int]);
            }
            if self.addrs[i].account_index == account_index && self.addrs[i].sub_account_index
                > max_sub {
                max_sub = self.addrs[i].sub_account_index;
            }
            i += 1;
        }
        proof {
            assert(db0.addrs.take(db0.addrs.len() as int) =~= db0.addrs);
        }
        if max_sub == u32::MAX {
            return Err(crate::WalletError::AddressGeneration);
        }
        let sub = max_sub + 1;
        match self.key.find_address(self.next_diversifier) {
            None => Err(crate::WalletError::AddressGeneration),
            Some(wa) => {
                if wa.index == u64::MAX {
                    return Err(crate::WalletError::AddressGeneration);
                }
                let address = copy_string(&wa.encoded);
                self.addrs.push(
                    AddrRow {
                        account_index,
                        sub_account_index: sub,
                        diversifier_index: wa.index,
                        address: wa.encoded,
                        sapling_receiver: wa.sapling_receiver,
                        orchard_receiver: wa.orchard_receiver,
                        label: label.to_owned(),
                    },
                );
                self.next_diversifier = wa.index + 1;
                proof {
                    assert(self@.addrs =~= db0.addrs.push(
                        AddrRowModel {
                            account_index,
                            sub_account_index: sub,
                            diversifier_index: wa.index,
                            address: wa@.encoded,
                            sapling_receiver: wa@.sapling_receiver,
                            orchard_receiver: wa@.orchard_receiver,
                            label: label@,
                        },
                    ));
                }
                Ok((sub, address))
            },
        }
    }
}

/// The highest sub-account index in use under account `a`, or zero when
/// the account has no address row yet; the next address row gets the index
/// above it, so indices are never reused.
pub open spec fn max_sub_index(addrs: Seq<AddrRowModel>, a: u32) -> int
    decreases addrs.len(),
{
    if addrs.len() == 0 {
        0
    } else {
        let p = max_sub_index(addrs.drop_last(), a);
        if addrs.last().account_index == a && addrs.last().sub_account_index > p {
            addrs.last().sub_account_index as int
        } else {
            p
        }
    }
}

/// Whether a note contributes to account `a`'s balance at tip `latest`:
/// owned by the account, at or below the tip, with no matching spend
/// recorded.
pub open spec fn note_counts(n: NoteRowModel, a: u32, latest: u32) -> bool {
    n.account_index == a && n.spent_height is None && n.height <= latest
}

/// The sum of the values of account `a`'s unspent notes at or below
/// `latest`.
pub open spec fn balance_of(notes: Seq<NoteRowModel>, a: u32, latest: u32) -> int
    decreases notes.len(),
{
    if notes.len() == 0 {
        0
    } else {
        balance_of(notes.drop_last(), a, latest) + (if note_counts(notes.last(), a, latest) {
            notes.last().value as int
        } else {
            0
        })
    }
}

/// The same sum restricted to notes with at least `confs` confirmations at
/// the tip.
pub open spec fn unlocked_of(notes: Seq<NoteRowModel>, a: u32, latest: u32, confs: u32) -> int
    decreases notes.len(),
{
    if notes.len() == 0 {
        0
    } else {
        unlocked_of(notes.drop_last(), a, latest, confs) + (if note_counts(
            notes.last(),
            a,
            latest,
        ) && confirmations_of(latest, notes.last().height) >= confs {
            notes.last().value as int
        } else {
            0
        })
    }
}

/// A value capped at the largest representable balance.
pub open spec fn cap_u64(v: int) -> int {
    if v > u64::MAX {
        u64::MAX as int
    } else {
        v
    }
}

/// Saturating addition.
pub fn sat_add(a: u64, b: u64) -> (r: u64)
    ensures
        r as int == cap_u64(a + b),
{
    if a > u64::MAX - b {
        u64::MAX
    } else {
        a + b
    }
}

/// A transfer row as served to a caller, with confirmations computed
/// against the tip and the caller's threshold echoed back.
pub open spec fn transfer_of_row(row: TransferRowModel, latest: u32, confs: u32) -> TransferModel {
    TransferModel {
        address: row.address,
        amount: row.amount,
        confirmations: (if confirmations_of(latest, row.height) > u32::MAX {
            u32::MAX
        } else {
            confirmations_of(latest, row.height) as u32
        }),
        height: row.height,
        fee: row.fee,
        note: Seq::empty(),
        payment_id: Seq::empty(),
        subaddr_index: SubAddrIndex { major: row.account_index, minor: row.sub_account_index },
        suggested_confirmations_threshold: confs,
        timestamp: row.timestamp,
        txid: row.txid_hex,
        transfer_type: (if row.incoming {
            "in"@
        } else {
            "out"@
        }),
        unlock_time: 0,
    }
}

/// Confirmations grow in step with the chain tip: with no other activity,
/// one more block on the chain changes a served transfer only in its
/// confirmations field, which grows by exactly one.
pub proof fn lemma_transfer_confirmations_step(row: TransferRowModel, latest: u32, confs: u32)
    requires
        latest >= row.height,
        latest < u32::MAX,
        confirmations_of(latest, row.height) < u32::MAX,
    ensures
        transfer_of_row(row, (latest + 1) as u32, confs) == (TransferModel {
            confirmations: (transfer_of_row(row, latest, confs).confirmations + 1) as u32,
            ..transfer_of_row(row, latest, confs)
        }),
{
}

/// Whether a row answers an incoming-transfer query for account `a` and the
/// given sub-account indices; an empty index set selects every sub-account.
pub open spec fn incoming_matches(row: TransferRowModel, a: u32, subs: Seq<u32>) -> bool {
    row.incoming && row.account_index == a && (subs.len() == 0 || subs.contains(
        row.sub_account_index,
    ))
}

/// The incoming transfers of account `a` under the given sub-account
/// filter, in store order, served against tip `latest`.
pub open spec fn incoming_transfers(
    rows: Seq<TransferRowModel>,
    a: u32,
    subs: Seq<u32>,
    latest: u32,
    confs: u32,
) -> Seq<TransferModel>
    decreases rows.len(),
{
    if rows.len() == 0 {
        Seq::empty()
    } else {
        let p = incoming_transfers(rows.drop_last(), a, subs, latest, confs);
        if incoming_matches(rows.last(), a, subs) {
            p.push(transfer_of_row(rows.last(), latest, confs))
        } else {
            p
        }
    }
}

/// The step law lifted to a whole query: against the same store and
/// arguments, one more block on the chain serves the same transfers in the
/// same order, each differing only in its confirmations, grown by exactly
/// one.
pub proof fn lemma_transfers_confirmations_step(
    rows: Seq<TransferRowModel>,
    a: u32,
    subs: Seq<u32>,
    latest: u32,
    confs: u32,
)
    requires
        latest < u32::MAX,
        forall|i: int| 0 <= i < rows.len() ==> (#[trigger] rows[i]).height <= latest,
        forall|i: int|
            0 <= i < rows.len() ==> confirmations_of(latest, (#[trigger] rows[i]).height)
                < u32::MAX,
    ensures
        ({
            let before = incoming_transfers(rows, a, subs, latest, confs);
            let after = incoming_transfers(rows, a, subs, (latest + 1) as u32, confs);
            &&& after.len() == before.len()
            &&& forall|i: int|
                0 <= i < before.len() ==> after[i] == (TransferModel {
                    confirmations: ((#[trigger] before[i]).confirmations + 1) as u32,
                    ..before[i]
                })
        }),
    decreases rows.len(),
{
    if rows.len() > 0 {
        assert(forall|i: int| 0 <= i < rows.len() - 1 ==> rows.drop_last()[i] == rows[i]);
        lemma_transfers_confirmations_step(rows.drop_last(), a, subs, latest, confs);
        let row = rows.last();
        if incoming_matches(row, a, subs) {
            lemma_transfer_confirmations_step(row, latest, confs);
        }
    }
}

/// Whether a row answers a by-transaction-id query for account `a`.
pub open spec fn txid_matches(row: TransferRowModel, txid: Seq<char>, a: u32) -> bool {
    row.txid_hex == txid && row.account_index == a
}

/// The transfers of account `a` tied to the transaction id, in store order,
/// served against tip `latest`.
pub open spec fn txid_transfers(
    rows: Seq<TransferRowModel>,
    txid: Seq<char>,
    a: u32,
    latest: u32,
    confs: u32,
) -> Seq<TransferModel>
    decreases rows.len(),
{
    if rows.len() == 0 {
        Seq::empty()
    } else {
        let p = txid_transfers(rows.drop_last(), txid, a, latest, confs);
        if txid_matches(rows.last(), txid, a) {
            p.push(transfer_of_row(rows.last(), latest, confs))
        } else {
            p
        }
    }
}

fn contains_u32(v: &Vec<u32>, x: u32) -> (r: bool)
    ensures
        r == v@.contains(x),
{
    let mut i: usize = 0;
    while i < v.len()
        invariant
            i <= v.len(),
            forall|j: int| 0 <= j < i ==> v@[j] != x,
        decreases v.len() - i,
    {
        if v[i] == x {
            return true;
        }
        i += 1;
    }
    false
}

impl Db {
    /// Balances per account against tip `latest_height`: for each account,
    /// `balance` is the sum of the values of its unspent notes at or below
    /// the tip — capped at the type's maximum — and `unlocked_balance` is
    /// the same sum restricted to notes with at least `confirmations`
    /// confirmations. The base address is the account's first receiving
    /// address.
    pub fn get_accounts(&self, latest_height: u32, confirmations: u32) -> (r: Vec<AccountBalance>)
        requires
            self@.accounts.len() <= u32::MAX,
        ensures
            r@.len() == self@.accounts.len(),
            forall|a: int| 0 <= a < r@.len() ==> {
                let m = (#[trigger] r@[a])@;
                &&& m.account_index == a
                &&& m.balance as int == cap_u64(balance_of(self@.notes, a as u32, latest_height))
                &&& m.unlocked_balance as int == cap_u64(
                    unlocked_of(self@.notes, a as u32, latest_height, confirmations),
                )
                &&& m.label == self@.accounts[a].label
                &&& m.tag == Seq::<char>::empty()
                &&& m.base_address == (if find_addr(self@.addrs, a as u32, 0) >= 0 {
                    self@.addrs[find_addr(self@.addrs, a as u32, 0)].address
                } else {
                    Seq::<char>::empty()
                })
            },
    {
        let mut r: Vec<AccountBalance> = Vec::new();
        let mut a: usize = 0;
        while a < self.accounts.len()
            invariant
                a <= self.accounts.len(),
                self@.accounts.len() == self.accounts@.len(),
                self@.accounts.len() <= u32::MAX,
                r@.len() == a,
                forall|k: int| 0 <= k < a ==> {
                    let m = (#[trigger] r@[k])@;
                    &&& m.account_index == k
                    &&& m.balance as int == cap_u64(
                        balance_of(self@.notes, k as u32, latest_height),
                    )
                    &&& m.unlocked_balance as int == cap_u64(
                        unlocked_of(self@.notes, k as u32, latest_height, confirmations),
                    )
                    &&& m.label == self@.accounts[k].label
                    &&& m.tag == Seq::<char>::empty()
                    &&& m.base_address == (if find_addr(self@.addrs, k as u32, 0) >= 0 {
                        self@.addrs[find_addr(self@.addrs, k as u32, 0)].address
                    } else {
                        Seq::<char>::empty()
                    })
                },
            decreases self.accounts.len() - a,
        {
            let aid = a as u32;
            let mut balance: u64 = 0;
            let mut unlocked: u64 = 0;
            let mut i: usize = 0;
            proof {
                assert(self@.notes.take(0) =~= Seq::<NoteRowModel>::empty());
            }
            while i < self.notes.len()
                invariant
                    i <= self.notes.len(),
                    self@.notes.len() == self.notes@.len(),
                    aid == a as u32,
                    balance as int == cap_u64(
                        balance_of(self@.notes.take(i as int), aid, latest_height),
                    ),
                    unlocked as int == cap_u64(
                        unlocked_of(self@.notes.take(i as int), aid, latest_height, confirmations),
                    ),
                decreases self.notes.len() - i,
            {
                proof {
                    assert(self@.notes.take(i + 1 as int).drop_last() =~= self@.notes.take(
                        i as int,
                    ));
                    assert(self@.notes.take(i + 1 as int).last() == self@.notes[i as int]);
                    assert(self@.notes[i as int] == self.notes@[i as int]@);
                }
                let n = &self.notes[i];
                let unspent = match &n.spent_height {
                    Option::None => true,
                    Option::Some(_) => false,
                };
                if n.account_index == aid && unspent && n.height <= latest_height {
                    balance = sat_add(balance, n.value);
                    let confs_here: u64 = (latest_height - n.height) as u64 + 1;
                    if confs_here >= confirmations as u64 {
                        unlocked = sat_add(unlocked, n.value);
                    }
                }
                i += 1;
            }
            proof {
                assert(self@.notes.take(self@.notes.len() as int) =~= self@.notes);
            }
            let base_address = match find_addr_in(&self.addrs, aid, 0) {
                Some(k) => {
                    proof {
                        assert(self@.addrs[k as int] == self.addrs@[k as int]@);
                    }
                    copy_string(&self.addrs[k].address)
                },
                None => String::new(),
            };
            proof {
                assert(self@.accounts[a as int] == self.accounts@[a as int]@);
            }
            r.push(
                AccountBalance {
                    account_index: aid,
                    balance,
                    base_address,
                    label: copy_string(&self.accounts[a].label),
                    tag: String::new(),
                    unlocked_balance: unlocked,
                },
            );
            a += 1;
        }
        r
    }

    /// The incoming transfers of one account, optionally restricted to a
    /// set of sub-account indices — an empty set selects all — served
    /// against tip `latest_height`. Fails with a not-found condition
    /// exactly when nothing matches.
    pub fn get_transfers(
        &self,
        latest_height: u32,
        account_index: u32,
        subaddr_indices: &Vec<u32>,
        confirmations: u32,
    ) -> (r: Result<Vec<Transfer>, crate::WalletError>)
        ensures
            ({
                let m = incoming_transfers(
                    self@.transfers,
                    account_index,
                    subaddr_indices@,
                    latest_height,
                    confirmations,
                );
                match r {
                    Ok(v) => v@.map_values(|t: Transfer| t@) == m && m.len() > 0,
                    Err(e) => e == crate::WalletError::NotFound && m.len() == 0,
                }
            }),
    {
        let mut out: Vec<Transfer> = Vec::new();
        let mut i: usize = 0;
        proof {
            assert(self@.transfers.take(0) =~= Seq::<TransferRowModel>::empty());
            assert(out@.map_values(|t: Transfer| t@) =~= Seq::<TransferModel>::empty());
        }
        while i < self.transfers.len()
            invariant
                i <= self.transfers.len(),
                self@.transfers.len() == self.transfers@.len(),
                out@.map_values(|t: Transfer| t@) == incoming_transfers(
                    self@.transfers.take(i as int),
                    account_index,
                    subaddr_indices@,
                    latest_height,
                    confirmations,
                ),
            decreases self.transfers.len() - i,
        {
            let ghost before = out@.map_values(|t: Transfer| t@);
            proof {
                assert(self@.transfers.take(i + 1 as int).drop_last() =~= self@.transfers.take(
                    i as int,
                ));
                assert(self@.transfers.take(i + 1 as int).last() == self@.transfers[i as int]);
                assert(self@.transfers[i as int] == self.transfers@[i as int]@);
            }
            let row = &self.transfers[i];
            if row.incoming && row.account_index == account_index && (subaddr_indices.len() == 0
                || contains_u32(subaddr_indices, row.sub_account_index)) {
                let t = self.row_to_transfer(i, latest_height, confirmations);
                out.push(t);
                proof {
                    assert(out@.map_values(|t: Transfer| t@) =~= before.push(
                        transfer_of_row(self@.transfers[i as int], latest_height, confirmations),
                    ));
                }
            }
            i += 1;
        }
        proof {
            assert(self@.transfers.take(self@.transfers.len() as int) =~= self@.transfers);
        }
        if out.len() == 0 {
            Err(crate::WalletError::NotFound)
        } else {
            proof {
                assert(out@.map_values(|t: Transfer| t@).len() == out@.len());
            }
            Ok(out)
        }
    }

    /// The transfers of one account tied to a transaction id, served
    /// against tip `latest_height`. Fails with a not-found condition
    /// exactly when nothing matches.
    pub fn get_transfers_by_txid(
        &self,
        latest_height: u32,
        txid: &String,
        account_index: u32,
        confirmations: u32,
    ) -> (r: Result<Vec<Transfer>, crate::WalletError>)
        ensures
            ({
                let m = txid_transfers(
                    self@.transfers,
                    txid@,
                    account_index,
                    latest_height,
                    confirmations,
                );
                match r {
                    Ok(v) => v@.map_values(|t: Transfer| t@) == m && m.len() > 0,
                    Err(e) => e == crate::WalletError::NotFound && m.len() == 0,
                }
            }),
    {
        let mut out: Vec<Transfer> = Vec::new();
        let mut i: usize = 0;
        proof {
            assert(self@.transfers.take(0) =~= Seq::<TransferRowModel>::empty());
            assert(out@.map_values(|t: Transfer| t@) =~= Seq::<TransferModel>::empty());
        }
        while i < self.transfers.len()
            invariant
                i <= self.transfers.len(),
                self@.transfers.len() == self.transfers@.len(),
                out@.map_values(|t: Transfer| t@) == txid_transfers(
                    self@.transfers.take(i as int),
                    txid@,
                    account_index,
                    latest_height,
                    confirmations,
                ),
            decreases self.transfers.len() - i,
        {
            let ghost before = out@.map_values(|t: Transfer| t@);
            proof {
                assert(self@.transfers.take(i + 1 as int).drop_last() =~= self@.transfers.take(
                    i as int,
                ));
                assert(self@.transfers.take(i + 1 as int).last() == self@.transfers[i as int]);
                assert(self@.transfers[i as int] == self.transfers@[i as int]@);
            }
            let row = &self.transfers[i];
            if row.txid_hex.eq(txid) && row.account_index == account_index {
                let t = self.row_to_transfer(i, latest_height, confirmations);
                out.push(t);
                proof {
                    assert(out@.map_values(|t: Transfer| t@) =~= before.push(
                        transfer_of_row(self@.transfers[i as int], latest_height, confirmations),
                    ));
                }
            }
            i += 1;
        }
        proof {
            assert(self@.transfers.take(self@.transfers.len() as int) =~= self@.transfers);
        }
        if out.len() == 0 {
            Err(crate::WalletError::NotFound)
        } else {
            proof {
                assert(out@.map_values(|t: Transfer| t@).len() == out@.len());
            }
            Ok(out)
        }
    }

    fn row_to_transfer(&self, i: usize, latest_height: u32, confirmations: u32) -> (t: Transfer)
        requires
            i < self.transfers@.len(),
        ensures
            t@ == transfer_of_row(self@.transfers[i as int], latest_height, confirmations),
    {
        proof {
            assert(self@.transfers[i as int] == self.transfers@[i as int]@);
        }
        let row = &self.transfers[i];
        Transfer {
            address: copy_string(&row.address),
            amount: row.amount,
            confirmations: crate::transaction::compute_confirmations(latest_height, row.height),
            height: row.height,
            fee: row.fee,
            note: String::new(),
            payment_id: String::new(),
            subaddr_index: SubAddrIndex { major: row.account_index, minor: row.sub_account_index },
            suggested_confirmations_threshold: confirmations,
            timestamp: row.timestamp,
            txid: copy_string(&row.txid_hex),
            transfer_type: (if row.incoming {
                "in".to_owned()
            } else {
                "out".to_owned()
            }),
            unlock_time: 0,
        }
    }
}

/// Every note, spent mark and transfer stands at or below the watermark.
pub open spec fn rows_bounded(m: DbModel) -> bool {
    &&& forall|i: int| 0 <= i < m.notes.len() ==> (#[trigger] m.notes[i]).height
        <= m.synced_height
    &&& forall|i: int| 0 <= i < m.notes.len() ==> (match (#[trigger] m.notes[i]).spent_height {
        Some(sh) => sh <= m.synced_height,
        None => true,
    })
    &&& forall|i: int| 0 <= i < m.transfers.len() ==> (#[trigger] m.transfers[i]).height
        <= m.synced_height
}

/// Every event inside a block group stands at that block's height.
pub open spec fn events_heights_ok(evs: Seq<BlockEventsModel>) -> bool {
    forall|i: int| 0 <= i < evs.len() ==> {
        let be = #[trigger] evs[i];
        &&& (forall|j: int| 0 <= j < be.received.len() ==> (#[trigger] be.received[j]).height
            == be.block.height)
        &&& (forall|j: int| 0 <= j < be.spent.len() ==> (#[trigger] be.spent[j]).height
            == be.block.height)
    }
}

proof fn lemma_apply_received_bounded(db: DbModel, rs: Seq<ReceivedNoteModel>)
    requires
        rows_bounded(db),
        forall|j: int| 0 <= j < rs.len() ==> (#[trigger] rs[j]).height <= db.synced_height,
    ensures
        rows_bounded(apply_received(db, rs)),
    decreases rs.len(),
{
    if rs.len() > 0 {
        lemma_apply_received_bounded(db, rs.drop_last());
        lemma_apply_received_frame(db, rs.drop_last());
    }
}

proof fn lemma_apply_spent_bounded(db: DbModel, ss: Seq<SpentNoteModel>, time: u32)
    requires
        rows_bounded(db),
        forall|j: int| 0 <= j < ss.len() ==> (#[trigger] ss[j]).height <= db.synced_height,
    ensures
        rows_bounded(apply_spent(db, ss, time)),
    decreases ss.len(),
{
    if ss.len() > 0 {
        lemma_apply_spent_bounded(db, ss.drop_last(), time);
        lemma_apply_spent_frame(db, ss.drop_last(), time);
        let prev = apply_spent(db, ss.drop_last(), time);
        let s = ss.last();
        let k = find_note(prev.notes, s.pool, s.nf);
        if k >= 0 {
            lemma_find_note_props(prev.notes, s.pool, s.nf);
        }
    }
}

/// Applying events that continue the hash-chain keeps every row at or
/// below the advanced watermark.
pub proof fn lemma_apply_events_bounded(db: DbModel, bes: Seq<BlockEventsModel>)
    requires
        wf_model(db),
        rows_bounded(db),
        events_follow(db, bes),
        events_heights_ok(bes),
    ensures
        rows_bounded(apply_events(db, bes)),
    decreases bes.len(),
{
    if bes.len() > 0 {
        assert(events_follow(db, bes.drop_last())) by {
            assert(forall|i: int| 0 <= i < bes.len() - 1 ==> bes.drop_last()[i] == bes[i]);
        }
        assert(events_heights_ok(bes.drop_last())) by {
            assert(forall|i: int| 0 <= i < bes.len() - 1 ==> bes.drop_last()[i] == bes[i]);
        }
        lemma_apply_events_bounded(db, bes.drop_last());
        lemma_apply_events_wf(db, bes.drop_last());
        let prev = apply_events(db, bes.drop_last());
        let be = bes.last();
        let db1 = DbModel {
            blocks: prev.blocks.push(be.block),
            synced_height: be.block.height,
            ..prev
        };
        assert(rows_bounded(db1));
        lemma_apply_received_bounded(db1, be.received);
        lemma_apply_received_frame(db1, be.received);
        lemma_apply_spent_bounded(apply_received(db1, be.received), be.spent, be.block.time);
    }
}

proof fn lemma_keep_blocks_id(blocks: Seq<BlockInfoModel>, hh: u32)
    requires
        forall|i: int| 0 <= i < blocks.len() ==> (#[trigger] blocks[i]).height <= hh,
    ensures
        keep_blocks(blocks, hh) == blocks,
    decreases blocks.len(),
{
    if blocks.len() > 0 {
        lemma_keep_blocks_id(blocks.drop_last(), hh);
        assert(blocks.drop_last().push(blocks.last()) =~= blocks);
    } else {
        assert(keep_blocks(blocks, hh) =~= blocks);
    }
}

proof fn lemma_keep_notes_id(notes: Seq<NoteRowModel>, hh: u32)
    requires
        forall|i: int| 0 <= i < notes.len() ==> (#[trigger] notes[i]).height <= hh,
        forall|i: int| 0 <= i < notes.len() ==> (match (#[trigger] notes[i]).spent_height {
            Some(sh) => sh <= hh,
            None => true,
        }),
    ensures
        keep_notes(notes, hh) == notes,
    decreases notes.len(),
{
    if notes.len() > 0 {
        lemma_keep_notes_id(notes.drop_last(), hh);
        let n = notes.last();
        assert(NoteRowModel {
            spent_height: (match n.spent_height {
                Some(sh) => if sh <= hh {
                    Some(sh)
                } else {
                    None
                },
                None => None,
            }),
            ..n
        } == n);
        assert(notes.drop_last().push(notes.last()) =~= notes);
    } else {
        assert(keep_notes(notes, hh) =~= notes);
    }
}

proof fn lemma_keep_transfers_id(ts: Seq<TransferRowModel>, hh: u32)
    requires
        forall|i: int| 0 <= i < ts.len() ==> (#[trigger] ts[i]).height <= hh,
    ensures
        keep_transfers(ts, hh) == ts,
    decreases ts.len(),
{
    if ts.len() > 0 {
        lemma_keep_transfers_id(ts.drop_last(), hh);
        assert(ts.drop_last().push(ts.last()) =~= ts);
    } else {
        assert(keep_transfers(ts, hh) =~= ts);
    }
}

proof fn lemma_keep_notes_update(notes: Seq<NoteRowModel>, k: int, n2: NoteRowModel, hh: u32)
    requires
        0 <= k < notes.len(),
        n2.height == notes[k].height,
        n2.height <= hh ==> (NoteRowModel {
            spent_height: (match n2.spent_height {
                Some(sh) => if sh <= hh {
                    Some(sh)
                } else {
                    None
                },
                None => None,
            }),
            ..n2
        }) == (NoteRowModel {
            spent_height: (match notes[k].spent_height {
                Some(sh) => if sh <= hh {
                    Some(sh)
                } else {
                    None
                },
                None => None,
            }),
            ..notes[k]
        }),
    ensures
        keep_notes(notes.update(k, n2), hh) == keep_notes(notes, hh),
    decreases notes.len(),
{
    let upd = notes.update(k, n2);
    if k == notes.len() - 1 {
        assert(upd.drop_last() =~= notes.drop_last());
        assert(upd.last() == n2);
    } else {
        assert(upd.drop_last() =~= notes.drop_last().update(k, n2));
        assert(upd.last() == notes.last());
        lemma_keep_notes_update(notes.drop_last(), k, n2, hh);
    }
}

/// Applying a block above the rewind height and then rewinding is the same
/// as rewinding what stood before: a rewind erases everything such a block
/// contributed, spent marks included.
proof fn lemma_truncate_absorb_block(db: DbModel, be: BlockEventsModel, h: u32)
    requires
        db.birth_height <= h <= db.synced_height,
        be.block.height > h,
        forall|j: int| 0 <= j < be.received.len() ==> (#[trigger] be.received[j]).height
            == be.block.height,
        forall|j: int| 0 <= j < be.spent.len() ==> (#[trigger] be.spent[j]).height
            == be.block.height,
    ensures
        truncate_model(apply_block_events(db, be), h) == truncate_model(db, h),
{
    let db1 = DbModel { blocks: db.blocks.push(be.block), synced_height: be.block.height, ..db };
    assert(keep_blocks(db1.blocks, h) == keep_blocks(db.blocks, h)) by {
        assert(db1.blocks.drop_last() =~= db.blocks);
    }
    lemma_truncate_absorb_received(db1, be.received, h);
    let db2 = apply_received(db1, be.received);
    lemma_apply_received_frame(db1, be.received);
    lemma_truncate_absorb_spent(db2, be.spent, be.block.time, h);
    let db3 = apply_spent(db2, be.spent, be.block.time);
    lemma_apply_spent_frame(db2, be.spent, be.block.time);
    assert(truncate_model(db3, h) =~= truncate_model(db, h));
}

proof fn lemma_truncate_absorb_received(db: DbModel, rs: Seq<ReceivedNoteModel>, h: u32)
    requires
        forall|j: int| 0 <= j < rs.len() ==> (#[trigger] rs[j]).height > h,
    ensures
        keep_notes(apply_received(db, rs).notes, h) == keep_notes(db.notes, h),
        keep_transfers(apply_received(db, rs).transfers, h) == keep_transfers(db.transfers, h),
    decreases rs.len(),
{
    if rs.len() > 0 {
        lemma_truncate_absorb_received(db, rs.drop_last(), h);
        let prev = apply_received(db, rs.drop_last());
        let nxt = apply_received_one(prev, rs.last());
        assert(nxt.notes.drop_last() =~= prev.notes);
        assert(nxt.transfers.drop_last() =~= prev.transfers);
    }
}

proof fn lemma_truncate_absorb_spent(db: DbModel, ss: Seq<SpentNoteModel>, time: u32, h: u32)
    requires
        forall|j: int| 0 <= j < ss.len() ==> (#[trigger] ss[j]).height > h,
    ensures
        keep_notes(apply_spent(db, ss, time).notes, h) == keep_notes(db.notes, h),
        keep_transfers(apply_spent(db, ss, time).transfers, h) == keep_transfers(
            db.transfers,
            h,
        ),
    decreases ss.len(),
{
    if ss.len() > 0 {
        lemma_truncate_absorb_spent(db, ss.drop_last(), time, h);
        let prev = apply_spent(db, ss.drop_last(), time);
        let s = ss.last();
        let k = find_note(prev.notes, s.pool, s.nf);
        if k >= 0 {
            lemma_find_note_props(prev.notes, s.pool, s.nf);
            let nxt = apply_spent_one(prev, s, time);
            assert(nxt.transfers.drop_last() =~= prev.transfers);
            lemma_keep_notes_update(
                prev.notes,
                k,
                NoteRowModel { spent_height: Some(s.height), ..prev.notes[k] },
                h,
            );
        }
    }
}

/// Events apply batch by batch: applying a concatenation is applying the
/// first batch and then the second. Together with [`lemma_truncate_replay`]
/// this is rewind/replay on the store's side: after a rewind to `h`,
/// re-applying the events of the blocks above `h` reproduces exactly the
/// note, spent-mark and transfer set that existed before the rewind.
pub proof fn lemma_apply_events_concat(
    db: DbModel,
    e1: Seq<BlockEventsModel>,
    e2: Seq<BlockEventsModel>,
)
    ensures
        apply_events(db, e1 + e2) == apply_events(apply_events(db, e1), e2),
    decreases e2.len(),
{
    if e2.len() == 0 {
        assert(e1 + e2 =~= e1);
    } else {
        lemma_apply_events_concat(db, e1, e2.drop_last());
        assert((e1 + e2).drop_last() =~= e1 + e2.drop_last());
        assert((e1 + e2).last() == e2.last());
    }
}

/// Rewind/replay, the store's half: applying a contiguous batch of scanned
/// blocks and then rewinding to a height `h` inside the batch leaves
/// exactly the store that applying only the blocks at or below `h`
/// produces. Nothing a block above `h` contributed — notes, spent marks or
/// transfers — survives the rewind, and everything at or below `h` does.
pub proof fn lemma_truncate_replay(
    db: DbModel,
    e1: Seq<BlockEventsModel>,
    e2: Seq<BlockEventsModel>,
    h: u32,
)
    requires
        wf_model(db),
        rows_bounded(db),
        events_follow(db, e1 + e2),
        events_heights_ok(e1 + e2),
        h == db.synced_height + e1.len(),
    ensures
        truncate_model(apply_events(db, e1 + e2), h) == apply_events(db, e1),
    decreases e2.len(),
{
    assert(events_follow(db, e1)) by {
        assert(forall|i: int| 0 <= i < e1.len() ==> (e1 + e2)[i] == e1[i]);
    }
    assert(events_heights_ok(e1)) by {
        assert(forall|i: int| 0 <= i < e1.len() ==> (e1 + e2)[i] == e1[i]);
    }
    lemma_apply_events_wf(db, e1);
    lemma_apply_events_bounded(db, e1);
    let y = apply_events(db, e1);
    if e2.len() == 0 {
        assert(e1 + e2 =~= e1);
        assert(clamp_height(y, h) == h);
        lemma_keep_blocks_id(y.blocks, h);
        lemma_keep_notes_id(y.notes, h);
        lemma_keep_transfers_id(y.transfers, h);
        assert(truncate_model(y, h) =~= y);
    } else {
        let e2p = e2.drop_last();
        let be = e2.last();
        assert(e1 + e2p =~= (e1 + e2).drop_last());
        assert(events_follow(db, e1 + e2p)) by {
            assert(forall|i: int| 0 <= i < (e1 + e2p).len() ==> (e1 + e2p)[i] == (e1 + e2)[i]);
        }
        assert(events_heights_ok(e1 + e2p)) by {
            assert(forall|i: int| 0 <= i < (e1 + e2p).len() ==> (e1 + e2p)[i] == (e1 + e2)[i]);
        }
        lemma_truncate_replay(db, e1, e2p, h);
        lemma_apply_events_wf(db, e1 + e2p);
        let x = apply_events(db, e1 + e2p);
        assert(apply_events(db, e1 + e2) == apply_block_events(x, be)) by {
            assert((e1 + e2).drop_last() =~= e1 + e2p);
            assert((e1 + e2).last() == be);
        }
        assert(be == (e1 + e2)[(e1 + e2).len() - 1]);
        assert(be.block.height == db.synced_height + (e1 + e2).len());
        assert(x.synced_height == db.synced_height + (e1 + e2p).len());
        lemma_truncate_absorb_block(x, be, h);
    }
}

/// The working nullifier set replayed over discoveries: each note of the
/// pool registers its nullifier, in order.
pub open spec fn replay_received(
    nfs: Seq<Seq<u8>>,
    pool: Pool,
    rs: Seq<ReceivedNoteModel>,
) -> Seq<Seq<u8>>
    decreases rs.len(),
{
    if rs.len() == 0 {
        nfs
    } else {
        let p = replay_received(nfs, pool, rs.drop_last());
        if rs.last().pool == pool {
            p.push(rs.last().note.nf)
        } else {
            p
        }
    }
}

/// The working nullifier set replayed over spends: each observed spend of
/// the pool removes the first matching nullifier, if any.
pub open spec fn replay_spent(
    nfs: Seq<Seq<u8>>,
    pool: Pool,
    ss: Seq<SpentNoteModel>,
) -> Seq<Seq<u8>>
    decreases ss.len(),
{
    if ss.len() == 0 {
        nfs
    } else {
        let p = replay_spent(nfs, pool, ss.drop_last());
        let s = ss.last();
        if s.pool == pool && crate::decoder::find_nf(p, s.nf) >= 0 {
            p.remove(crate::decoder::find_nf(p, s.nf))
        } else {
            p
        }
    }
}

/// The working nullifier set replayed over whole blocks of events:
/// discoveries first, then spends, block by block.
pub open spec fn replay_events(
    nfs: Seq<Seq<u8>>,
    pool: Pool,
    evs: Seq<BlockEventsModel>,
) -> Seq<Seq<u8>>
    decreases evs.len(),
{
    if evs.len() == 0 {
        nfs
    } else {
        let p = replay_events(nfs, pool, evs.drop_last());
        replay_spent(replay_received(p, pool, evs.last().received), pool, evs.last().spent)
    }
}

/// Head unfolding of [`unspent_nfs_for`]: the set is the head's
/// contribution followed by the rest's.
proof fn lemma_unspent_head(notes: Seq<NoteRowModel>, pool: Pool)
    requires
        notes.len() > 0,
    ensures
        unspent_nfs_for(notes, pool) == (if notes[0].pool == pool && notes[0].spent_height
            is None {
            seq![notes[0].nf] + unspent_nfs_for(notes.drop_first(), pool)
        } else {
            unspent_nfs_for(notes.drop_first(), pool)
        }),
    decreases notes.len(),
{
    if notes.len() == 1 {
        assert(notes.drop_last() =~= Seq::<NoteRowModel>::empty());
        assert(notes.drop_first() =~= Seq::<NoteRowModel>::empty());
        if notes[0].pool == pool && notes[0].spent_height is None {
            assert(seq![notes[0].nf] + Seq::<Seq<u8>>::empty() =~= Seq::<Seq<
                u8,
            >>::empty().push(notes[0].nf));
        }
    } else {
        let dl = notes.drop_last();
        lemma_unspent_head(dl, pool);
        assert(notes.drop_first().drop_last() =~= dl.drop_first());
        assert(notes.drop_first().last() == notes.last());
        assert(notes.drop_first().len() > 0);
        assert(dl[0] == notes[0]);
        let last = notes.last();
        if last.pool == pool && last.spent_height is None {
            if notes[0].pool == pool && notes[0].spent_height is None {
                assert((seq![notes[0].nf] + unspent_nfs_for(dl.drop_first(), pool)).push(last.nf)
                    =~= seq![notes[0].nf] + unspent_nfs_for(dl.drop_first(), pool).push(last.nf));
            }
        }
    }
}

/// Head unfolding of [`find_nf`], restated here for composition.
proof fn lemma_seq_cons_remove(x: Seq<u8>, r: Seq<Seq<u8>>, j: int)
    requires
        0 <= j < r.len(),
    ensures
        (seq![x] + r).remove(j + 1) == seq![x] + r.remove(j),
{
    assert((seq![x] + r).remove(j + 1) =~= seq![x] + r.remove(j));
}

/// The first not-yet-spent note of the pool with a given nullifier stands
/// exactly where the nullifier first stands in the pool's working set, and
/// marking it spent removes exactly that nullifier, whatever height the
/// mark carries.
proof fn lemma_find_note_vs_find_nf_at(notes: Seq<NoteRowModel>, pool: Pool, nf: Seq<u8>, sh: u32)
    ensures
        (find_note(notes, pool, nf) >= 0) == (crate::decoder::find_nf(
            unspent_nfs_for(notes, pool),
            nf,
        ) >= 0),
        find_note(notes, pool, nf) >= 0 ==> unspent_nfs_for(
            notes.update(
                find_note(notes, pool, nf),
                NoteRowModel { spent_height: Some(sh), ..notes[find_note(notes, pool, nf)] },
            ),
            pool,
        ) == unspent_nfs_for(notes, pool).remove(
            crate::decoder::find_nf(unspent_nfs_for(notes, pool), nf),
        ),
    decreases notes.len(),
{
    if notes.len() == 0 {
        return ;
    }
    lemma_unspent_head(notes, pool);
    let rest = notes.drop_first();
    let s = unspent_nfs_for(notes, pool);
    let s_rest = unspent_nfs_for(rest, pool);
    let head = notes[0];
    let head_counts = head.pool == pool && head.spent_height is None;
    lemma_find_note_vs_find_nf_at(rest, pool, nf, sh);
    if head_counts && head.nf == nf {
        // the head is the first match in both views
        assert(find_note(notes, pool, nf) == 0);
        assert(s == seq![head.nf] + s_rest);
        assert(s[0] == nf);
        assert(crate::decoder::find_nf(s, nf) == 0);
        let upd = notes.update(0, NoteRowModel { spent_height: Some(sh), ..head });
        lemma_unspent_head(upd, pool);
        assert(upd.drop_first() =~= rest);
        assert(s.remove(0) =~= s_rest);
    } else {
        // the head is not a match: both searches continue in the rest
        let k_rest = find_note(rest, pool, nf);
        if head_counts {
            assert(s == seq![head.nf] + s_rest);
            assert(s[0] != nf);
            let j_rest = crate::decoder::find_nf(s_rest, nf);
            assert(crate::decoder::find_nf(s, nf) == (if j_rest < 0 {
                -1int
            } else {
                j_rest + 1
            })) by {
                assert(s.drop_first() =~= s_rest);
            }
            if k_rest >= 0 {
                lemma_find_note_props(rest, pool, nf);
                assert(find_note(notes, pool, nf) == k_rest + 1);
                crate::decoder::lemma_find_nf_props(s_rest, nf);
                let n2 = NoteRowModel { spent_height: Some(sh), ..notes[k_rest + 1] };
                let upd = notes.update(k_rest + 1, n2);
                lemma_unspent_head(upd, pool);
                assert(upd.drop_first() =~= rest.update(k_rest, n2));
                assert(upd[0] == head);
                assert(notes[k_rest + 1] == rest[k_rest]);
                lemma_seq_cons_remove(head.nf, s_rest, j_rest);
            }
        } else {
            assert(s == s_rest);
            if k_rest >= 0 {
                lemma_find_note_props(rest, pool, nf);
                assert(find_note(notes, pool, nf) == k_rest + 1);
                let j_rest = crate::decoder::find_nf(s_rest, nf);
                crate::decoder::lemma_find_nf_props(s_rest, nf);
                let n2 = NoteRowModel { spent_height: Some(sh), ..notes[k_rest + 1] };
                let upd = notes.update(k_rest + 1, n2);
                lemma_unspent_head(upd, pool);
                assert(upd.drop_first() =~= rest.update(k_rest, n2));
                assert(upd[0] == head);
                assert(notes[k_rest + 1] == rest[k_rest]);
            }
        }
    }
}

/// Rewind/replay idempotence on the store: rewinding to a height `h`
/// inside an applied batch and then re-applying the events of the blocks
/// above `h` reproduces the exact note, spent-mark and transfer set that
/// existed before the rewind — provided the same events come back, which
/// holds when the underlying chain did not change.
pub proof fn lemma_rewind_replay(
    db: DbModel,
    e1: Seq<BlockEventsModel>,
    e2: Seq<BlockEventsModel>,
    h: u32,
)
    requires
        wf_model(db),
        rows_bounded(db),
        events_follow(db, e1 + e2),
        events_heights_ok(e1 + e2),
        h == db.synced_height + e1.len(),
    ensures
        apply_events(truncate_model(apply_events(db, e1 + e2), h), e2) == apply_events(
            db,
            e1 + e2,
        ),
{
    lemma_truncate_replay(db, e1, e2, h);
    lemma_apply_events_concat(db, e1, e2);
}

proof fn lemma_unspent_update_other(notes: Seq<NoteRowModel>, k: int, n2: NoteRowModel, pool: Pool)
    requires
        0 <= k < notes.len(),
        !(notes[k].pool == pool && notes[k].spent_height is None),
        !(n2.pool == pool && n2.spent_height is None),
    ensures
        unspent_nfs_for(notes.update(k, n2), pool) == unspent_nfs_for(notes, pool),
    decreases notes.len(),
{
    let upd = notes.update(k, n2);
    if k == notes.len() - 1 {
        assert(upd.drop_last() =~= notes.drop_last());
        assert(upd.last() == n2);
    } else {
        assert(upd.drop_last() =~= notes.drop_last().update(k, n2));
        assert(upd.last() == notes.last());
        lemma_unspent_update_other(notes.drop_last(), k, n2, pool);
    }
}

proof fn lemma_apply_spent_one_nfs(db: DbModel, s: SpentNoteModel, time: u32, pool: Pool)
    ensures
        unspent_nfs_for(apply_spent_one(db, s, time).notes, pool) == ({
            let nfs = unspent_nfs_for(db.notes, pool);
            if s.pool == pool && crate::decoder::find_nf(nfs, s.nf) >= 0 {
                nfs.remove(crate::decoder::find_nf(nfs, s.nf))
            } else {
                nfs
            }
        }),
{
    let k = find_note(db.notes, s.pool, s.nf);
    if s.pool == pool {
        lemma_find_note_vs_find_nf_at(db.notes, pool, s.nf, s.height);
    } else {
        if k >= 0 {
            lemma_find_note_props(db.notes, s.pool, s.nf);
            lemma_unspent_update_other(
                db.notes,
                k,
                NoteRowModel { spent_height: Some(s.height), ..db.notes[k] },
                pool,
            );
        }
    }
}

proof fn lemma_apply_received_nfs(db: DbModel, rs: Seq<ReceivedNoteModel>, pool: Pool)
    ensures
        unspent_nfs_for(apply_received(db, rs).notes, pool) == replay_received(
            unspent_nfs_for(db.notes, pool),
            pool,
            rs,
        ),
    decreases rs.len(),
{
    if rs.len() > 0 {
        lemma_apply_received_nfs(db, rs.drop_last(), pool);
        let prev = apply_received(db, rs.drop_last());
        let nxt = apply_received_one(prev, rs.last());
        assert(nxt.notes.drop_last() =~= prev.notes);
    }
}

proof fn lemma_apply_spent_nfs(db: DbModel, ss: Seq<SpentNoteModel>, time: u32, pool: Pool)
    ensures
        unspent_nfs_for(apply_spent(db, ss, time).notes, pool) == replay_spent(
            unspent_nfs_for(db.notes, pool),
            pool,
            ss,
        ),
    decreases ss.len(),
{
    if ss.len() > 0 {
        lemma_apply_spent_nfs(db, ss.drop_last(), time, pool);
        lemma_apply_spent_one_nfs(apply_spent(db, ss.drop_last(), time), ss.last(), time, pool);
    }
}

/// The store's persisted nullifier set is maintained exactly by the
/// working-set discipline that spend detection rests on: applying scanned
/// blocks, each discovery of the pool registers its note's nullifier and
/// each observed spend removes the first matching one. The set of unspent
/// notes' nullifiers therefore always equals the replayed working set.
pub proof fn lemma_nullifier_set_invariant(
    db: DbModel,
    evs: Seq<BlockEventsModel>,
    pool: Pool,
)
    ensures
        unspent_nfs_for(apply_events(db, evs).notes, pool) == replay_events(
            unspent_nfs_for(db.notes, pool),
            pool,
            evs,
        ),
    decreases evs.len(),
{
    if evs.len() > 0 {
        lemma_nullifier_set_invariant(db, evs.drop_last(), pool);
        let prev = apply_events(db, evs.drop_last());
        let be = evs.last();
        let db1 = DbModel {
            blocks: prev.blocks.push(be.block),
            synced_height: be.block.height,
            ..prev
        };
        lemma_apply_received_nfs(db1, be.received, pool);
        lemma_apply_spent_nfs(apply_received(db1, be.received), be.spent, be.block.time, pool);
    }
}

/// Whether a pool tag is the first pool.
pub open spec fn pool_is_sapling_spec(pool: Pool) -> bool {
    pool == Pool::Sapling
}

/// Pool comparison helper.
pub fn pool_is_sapling(pool: Pool) -> (r: bool)
    ensures
        r == pool_is_sapling_spec(pool),
{
    match pool {
        Pool::Sapling => true,
        Pool::Orchard => false,
    }
}

/// One received note applied to the store: the note is attributed to the
/// first address row whose receiver matches — to the default sub-account
/// `(0, 0)` when none does — its nullifier enters the persisted set, and an
/// incoming transfer record is written.
pub open spec fn apply_received_one(db: DbModel, r: ReceivedNoteModel) -> DbModel {
    let j = find_receiver(db.addrs, r.pool, r.note.address);
    let a = if j >= 0 {
        db.addrs[j].account_index
    } else {
        0u32
    };
    let s = if j >= 0 {
        db.addrs[j].sub_account_index
    } else {
        0u32
    };
    let addr = if j >= 0 {
        db.addrs[j].address
    } else {
        Seq::<char>::empty()
    };
    DbModel {
        notes: db.notes.push(
            NoteRowModel {
                pool: r.pool,
                account_index: a,
                sub_account_index: s,
                value: r.note.value,
                height: r.height,
                nf: r.note.nf,
                spent_height: None,
                txid: r.txid,
                position: r.position,
            },
        ),
        transfers: db.transfers.push(
            TransferRowModel {
                txid_hex: txid_hex_of(r.txid),
                account_index: a,
                sub_account_index: s,
                address: addr,
                amount: r.note.value,
                fee: 0,
                height: r.height,
                timestamp: r.time as u64,
                incoming: true,
            },
        ),
        ..db
    }
}

pub open spec fn apply_received(db: DbModel, rs: Seq<ReceivedNoteModel>) -> DbModel
    decreases rs.len(),
{
    if rs.len() == 0 {
        db
    } else {
        apply_received_one(apply_received(db, rs.drop_last()), rs.last())
    }
}

/// One observed spend applied to the store: the first not-yet-spent note of
/// the pool carrying the nullifier — if any — is marked spent at the
/// spend's height, and an outgoing transfer record is written for it,
/// carrying the fee the spending transaction paid.
pub open spec fn apply_spent_one(db: DbModel, s: SpentNoteModel, time: u32) -> DbModel {
    let k = find_note(db.notes, s.pool, s.nf);
    if k < 0 {
        db
    } else {
        let n = db.notes[k];
        let j = find_addr(db.addrs, n.account_index, n.sub_account_index);
        let addr = if j >= 0 {
            db.addrs[j].address
        } else {
            Seq::<char>::empty()
        };
        DbModel {
            notes: db.notes.update(k, NoteRowModel { spent_height: Some(s.height), ..n }),
            transfers: db.transfers.push(
                TransferRowModel {
                    txid_hex: txid_hex_of(s.txid),
                    account_index: n.account_index,
                    sub_account_index: n.sub_account_index,
                    address: addr,
                    amount: n.value,
                    fee: s.fee as u64,
                    height: s.height,
                    timestamp: time as u64,
                    incoming: false,
                },
            ),
            ..db
        }
    }
}

pub open spec fn apply_spent(db: DbModel, ss: Seq<SpentNoteModel>, time: u32) -> DbModel
    decreases ss.len(),
{
    if ss.len() == 0 {
        db
    } else {
        apply_spent_one(apply_spent(db, ss.drop_last(), time), ss.last(), time)
    }
}

/// One scanned block applied to the store: its hash joins the chain, the
/// watermark advances to its height, then its discoveries and its spends
/// are applied, in that order.
pub open spec fn apply_block_events(db: DbModel, be: BlockEventsModel) -> DbModel {
    let db1 = DbModel { blocks: db.blocks.push(be.block), synced_height: be.block.height, ..db };
    apply_spent(apply_received(db1, be.received), be.spent, be.block.time)
}

/// A whole scan call's events applied block by block, in height order.
pub open spec fn apply_events(db: DbModel, bes: Seq<BlockEventsModel>) -> DbModel
    decreases bes.len(),
{
    if bes.len() == 0 {
        db
    } else {
        apply_block_events(apply_events(db, bes.drop_last()), bes.last())
    }
}

/// The events continue the store's hash-chain: one block per height,
/// contiguous from just above the synced height.
pub open spec fn events_follow(db: DbModel, evs: Seq<BlockEventsModel>) -> bool {
    &&& db.synced_height + evs.len() <= u32::MAX
    &&& forall|i: int| 0 <= i < evs.len() ==> (#[trigger] evs[i]).block.height
        == db.synced_height + 1 + i
}

pub proof fn lemma_apply_received_frame(db: DbModel, rs: Seq<ReceivedNoteModel>)
    ensures
        ({
            let r = apply_received(db, rs);
            r.birth_height == db.birth_height && r.synced_height == db.synced_height && r.blocks
                == db.blocks && r.accounts == db.accounts && r.addrs == db.addrs
                && r.next_diversifier == db.next_diversifier
        }),
    decreases rs.len(),
{
    if rs.len() > 0 {
        lemma_apply_received_frame(db, rs.drop_last());
    }
}

pub proof fn lemma_apply_spent_frame(db: DbModel, ss: Seq<SpentNoteModel>, time: u32)
    ensures
        ({
            let r = apply_spent(db, ss, time);
            r.birth_height == db.birth_height && r.synced_height == db.synced_height && r.blocks
                == db.blocks && r.accounts == db.accounts && r.addrs == db.addrs
                && r.next_diversifier == db.next_diversifier && r.notes.len() >= db.notes.len()
        }),
    decreases ss.len(),
{
    if ss.len() > 0 {
        lemma_apply_spent_frame(db, ss.drop_last(), time);
        let prev = apply_spent(db, ss.drop_last(), time);
        let k = find_note(prev.notes, ss.last().pool, ss.last().nf);
        if k >= 0 {
            lemma_find_note_props(prev.notes, ss.last().pool, ss.last().nf);
            assert(prev.notes.update(k, NoteRowModel {
                spent_height: Some(ss.last().height),
                ..prev.notes[k]
            }).len() == prev.notes.len());
        }
    }
}

/// Applying events that continue the hash-chain preserves well-formedness
/// and advances the watermark by exactly the number of blocks applied.
pub proof fn lemma_apply_events_wf(db: DbModel, bes: Seq<BlockEventsModel>)
    requires
        wf_model(db),
        events_follow(db, bes),
    ensures
        wf_model(apply_events(db, bes)),
        apply_events(db, bes).synced_height == db.synced_height + bes.len(),
        apply_events(db, bes).birth_height == db.birth_height,
        apply_events(db, bes).accounts == db.accounts,
        apply_events(db, bes).addrs == db.addrs,
        apply_events(db, bes).next_diversifier == db.next_diversifier,
    decreases bes.len(),
{
    if bes.len() > 0 {
        assert(events_follow(db, bes.drop_last())) by {
            assert(forall|i: int| 0 <= i < bes.len() - 1 ==> bes.drop_last()[i] == bes[i]);
        }
        lemma_apply_events_wf(db, bes.drop_last());
        let prev = apply_events(db, bes.drop_last());
        let be = bes.last();
        assert(be.block.height == db.synced_height + bes.len());
        let db1 = DbModel {
            blocks: prev.blocks.push(be.block),
            synced_height: be.block.height,
            ..prev
        };
        assert(wf_model(db1)) by {
            assert(forall|i: int| 0 <= i < prev.blocks.len() ==> (#[trigger] db1.blocks[i])
                == prev.blocks[i]);
        }
        lemma_apply_received_frame(db1, be.received);
        lemma_apply_spent_frame(apply_received(db1, be.received), be.spent, be.block.time);
    }
}

/// The nullifiers of the not-yet-spent notes of `pool`, in note order.
pub open spec fn unspent_nfs_for(notes: Seq<NoteRowModel>, pool: Pool) -> Seq<Seq<u8>>
    decreases notes.len(),
{
    if notes.len() == 0 {
        Seq::empty()
    } else {
        let p = unspent_nfs_for(notes.drop_last(), pool);
        if notes.last().pool == pool && notes.last().spent_height is None {
            p.push(notes.last().nf)
        } else {
            p
        }
    }
}

/// The nullifiers of all not-yet-spent notes, in note order.
pub open spec fn unspent_nfs(notes: Seq<NoteRowModel>) -> Seq<Seq<u8>>
    decreases notes.len(),
{
    if notes.len() == 0 {
        Seq::empty()
    } else {
        let p = unspent_nfs(notes.drop_last());
        if notes.last().spent_height is None {
            p.push(notes.last().nf)
        } else {
            p
        }
    }
}

} // verus!
