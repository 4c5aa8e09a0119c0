//! Wallet-side indexer for a shielded cryptocurrency protocol.
//!
//! The crate scans ranges of compact blocks, trial-decrypts shielded outputs
//! with held viewing keys, matches spend nullifiers against the working set,
//! and maintains an indexed store of accounts, addresses, notes and transfers
//! from which balances and transaction history are served.

pub mod account;
pub mod chain;
pub mod db;
pub mod transaction;
pub mod scan;
pub mod decoder;
pub mod keys;

use vstd::prelude::*;
use crate::account::{AccountBalance, SubAccount};
use crate::db::{apply_events, balance_of, cap_u64, find_addr, incoming_transfers, max_sub_index,
    sat_add, truncate_model, txid_transfers, unlocked_of, unspent_nfs_for, AccountRowModel,
    AddrRowModel, Db, DbModel};
use crate::decoder::{Decoder, Pool};
use crate::keys::{found_address_of, ViewingKey};
use crate::scan::{scan, scan_blocks, ScanError, ScanModel, ScanState};
use crate::transaction::Transfer;

verus! {

/// Why a wallet operation failed.
#[derive(Clone, Copy, Debug, PartialEq, Eq, Structural)]
pub enum WalletError {
    /// The named account, address or transfer does not exist.
    NotFound,
    /// The viewing key yields no further receiving address.
    AddressGeneration,
    /// The remote chain data could not be scanned.
    Scan,
}

/// Network that the wallet operates on.
#[derive(Clone, Copy, Debug, PartialEq, Eq, Structural)]
pub enum Network {
    Main,
    Regtest,
}

/// Process configuration, as loaded by the host.
pub struct WalletConfig {
    pub port: Option<u16>,
    pub db_path: String,
    pub confirmations: u32,
    pub lwd_url: String,
    pub notify_tx_url: String,
    pub poll_interval: u16,
    pub regtest: bool,
    pub orchard: bool,
    pub vk: String,
    pub birth_height: u32,
}

impl WalletConfig {
    /// The network selected by the configuration.
    pub fn network(&self) -> (r: Network)
        ensures
            r == (if self.regtest { Network::Regtest } else { Network::Main }),
    {
        if self.regtest {
            Network::Regtest
        } else {
            Network::Main
        }
    }
}

/// How far the store is rolled back when a chain reorganization is
/// detected: a safe distance past any plausible fork point.
pub const SAFE_REORG_DISTANCE: u32 = 100u32;

pub struct CreateAccountResponse {
    pub account_index: u32,
    pub address: String,
}

pub struct CreateAddressResponse {
    pub address: String,
    pub address_index: u32,
}

pub struct GetAccountsResponse {
    pub subaddress_accounts: Vec<AccountBalance>,
    pub total_balance: u64,
    pub total_unlocked_balance: u64,
}

pub struct GetAddressesResponse {
    pub addresses: Vec<SubAccount>,
}

pub struct GetTransactionByIdResponse {
    pub transfer: Transfer,
    pub transfers: Vec<Transfer>,
}

pub struct GetTransfersResponse {
    pub incoming: Vec<Transfer>,
}

pub struct GetHeightResponse {
    pub height: u32,
}

pub struct SyncInfoResponse {
    pub target_height: u32,
    pub height: u32,
}

pub struct CreateAccountRequest {
    pub label: Option<String>,
}

pub struct CreateAddressRequest {
    pub account_index: u32,
    pub label: Option<String>,
}

pub struct GetAccountsRequest {
    pub tag: Option<String>,
}

pub struct GetTransactionByIdRequest {
    pub txid: String,
    pub account_index: u32,
}

pub struct GetTransfersRequest {
    pub account_index: u32,
    pub incoming: bool,
    pub subaddr_indices: Vec<u32>,
}

pub struct GetFeeEstimateRequest {
}

pub struct GetHeightRequest {
}

pub struct SyncInfoRequest {
}

/// The display label an optional label argument stands for: the given
/// string, or empty when none was given.
pub open spec fn label_view(label: Option<String>) -> Seq<char> {
    match label {
        Some(l) => l@,
        None => Seq::empty(),
    }
}

/// The capped sum of the balances of a list of accounts.
pub open spec fn sum_balances(s: Seq<crate::account::AccountBalanceModel>) -> int
    decreases s.len(),
{
    if s.len() == 0 {
        0
    } else {
        sum_balances(s.drop_last()) + s.last().balance
    }
}

/// The capped sum of the unlocked balances of a list of accounts.
pub open spec fn sum_unlocked(s: Seq<crate::account::AccountBalanceModel>) -> int
    decreases s.len(),
{
    if s.len() == 0 {
        0
    } else {
        sum_unlocked(s.drop_last()) + s.last().unlocked_balance
    }
}

/// The wallet facade: the indexed store, the configuration, and the scan
/// orchestration — including the reorg/rewind policy — on top of them.
pub struct ZcashWalletd {
    pub db: Db,
    pub config: WalletConfig,
}

impl ZcashWalletd {
    /// Builds a wallet from its configuration, the decoded viewing key and
    /// the hash of the block at the configured birth height, seeds the
    /// block table with that hash, and creates the default account with an
    /// empty label. Fails exactly when the key yields no representable
    /// receiving address at all.
    pub fn create(config: WalletConfig, key: ViewingKey, birth_hash: Vec<u8>) -> (r: Result<
        ZcashWalletd,
        WalletError,
    >)
        ensures
            match r {
                Ok(w) => {
                    let found = found_address_of(key.encoding_spec(), 0);
                    &&& w.db.wf()
                    &&& w.config == config
                    &&& w.db.key == key
                    &&& found is Some
                    &&& w.db@.birth_height == config.birth_height
                    &&& w.db@.synced_height == config.birth_height
                    &&& w.db@.blocks.len() == 1
                    &&& w.db@.blocks[0].hash == birth_hash@
                    &&& w.db@.notes.len() == 0
                    &&& w.db@.transfers.len() == 0
                    &&& w.db@.accounts.len() == 1
                    &&& w.db@.accounts[0].label == Seq::<char>::empty()
                    &&& w.db@.addrs.len() == 1
                    &&& w.db@.addrs[0].account_index == 0
                    &&& w.db@.addrs[0].sub_account_index == 0
                    &&& w.db@.addrs[0].address == found->0.encoded
                },
                Err(e) => e == WalletError::AddressGeneration && (found_address_of(
                    key.encoding_spec(),
                    0,
                ) is None || found_address_of(key.encoding_spec(), 0)->0.index == u64::MAX),
            },
    {
        let mut db = Db::new(key, config.birth_height, birth_hash);
        match db.new_account("") {
            Ok(_) => {
                proof {
                    reveal_strlit("");
                    assert(""@ =~= Seq::<char>::empty());
                }
                Ok(ZcashWalletd { db, config })
            },
            Err(_) => Err(WalletError::AddressGeneration),
        }
    }

    /// Creates a new account: the next account index, persisted with the
    /// given label (empty when none) and a fresh receiving address that the
    /// response reports. Succeeds unless the account table is full or the
    /// key yields no further representable address; existing rows are
    /// never modified and accounts are never deleted.
    pub fn create_account(&mut self, label: Option<String>) -> (r: Result<
        CreateAccountResponse,
        WalletError,
    >)
        ensures
            match r {
                Ok(rep) => {
                    let found = found_address_of(
                        old(self).db.key.encoding_spec(),
                        old(self).db@.next_diversifier,
                    );
                    &&& found is Some
                    &&& rep.account_index as int == old(self).db@.accounts.len()
                    &&& rep.address@ == found->0.encoded
                    &&& final(self).db@.accounts == old(self).db@.accounts.push(
                        AccountRowModel { label: label_view(label) },
                    )
                    &&& final(self).db@.addrs == old(self).db@.addrs.push(
                        AddrRowModel {
                            account_index: rep.account_index,
                            sub_account_index: 0,
                            diversifier_index: found->0.index,
                            address: found->0.encoded,
                            sapling_receiver: found->0.sapling_receiver,
                            orchard_receiver: found->0.orchard_receiver,
                            label: label_view(label),
                        },
                    )
                    &&& final(self).db@ == (DbModel {
                        accounts: final(self).db@.accounts,
                        addrs: final(self).db@.addrs,
                        next_diversifier: (found->0.index + 1) as u64,
                        ..old(self).db@
                    })
                },
                Err(e) => {
                    let found = found_address_of(
                        old(self).db.key.encoding_spec(),
                        old(self).db@.next_diversifier,
                    );
                    &&& e == WalletError::AddressGeneration
                    &&& final(self).db@ == old(self).db@
                    &&& (old(self).db@.accounts.len() >= 0xffff_ffff || found is None
                        || found->0.index == u64::MAX)
                },
            },
            final(self).db.key == old(self).db.key,
            final(self).config == old(self).config,
            old(self).db.wf() ==> final(self).db.wf(),
    {
        let name = match label {
            Some(n) => n,
            None => String::new(),
        };
        match self.db.new_account(name.as_str()) {
            Ok((account_index, address)) => Ok(
                CreateAccountResponse { account_index, address },
            ),
            Err(e) => Err(e),
        }
    }

    /// Creates a new address under an existing account: persisted under
    /// exactly that account with a sub-account index strictly above every
    /// prior one — never reused — and the derived receiving address that
    /// the response reports. Fails with a not-found condition exactly when
    /// the account does not exist, and otherwise exactly when an index
    /// would overflow or the key yields no further representable address.
    pub fn create_address(&mut self, account_index: u32, label: Option<String>) -> (r: Result<
        CreateAddressResponse,
        WalletError,
    >)
        ensures
            account_index as int >= old(self).db@.accounts.len() ==> (r matches Err(e) && e
                == WalletError::NotFound),
            match r {
                Ok(rep) => {
                    let found = found_address_of(
                        old(self).db.key.encoding_spec(),
                        old(self).db@.next_diversifier,
                    );
                    &&& (account_index as int) < old(self).db@.accounts.len()
                    &&& found is Some
                    &&& rep.address@ == found->0.encoded
                    &&& rep.address_index as int == max_sub_index(
                        old(self).db@.addrs,
                        account_index,
                    ) + 1
                    &&& (forall|i: int|
                        0 <= i < old(self).db@.addrs.len() && (#[trigger] old(
                            self,
                        ).db@.addrs[i]).account_index == account_index ==> old(
                            self,
                        ).db@.addrs[i].sub_account_index < rep.address_index)
                    &&& final(self).db@.addrs == old(self).db@.addrs.push(
                        AddrRowModel {
                            account_index,
                            sub_account_index: rep.address_index,
                            diversifier_index: found->0.index,
                            address: found->0.encoded,
                            sapling_receiver: found->0.sapling_receiver,
                            orchard_receiver: found->0.orchard_receiver,
                            label: label_view(label),
                        },
                    )
                    &&& final(self).db@ == (DbModel {
                        addrs: final(self).db@.addrs,
                        next_diversifier: (found->0.index + 1) as u64,
                        ..old(self).db@
                    })
                },
                Err(e) => {
                    let found = found_address_of(
                        old(self).db.key.encoding_spec(),
                        old(self).db@.next_diversifier,
                    );
                    &&& final(self).db@ == old(self).db@
                    &&& (e == WalletError::NotFound <==> account_index as int >= old(
                        self,
                    ).db@.accounts.len())
                    &&& ((account_index as int) < old(self).db@.accounts.len() ==> (e
                        == WalletError::AddressGeneration && (max_sub_index(
                        old(self).db@.addrs,
                        account_index,
                    ) == u32::MAX || found is None || found->0.index == u64::MAX)))
                },
            },
            final(self).db.key == old(self).db.key,
            final(self).config == old(self).config,
            old(self).db.wf() ==> final(self).db.wf(),
    {
        let name = match label {
            Some(n) => n,
            None => String::new(),
        };
        match self.db.new_sub_account(account_index, name.as_str()) {
            Ok((address_index, address)) => Ok(CreateAddressResponse { address, address_index }),
            Err(e) => Err(e),
        }
    }

    /// Balances per account against the chain tip, with wallet-wide
    /// totals: one entry per persisted account, in order, each carrying
    /// the account's label, its base address and its exact balance sums.
    pub fn get_accounts(&self, latest_height: u32) -> (r: GetAccountsResponse)
        requires
            self.db@.accounts.len() <= u32::MAX,
        ensures
            r.subaddress_accounts@.len() == self.db@.accounts.len(),
            forall|a: int| 0 <= a < r.subaddress_accounts@.len() ==> {
                let m = (#[trigger] r.subaddress_accounts@[a])@;
                &&& m.account_index == a
                &&& m.balance as int == cap_u64(
                    balance_of(self.db@.notes, a as u32, latest_height),
                )
                &&& m.unlocked_balance as int == cap_u64(
                    unlocked_of(
                        self.db@.notes,
                        a as u32,
                        latest_height,
                        self.config.confirmations,
                    ),
                )
                &&& m.label == self.db@.accounts[a].label
                &&& m.tag == Seq::<char>::empty()
                &&& m.base_address == (if find_addr(self.db@.addrs, a as u32, 0) >= 0 {
                    self.db@.addrs[find_addr(self.db@.addrs, a as u32, 0)].address
                } else {
                    Seq::<char>::empty()
                })
            },
            r.total_balance as int == cap_u64(
                sum_balances(r.subaddress_accounts@.map_values(|b: AccountBalance| b@)),
            ),
            r.total_unlocked_balance as int == cap_u64(
                sum_unlocked(r.subaddress_accounts@.map_values(|b: AccountBalance| b@)),
            ),
    {
        let accounts = self.db.get_accounts(latest_height, self.config.confirmations);
        let ghost am = accounts@.map_values(|b: AccountBalance| b@);
        let mut total_balance: u64 = 0;
        let mut total_unlocked: u64 = 0;
        let mut i: usize = 0;
        proof {
            assert(am.take(0) =~= Seq::<crate::account::AccountBalanceModel>::empty());
        }
        while i < accounts.len()
            invariant
                i <= accounts.len(),
                am == accounts@.map_values(|b: AccountBalance| b@),
                am.len() == accounts@.len(),
                total_balance as int == cap_u64(sum_balances(am.take(i as int))),
                total_unlocked as int == cap_u64(sum_unlocked(am.take(i as int))),
            decreases accounts.len() - i,
        {
            proof {
                assert(am.take(i + 1 as int).drop_last() =~= am.take(i as int));
                assert(am.take(i + 1 as int).last() == am[i as int]);
                assert(am[i as int] == accounts@[i as int]@);
            }
            total_balance = sat_add(total_balance, accounts[i].balance);
            total_unlocked = sat_add(total_unlocked, accounts[i].unlocked_balance);
            i += 1;
        }
        proof {
            assert(am.take(am.len() as int) =~= am);
        }
        GetAccountsResponse {
            subaddress_accounts: accounts,
            total_balance,
            total_unlocked_balance: total_unlocked,
        }
    }

    /// Every known receiving address, with the sub-account it names.
    pub fn get_addresses(&self) -> (r: GetAddressesResponse)
        ensures
            r.addresses@.len() == self.db@.addrs.len(),
            forall|i: int| 0 <= i < r.addresses@.len() ==> (#[trigger] r.addresses@[i])@.account_index
                == self.db@.addrs[i].account_index && r.addresses@[i]@.sub_account_index
                == self.db@.addrs[i].sub_account_index && r.addresses@[i]@.address
                == self.db@.addrs[i].address,
    {
        GetAddressesResponse { addresses: self.db.get_addresses() }
    }

    /// The transfers tied to one transaction id for an account; the first
    /// match doubles as the headline transfer. Fails with a not-found
    /// condition exactly when nothing matches.
    pub fn get_transaction(&self, latest_height: u32, txid: &String, account_index: u32) -> (r:
        Result<GetTransactionByIdResponse, WalletError>)
        ensures
            ({
                let m = txid_transfers(
                    self.db@.transfers,
                    txid@,
                    account_index,
                    latest_height,
                    self.config.confirmations,
                );
                match r {
                    Ok(rep) => m.len() > 0 && rep.transfers@.map_values(|t: Transfer| t@) == m
                        && rep.transfer@ == m[0],
                    Err(e) => e == WalletError::NotFound && m.len() == 0,
                }
            }),
    {
        let transfers = self.db.get_transfers_by_txid(
            latest_height,
            txid,
            account_index,
            self.config.confirmations,
        )?;
        let first = copy_transfer(&transfers[0]);
        proof {
            assert(transfers@.map_values(|t: Transfer| t@)[0] == transfers@[0]@);
        }
        Ok(GetTransactionByIdResponse { transfer: first, transfers })
    }

    /// The incoming transfers of one account, optionally restricted to a
    /// set of sub-account indices. Fails with a not-found condition exactly
    /// when nothing matches.
    pub fn get_transfers(
        &self,
        latest_height: u32,
        account_index: u32,
        subaddr_indices: Vec<u32>,
    ) -> (r: Result<GetTransfersResponse, WalletError>)
        ensures
            ({
                let m = incoming_transfers(
                    self.db@.transfers,
                    account_index,
                    subaddr_indices@,
                    latest_height,
                    self.config.confirmations,
                );
                match r {
                    Ok(rep) => rep.incoming@.map_values(|t: Transfer| t@) == m && m.len() > 0,
                    Err(e) => e == WalletError::NotFound && m.len() == 0,
                }
            }),
    {
        let transfers = self.db.get_transfers(
            latest_height,
            account_index,
            &subaddr_indices,
            self.config.confirmations,
        )?;
        Ok(GetTransfersResponse { incoming: transfers })
    }

    /// The local synced height.
    pub fn get_wallet_height(&self) -> (r: GetHeightResponse)
        ensures
            r.height == self.db@.synced_height,
    {
        GetHeightResponse { height: self.db.get_synced_height() }
    }

    /// One scan attempt over the compact blocks fetched for the range just
    /// above the synced height. On success the events are applied and the
    /// watermark advances; a hash-chain continuity failure is recovered
    /// locally — the store is rewound a safe distance and the call still
    /// succeeds; malformed block data fails the call and leaves the store
    /// untouched.
    pub fn apply_scan(&mut self, blocks: &Vec<chain::CompactBlock>) -> (r: Result<
        (),
        WalletError,
    >)
        requires
            old(self).db.wf(),
            old(self).db@.synced_height < u32::MAX,
            blocks@.len() <= 0xffff_ffff as int,
        ensures
            final(self).db.wf(),
            final(self).db.key == old(self).db.key,
            final(self).config == old(self).config,
            ({
                let db0 = old(self).db@;
                let st0 = ScanState {
                    sap: unspent_nfs_for(db0.notes, Pool::Sapling),
                    orc: unspent_nfs_for(db0.notes, Pool::Orchard),
                    prev_hash: db0.blocks[db0.synced_height - db0.birth_height].hash,
                };
                match scan_blocks(
                    old(self).db.key.encoding_spec(),
                    st0,
                    blocks@,
                    db0.synced_height + 1,
                ) {
                    ScanModel::Good { st, events } => r is Ok && final(self).db@ == apply_events(
                        db0,
                        events,
                    ),
                    ScanModel::Reorg => r is Ok && final(self).db@ == truncate_model(
                        db0,
                        (if db0.synced_height >= SAFE_REORG_DISTANCE {
                            (db0.synced_height - SAFE_REORG_DISTANCE) as u32
                        } else {
                            0u32
                        }),
                    ),
                    ScanModel::Malformed => (r matches Err(e) && e == WalletError::Scan) && final(self).db@ == db0,
                }
            }),
    {
        let ghost db0 = self.db@;
        let start_height = self.db.get_synced_height() + 1;
        let prev_hash = match self.db.get_block_hash(start_height - 1) {
            Some(h) => h,
            None => {
                proof {
                    assert(false);
                }
                unreached()
            },
        };
        let mut sap = Decoder::new(Pool::Sapling, self.db.get_nfs_for(Pool::Sapling));
        let mut orc = Decoder::new(Pool::Orchard, self.db.get_nfs_for(Pool::Orchard));
        let res = scan(&self.db.key, blocks, start_height, &prev_hash, &mut sap, &mut orc);
        proof {
            assert(prev_hash@ == db0.blocks[db0.synced_height - db0.birth_height].hash);
        }
        match res {
            Ok(events) => {
                proof {
                    crate::scan::lemma_scan_good_shape(
                        self.db.key.encoding_spec(),
                        ScanState {
                            sap: unspent_nfs_for(db0.notes, Pool::Sapling),
                            orc: unspent_nfs_for(db0.notes, Pool::Orchard),
                            prev_hash: db0.blocks[db0.synced_height - db0.birth_height].hash,
                        },
                        blocks@,
                        db0.synced_height + 1,
                    );
                }
                self.db.store_events(&events);
                Ok(())
            },
            Err(ScanError::Reorganization) => {
                let synced = self.db.get_synced_height();
                let target = if synced >= SAFE_REORG_DISTANCE {
                    synced - SAFE_REORG_DISTANCE
                } else {
                    0
                };
                self.db.truncate_height(target);
                Ok(())
            },
            Err(ScanError::Other) => Err(WalletError::Scan),
        }
    }
}

/// A fresh copy of a transfer record.
pub fn copy_transfer(t: &Transfer) -> (r: Transfer)
    ensures
        r@ == t@,
{
    Transfer {
        address: chain::copy_string(&t.address),
        amount: t.amount,
        confirmations: t.confirmations,
        height: t.height,
        fee: t.fee,
        note: chain::copy_string(&t.note),
        payment_id: chain::copy_string(&t.payment_id),
        subaddr_index: t.subaddr_index,
        suggested_confirmations_threshold: t.suggested_confirmations_threshold,
        timestamp: t.timestamp,
        txid: chain::copy_string(&t.txid),
        transfer_type: chain::copy_string(&t.transfer_type),
        unlock_time: t.unlock_time,
    }
}

/// Fee charged per logical action by the fixed heuristic.
pub const LOGICAL_ACTION_FEE: u64 = 5000u64;

pub struct GetFeeEstimateResponse {
    pub fee: u64,
}

/// Fixed fee heuristic: four logical actions at the per-action fee.
pub fn get_fee_estimate() -> (r: GetFeeEstimateResponse)
    ensures
        r.fee == 4 * LOGICAL_ACTION_FEE,
{
    GetFeeEstimateResponse { fee: 4 * LOGICAL_ACTION_FEE }
}

} // verus!
