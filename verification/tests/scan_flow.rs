use zcash_walletd::chain::{CompactBlock, CompactOutput, CompactSpend, CompactTx};
use zcash_walletd::keys::ViewingKey;
use zcash_walletd::{Network, WalletConfig, ZcashWalletd};

use sapling_crypto::note::{ExtractedNoteCommitment, Rseed};
use sapling_crypto::note_encryption::{sapling_note_encryption, SaplingDomain};
use sapling_crypto::value::NoteValue;
use sapling_crypto::{Note, Nullifier, PaymentAddress};
use zcash_client_backend::keys::UnifiedSpendingKey;
use zcash_note_encryption::Domain;
use zcash_protocol::consensus;
use zip32::AccountId;

struct FixedRng(u64);

impl rand_core::RngCore for FixedRng {
    fn next_u32(&mut self) -> u32 {
        self.0 = self.0.wrapping_mul(6364136223846793005).wrapping_add(1442695040888963407);
        (self.0 >> 32) as u32
    }

    fn next_u64(&mut self) -> u64 {
        ((self.next_u32() as u64) << 32) | self.next_u32() as u64
    }

    fn fill_bytes(&mut self, dest: &mut [u8]) {
        for b in dest.iter_mut() {
            *b = self.next_u32() as u8;
        }
    }

    fn try_fill_bytes(&mut self, dest: &mut [u8]) -> Result<(), rand_core::Error> {
        self.fill_bytes(dest);
        Ok(())
    }
}

fn test_config(birth_height: u32, vk: String) -> WalletConfig {
    WalletConfig {
        port: None,
        db_path: "wallet.db".to_string(),
        confirmations: 1,
        lwd_url: String::new(),
        notify_tx_url: String::new(),
        poll_interval: 30,
        regtest: false,
        orchard: true,
        vk,
        birth_height,
    }
}

fn test_wallet(birth_height: u32) -> ZcashWalletd {
    let seed = [11u8; 32];
    let usk = UnifiedSpendingKey::from_seed(
        &consensus::Network::MainNetwork,
        &seed,
        AccountId::ZERO,
    )
    .unwrap();
    let ufvk = usk.to_unified_full_viewing_key();
    let encoding = ufvk.encode(&consensus::Network::MainNetwork);
    let key = ViewingKey::decode(Network::Main, &encoding).unwrap();
    let config = test_config(birth_height, encoding);
    ZcashWalletd::create(config, key, block_hash(birth_height)).unwrap()
}

fn block_hash(height: u32) -> Vec<u8> {
    let mut h = vec![0u8; 32];
    h[0] = (height & 0xff) as u8;
    h[1] = ((height >> 8) & 0xff) as u8;
    h[2] = ((height >> 16) & 0xff) as u8;
    h[3] = ((height >> 24) & 0xff) as u8;
    h
}

fn empty_block(height: u32, sapling_tree_size: u64) -> CompactBlock {
    CompactBlock {
        height,
        hash: block_hash(height),
        prev_hash: block_hash(height - 1),
        time: height,
        sapling_tree_size,
        vtx: Vec::new(),
    }
}

/// A compact output encrypting a note of `value` to the wallet's first
/// receiving address.
fn output_to_wallet(wallet: &ZcashWalletd, value: u64) -> CompactOutput {
    let receiver: [u8; 43] = wallet.db.addrs[0]
        .sapling_receiver
        .as_slice()
        .try_into()
        .expect("first address has a sapling receiver");
    let recipient = PaymentAddress::from_bytes(&receiver).unwrap();
    let note = Note::from_parts(recipient, NoteValue::from_raw(value), Rseed::AfterZip212([7u8; 32]));
    let cmu: ExtractedNoteCommitment = note.cmu();
    let mut rng = FixedRng(99);
    let enc = sapling_note_encryption(None, note, [0u8; 512], &mut rng);
    let epk = SaplingDomain::epk_bytes(enc.epk());
    let ciphertext = enc.encrypt_note_plaintext()[..52].to_vec();
    CompactOutput { cmu: cmu.to_bytes().to_vec(), epk: epk.0.to_vec(), ciphertext }
}

/// Blocks for heights 1001..=1010 with one note of value 50000 paid to the
/// wallet at height 1005.
fn discovery_range(wallet: &ZcashWalletd) -> Vec<CompactBlock> {
    let mut blocks = Vec::new();
    for h in 1001u32..=1010 {
        let mut b = empty_block(h, if h >= 1005 { 1 } else { 0 });
        if h == 1005 {
            b.vtx.push(CompactTx {
                txid: vec![0xaa; 32],
                fee: 0,
                spends: Vec::new(),
                outputs: vec![output_to_wallet(wallet, 50000)],
                actions: Vec::new(),
            });
        }
        blocks.push(b);
    }
    blocks
}

#[test]
fn discovers_note_and_reports_balance() {
    let mut wallet = test_wallet(1000);
    let blocks = discovery_range(&wallet);
    wallet.apply_scan(&blocks).unwrap();

    assert_eq!(wallet.get_wallet_height().height, 1010);
    assert_eq!(wallet.db.notes.len(), 1);
    assert_eq!(wallet.db.notes[0].value, 50000);
    assert_eq!(wallet.db.notes[0].height, 1005);
    assert_eq!(wallet.db.notes[0].account_index, 0);
    assert_eq!(wallet.db.notes[0].sub_account_index, 0);
    assert_eq!(wallet.db.notes[0].nf.len(), 32);

    let rep = wallet.get_accounts(1010);
    assert_eq!(rep.subaddress_accounts.len(), 1);
    assert_eq!(rep.subaddress_accounts[0].balance, 50000);
    assert_eq!(rep.subaddress_accounts[0].unlocked_balance, 50000);
    assert_eq!(rep.total_balance, 50000);
    assert_eq!(rep.total_unlocked_balance, 50000);
}

#[test]
fn spend_zeroes_the_balance() {
    let mut wallet = test_wallet(1000);
    let blocks = discovery_range(&wallet);
    wallet.apply_scan(&blocks).unwrap();
    let nf = wallet.db.notes[0].nf.clone();
    assert_eq!(nf, Nullifier(nf.as_slice().try_into().unwrap()).0.to_vec());

    let mut blocks2 = Vec::new();
    for h in 1011u32..=1020 {
        let mut b = empty_block(h, 1);
        if h == 1020 {
            b.vtx.push(CompactTx {
                txid: vec![0xbb; 32],
                fee: 10000,
                spends: vec![CompactSpend { nf: nf.clone() }],
                outputs: Vec::new(),
                actions: Vec::new(),
            });
        }
        blocks2.push(b);
    }
    wallet.apply_scan(&blocks2).unwrap();

    assert_eq!(wallet.get_wallet_height().height, 1020);
    assert_eq!(wallet.db.notes[0].spent_height, Some(1020));
    let rep = wallet.get_accounts(1020);
    assert_eq!(rep.subaddress_accounts[0].balance, 0);
    assert_eq!(rep.total_balance, 0);

    // The spend produced an outgoing transfer record.
    assert_eq!(wallet.db.transfers.len(), 2);
    assert!(wallet.db.transfers[0].incoming);
    assert!(!wallet.db.transfers[1].incoming);
    assert_eq!(wallet.db.transfers[1].amount, 50000);
    // The outgoing transfer carries the spending transaction's fee; the
    // incoming one carries none.
    assert_eq!(wallet.db.transfers[1].fee, 10000);
    assert_eq!(wallet.db.transfers[0].fee, 0);
}

#[test]
fn rewind_and_rescan_reproduces_the_same_rows() {
    let mut wallet = test_wallet(1000);
    let blocks = discovery_range(&wallet);
    wallet.apply_scan(&blocks).unwrap();
    let note_nf = wallet.db.notes[0].nf.clone();
    let transfer_txid = wallet.db.transfers[0].txid_hex.clone();

    wallet.db.truncate_height(1003);
    assert_eq!(wallet.get_wallet_height().height, 1003);
    assert_eq!(wallet.db.notes.len(), 0);
    assert_eq!(wallet.db.transfers.len(), 0);
    assert_eq!(wallet.db.blocks.len(), 4);

    let rest: Vec<CompactBlock> = discovery_range(&wallet)
        .into_iter()
        .filter(|b| b.height > 1003)
        .collect();
    wallet.apply_scan(&rest).unwrap();

    assert_eq!(wallet.get_wallet_height().height, 1010);
    assert_eq!(wallet.db.notes.len(), 1);
    assert_eq!(wallet.db.notes[0].value, 50000);
    assert_eq!(wallet.db.notes[0].height, 1005);
    assert_eq!(wallet.db.notes[0].nf, note_nf);
    assert_eq!(wallet.db.notes[0].spent_height, None);
    assert_eq!(wallet.db.transfers.len(), 1);
    assert_eq!(wallet.db.transfers[0].txid_hex, transfer_txid);
}

#[test]
fn transfers_are_served_with_confirmations() {
    let mut wallet = test_wallet(1000);
    let blocks = discovery_range(&wallet);
    wallet.apply_scan(&blocks).unwrap();

    let rep = wallet.get_transfers(1010, 0, Vec::new()).unwrap();
    assert_eq!(rep.incoming.len(), 1);
    let t = &rep.incoming[0];
    assert_eq!(t.amount, 50000);
    assert_eq!(t.height, 1005);
    assert_eq!(t.confirmations, 6);
    assert_eq!(t.transfer_type, "in");
    assert_eq!(t.subaddr_index.major, 0);
    assert_eq!(t.subaddr_index.minor, 0);
    // txid displayed in little-endian hex
    assert_eq!(t.txid, "aa".repeat(32));

    // One more block on the chain: exactly one more confirmation.
    let rep2 = wallet.get_transfers(1011, 0, Vec::new()).unwrap();
    assert_eq!(rep2.incoming[0].confirmations, 7);

    let by_txid = wallet.get_transaction(1010, &"aa".repeat(32), 0).unwrap();
    assert_eq!(by_txid.transfer.amount, 50000);
    assert_eq!(by_txid.transfers.len(), 1);

    assert!(wallet.get_transaction(1010, &"cc".repeat(32), 0).is_err());
}

#[test]
fn persisted_nullifier_set_tracks_unspent_notes() {
    let mut wallet = test_wallet(1000);
    let blocks = discovery_range(&wallet);
    wallet.apply_scan(&blocks).unwrap();
    let nfs = wallet.db.get_nfs();
    assert_eq!(nfs.len(), 1);
    assert_eq!(nfs[0], wallet.db.notes[0].nf);
    assert_eq!(wallet.db.get_nfs_for(zcash_walletd::decoder::Pool::Sapling).len(), 1);
    assert_eq!(wallet.db.get_nfs_for(zcash_walletd::decoder::Pool::Orchard).len(), 0);

    let mut b = empty_block(1011, 1);
    b.vtx.push(CompactTx {
        txid: vec![0xcc; 32],
        fee: 0,
        spends: vec![CompactSpend { nf: nfs[0].clone() }],
        outputs: Vec::new(),
        actions: Vec::new(),
    });
    wallet.apply_scan(&vec![b]).unwrap();
    assert_eq!(wallet.db.get_nfs().len(), 0);
}

#[test]
fn discovers_an_orchard_note_and_its_spend() {
    let mut wallet = test_wallet(1000);

    let receiver: [u8; 43] = wallet.db.addrs[0]
        .orchard_receiver
        .as_slice()
        .try_into()
        .expect("first address has an orchard receiver");
    let addr = Option::from(orchard::Address::from_raw_address_bytes(&receiver)).unwrap();
    let rho = Option::from(orchard::note::Rho::from_bytes(&[0u8; 32])).unwrap();
    let rseed = Option::from(orchard::note::RandomSeed::from_bytes([7u8; 32], &rho)).unwrap();
    let note: orchard::Note = Option::from(orchard::Note::from_parts(
        addr,
        orchard::value::NoteValue::from_raw(777),
        rho,
        rseed,
        orchard::note::NoteVersion::V2,
    ))
    .unwrap();
    let cmx = orchard::note::ExtractedNoteCommitment::from(note.commitment());
    let enc = zcash_note_encryption::NoteEncryption::<
        orchard::note_encryption::OrchardDomain,
    >::new(None, note, [0u8; 512]);
    let epk = orchard::note_encryption::OrchardDomain::epk_bytes(enc.epk());
    let ciphertext = enc.encrypt_note_plaintext()[..52].to_vec();

    let mut b = empty_block(1001, 0);
    b.vtx.push(CompactTx {
        txid: vec![0xdd; 32],
        fee: 0,
        spends: Vec::new(),
        outputs: Vec::new(),
        actions: vec![zcash_walletd::chain::CompactAction {
            nf: vec![0u8; 32],
            cmx: cmx.to_bytes().to_vec(),
            epk: epk.0.to_vec(),
            ciphertext,
        }],
    });
    wallet.apply_scan(&vec![b]).unwrap();

    assert_eq!(wallet.db.notes.len(), 1);
    assert_eq!(wallet.db.notes[0].value, 777);
    let rep = wallet.get_accounts(1001);
    assert_eq!(rep.subaddress_accounts[0].balance, 777);

    // Spending the note through a later action's revealed nullifier.
    let nf = wallet.db.notes[0].nf.clone();
    let mut b2 = empty_block(1002, 0);
    b2.vtx.push(CompactTx {
        txid: vec![0xde; 32],
        fee: 0,
        spends: Vec::new(),
        outputs: Vec::new(),
        actions: vec![zcash_walletd::chain::CompactAction {
            nf,
            cmx: vec![1u8; 32],
            epk: vec![2u8; 32],
            ciphertext: vec![0u8; 52],
        }],
    });
    wallet.apply_scan(&vec![b2]).unwrap();
    assert_eq!(wallet.db.notes[0].spent_height, Some(1002));
    assert_eq!(wallet.get_accounts(1002).subaddress_accounts[0].balance, 0);
}
