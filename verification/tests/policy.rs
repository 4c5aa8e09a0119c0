use zcash_walletd::chain::{CompactBlock, CompactSpend, CompactTx};
use zcash_walletd::decoder::{Decoder, Pool};
use zcash_walletd::keys::ViewingKey;
use zcash_walletd::scan::{scan, ScanError};
use zcash_walletd::{Network, WalletConfig, ZcashWalletd};

use zcash_client_backend::keys::UnifiedSpendingKey;
use zcash_protocol::consensus;
use zip32::AccountId;

fn test_key() -> ViewingKey {
    let seed = [11u8; 32];
    let usk = UnifiedSpendingKey::from_seed(
        &consensus::Network::MainNetwork,
        &seed,
        AccountId::ZERO,
    )
    .unwrap();
    let ufvk = usk.to_unified_full_viewing_key();
    let encoding = ufvk.encode(&consensus::Network::MainNetwork);
    ViewingKey::decode(Network::Main, &encoding).unwrap()
}

fn test_wallet(birth_height: u32) -> ZcashWalletd {
    let key = test_key();
    let config = WalletConfig {
        port: None,
        db_path: "wallet.db".to_string(),
        confirmations: 1,
        lwd_url: String::new(),
        notify_tx_url: String::new(),
        poll_interval: 30,
        regtest: false,
        orchard: true,
        vk: key.encoding().clone(),
        birth_height,
    };
    ZcashWalletd::create(config, key, block_hash(birth_height)).unwrap()
}

fn block_hash(height: u32) -> Vec<u8> {
    let mut h = vec![0u8; 32];
    h[0] = (height & 0xff) as u8;
    h[1] = ((height >> 8) & 0xff) as u8;
    h[2] = ((height >> 16) & 0xff) as u8;
    h
}

fn empty_block(height: u32) -> CompactBlock {
    CompactBlock {
        height,
        hash: block_hash(height),
        prev_hash: block_hash(height - 1),
        time: height,
        sapling_tree_size: 0,
        vtx: Vec::new(),
    }
}

fn spend_block(height: u32, nf: Vec<u8>) -> CompactBlock {
    let mut b = empty_block(height);
    b.vtx.push(CompactTx {
        txid: vec![height as u8; 32],
        fee: 0,
        spends: vec![CompactSpend { nf }],
        outputs: Vec::new(),
        actions: Vec::new(),
    });
    b
}

#[test]
fn reorganization_rewinds_a_safe_distance() {
    let mut wallet = test_wallet(1000);
    let blocks: Vec<CompactBlock> = (1001u32..=1010).map(empty_block).collect();
    wallet.apply_scan(&blocks).unwrap();
    assert_eq!(wallet.get_wallet_height().height, 1010);

    // The next range breaks the hash chain at height 1015.
    let mut blocks2: Vec<CompactBlock> = (1011u32..=1020).map(empty_block).collect();
    blocks2[4].prev_hash = vec![0xee; 32];

    // The reorganization is recovered locally: the call succeeds and the
    // store rewinds to 1010 - 100, clamped to the birth height 1000.
    wallet.apply_scan(&blocks2).unwrap();
    assert_eq!(wallet.get_wallet_height().height, 1000);

    // The next attempt starts at 1001 again and succeeds.
    wallet.apply_scan(&blocks).unwrap();
    assert_eq!(wallet.get_wallet_height().height, 1010);
}

#[test]
fn continuity_failure_reports_reorganization_and_no_events() {
    let key = test_key();
    let mut blocks: Vec<CompactBlock> = (501u32..=505).map(empty_block).collect();
    blocks[2].prev_hash = vec![0xee; 32];

    let nf = vec![9u8; 32];
    let mut sap = Decoder::new(Pool::Sapling, vec![nf.clone()]);
    let mut orc = Decoder::new(Pool::Orchard, Vec::new());
    let r = scan(&key, &blocks, 501, &block_hash(500), &mut sap, &mut orc);
    assert!(matches!(r, Err(ScanError::Reorganization)));
}

#[test]
fn malformed_heights_are_not_a_reorganization() {
    let key = test_key();
    let mut blocks: Vec<CompactBlock> = (501u32..=505).map(empty_block).collect();
    blocks[3].height = 777;

    let mut sap = Decoder::new(Pool::Sapling, Vec::new());
    let mut orc = Decoder::new(Pool::Orchard, Vec::new());
    let r = scan(&key, &blocks, 501, &block_hash(500), &mut sap, &mut orc);
    assert!(matches!(r, Err(ScanError::Other)));
}

#[test]
fn range_split_yields_the_same_events() {
    let key = test_key();
    let nf1 = vec![1u8; 32];
    let nf2 = vec![2u8; 32];

    let mut blocks: Vec<CompactBlock> = (501u32..=508).map(empty_block).collect();
    blocks[1] = spend_block(502, nf1.clone());
    blocks[5] = spend_block(506, nf2.clone());

    // One scan over the whole range.
    let mut sap_a = Decoder::new(Pool::Sapling, vec![nf1.clone(), nf2.clone()]);
    let mut orc_a = Decoder::new(Pool::Orchard, Vec::new());
    let whole = scan(&key, &blocks, 501, &block_hash(500), &mut sap_a, &mut orc_a).unwrap();

    // The same range scanned as [501, 504] followed by [505, 508], from the
    // same decoder starting state.
    let mut sap_b = Decoder::new(Pool::Sapling, vec![nf1.clone(), nf2.clone()]);
    let mut orc_b = Decoder::new(Pool::Orchard, Vec::new());
    let first: Vec<CompactBlock> = blocks.iter().take(4).map(clone_block).collect();
    let second: Vec<CompactBlock> = blocks.iter().skip(4).map(clone_block).collect();
    let ev1 = scan(&key, &first, 501, &block_hash(500), &mut sap_b, &mut orc_b).unwrap();
    let ev2 = scan(&key, &second, 505, &block_hash(504), &mut sap_b, &mut orc_b).unwrap();

    let whole_spends: Vec<(u32, Vec<u8>)> = whole
        .blocks
        .iter()
        .flat_map(|b| b.spent.iter().map(|s| (s.height, s.nf.clone())))
        .collect();
    let split_spends: Vec<(u32, Vec<u8>)> = ev1
        .blocks
        .iter()
        .chain(ev2.blocks.iter())
        .flat_map(|b| b.spent.iter().map(|s| (s.height, s.nf.clone())))
        .collect();
    assert_eq!(whole_spends, vec![(502, nf1), (506, nf2)]);
    assert_eq!(whole_spends, split_spends);
    assert_eq!(whole.blocks.len(), 8);
    assert_eq!(ev1.blocks.len() + ev2.blocks.len(), 8);
    assert_eq!(sap_a.nfs.len(), 0);
    assert_eq!(sap_b.nfs.len(), 0);
}

fn clone_block(b: &CompactBlock) -> CompactBlock {
    CompactBlock {
        height: b.height,
        hash: b.hash.clone(),
        prev_hash: b.prev_hash.clone(),
        time: b.time,
        sapling_tree_size: b.sapling_tree_size,
        vtx: b
            .vtx
            .iter()
            .map(|tx| CompactTx {
                txid: tx.txid.clone(),
                fee: tx.fee,
                spends: tx.spends.iter().map(|s| CompactSpend { nf: s.nf.clone() }).collect(),
                outputs: Vec::new(),
                actions: Vec::new(),
            })
            .collect(),
    }
}

#[test]
fn empty_range_is_a_no_op() {
    let mut wallet = test_wallet(1000);
    let blocks: Vec<CompactBlock> = Vec::new();
    wallet.apply_scan(&blocks).unwrap();
    assert_eq!(wallet.get_wallet_height().height, 1000);
    assert_eq!(wallet.db.notes.len(), 0);
}

#[test]
fn malformed_blocks_fail_the_call_and_leave_the_store_untouched() {
    let mut wallet = test_wallet(1000);
    let mut blocks: Vec<CompactBlock> = (1001u32..=1005).map(empty_block).collect();
    blocks[2].height = 9999;
    assert!(wallet.apply_scan(&blocks).is_err());
    assert_eq!(wallet.get_wallet_height().height, 1000);
    assert_eq!(wallet.db.blocks.len(), 1);
}
