use zcash_walletd::chain::{to_hex, txid_to_hex};
use zcash_walletd::keys::ViewingKey;
use zcash_walletd::transaction::compute_confirmations;
use zcash_walletd::{get_fee_estimate, Network, WalletConfig, WalletError, ZcashWalletd};

use zcash_client_backend::keys::UnifiedSpendingKey;
use zcash_protocol::consensus;
use zip32::AccountId;

fn test_wallet() -> ZcashWalletd {
    let seed = [11u8; 32];
    let usk = UnifiedSpendingKey::from_seed(
        &consensus::Network::MainNetwork,
        &seed,
        AccountId::ZERO,
    )
    .unwrap();
    let ufvk = usk.to_unified_full_viewing_key();
    let encoding = ufvk.encode(&consensus::Network::MainNetwork);
    let key = ViewingKey::decode(Network::Main, &encoding).unwrap();
    let config = WalletConfig {
        port: None,
        db_path: "wallet.db".to_string(),
        confirmations: 10,
        lwd_url: String::new(),
        notify_tx_url: String::new(),
        poll_interval: 30,
        regtest: false,
        orchard: true,
        vk: key.encoding().clone(),
        birth_height: 1000,
    };
    ZcashWalletd::create(config, key, vec![0u8; 32]).unwrap()
}

#[test]
fn fee_estimate_is_four_logical_actions() {
    assert_eq!(get_fee_estimate().fee, 20000);
}

#[test]
fn network_follows_the_regtest_flag() {
    let mut wallet = test_wallet();
    assert_eq!(wallet.config.network(), Network::Main);
    wallet.config.regtest = true;
    assert_eq!(wallet.config.network(), Network::Regtest);
}

#[test]
fn hex_encoding_is_lower_case_two_digits_per_byte() {
    assert_eq!(to_hex(&Vec::new()), "");
    assert_eq!(to_hex(&vec![0x0f, 0xa0, 0x00, 0xff]), "0fa000ff");
    // txids display with their bytes reversed
    assert_eq!(txid_to_hex(&vec![0x01, 0x02, 0xab]), "ab0201");
}

#[test]
fn confirmations_formula() {
    assert_eq!(compute_confirmations(1010, 1005), 6);
    assert_eq!(compute_confirmations(1005, 1005), 1);
    assert_eq!(compute_confirmations(1004, 1005), 0);
    assert_eq!(compute_confirmations(u32::MAX, 0), u32::MAX);
}

#[test]
fn invalid_viewing_key_is_rejected() {
    assert!(ViewingKey::decode(Network::Main, "not a key").is_none());
}

#[test]
fn accounts_and_addresses_are_assigned_in_order() {
    let mut wallet = test_wallet();
    // The default account exists from the start.
    assert_eq!(wallet.db.accounts.len(), 1);

    let a1 = wallet.create_account(Some("savings".to_string())).unwrap();
    assert_eq!(a1.account_index, 1);
    assert!(!a1.address.is_empty());

    let s1 = wallet.create_address(1, None).unwrap();
    assert_eq!(s1.address_index, 1);
    let s2 = wallet.create_address(1, Some("change".to_string())).unwrap();
    assert_eq!(s2.address_index, 2);
    assert_ne!(s1.address, s2.address);
    assert_ne!(a1.address, s1.address);

    let rep = wallet.get_addresses();
    assert_eq!(rep.addresses.len(), 4);
    assert_eq!(rep.addresses[0].account_index, 0);
    assert_eq!(rep.addresses[0].sub_account_index, 0);
    assert_eq!(rep.addresses[2].account_index, 1);
    assert_eq!(rep.addresses[2].sub_account_index, 1);

    assert_eq!(wallet.create_address(7, None).err(), Some(WalletError::NotFound));
}

#[test]
fn empty_wallet_reports_empty_balances_and_no_transfers() {
    let wallet = test_wallet();
    let rep = wallet.get_accounts(1000);
    assert_eq!(rep.subaddress_accounts.len(), 1);
    assert_eq!(rep.subaddress_accounts[0].balance, 0);
    assert_eq!(rep.subaddress_accounts[0].unlocked_balance, 0);
    assert_eq!(rep.total_balance, 0);
    assert!(!rep.subaddress_accounts[0].base_address.is_empty());

    assert_eq!(
        wallet.get_transfers(1000, 0, Vec::new()).err(),
        Some(WalletError::NotFound)
    );
    assert_eq!(
        wallet
            .get_transaction(1000, &"00".repeat(32), 0)
            .err()
            .map(|_| ()),
        Some(())
    );
}

#[test]
fn wallet_height_starts_at_birth() {
    let wallet = test_wallet();
    assert_eq!(wallet.get_wallet_height().height, 1000);
    assert_eq!(wallet.db.get_block_hash(1000), Some(vec![0u8; 32]));
    assert_eq!(wallet.db.get_block_hash(1001), None);
    assert_eq!(wallet.db.get_block_hash(999), None);
}
