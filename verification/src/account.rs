//! Accounts and sub-accounts as served to callers.

use vstd::prelude::*;

verus! {

/// One receiving address, named by its account and its index within it.
pub struct SubAccount {
    pub account_index: u32,
    pub sub_account_index: u32,
    pub address: String,
}

/// Spec-level image of a [`SubAccount`].
pub struct SubAccountModel {
    pub account_index: u32,
    pub sub_account_index: u32,
    pub address: Seq<char>,
}

impl View for SubAccount {
    type V = SubAccountModel;

    open spec fn view(&self) -> SubAccountModel {
        SubAccountModel {
            account_index: self.account_index,
            sub_account_index: self.sub_account_index,
            address: self.address@,
        }
    }
}

/// One account's balances as computed against a chain tip.
pub struct AccountBalance {
    pub account_index: u32,
    pub balance: u64,
    pub base_address: String,
    pub label: String,
    pub tag: String,
    pub unlocked_balance: u64,
}

/// Spec-level image of an [`AccountBalance`].
pub struct AccountBalanceModel {
    pub account_index: u32,
    pub balance: u64,
    pub base_address: Seq<char>,
    pub label: Seq<char>,
    pub tag: Seq<char>,
    pub unlocked_balance: u64,
}

impl View for AccountBalance {
    type V = AccountBalanceModel;

    open spec fn view(&self) -> AccountBalanceModel {
        AccountBalanceModel {
            account_index: self.account_index,
            balance: self.balance,
            base_address: self.base_address@,
            label: self.label@,
            tag: self.tag@,
            unlocked_balance: self.unlocked_balance,
        }
    }
}

} // verus!
