//! Queryable transfer records.
//!
//! A transfer is a denormalized record of one wallet-relevant event — a
//! note received or a note spent — as served to callers. Confirmations are
//! never stored; they are computed at query time against the chain tip.

use vstd::prelude::*;

verus! {

/// The major/minor pair naming a sub-account: the account index and the
/// address index within it.
#[derive(Clone, Copy, Debug, PartialEq, Eq, Structural)]
pub struct SubAddrIndex {
    pub major: u32,
    pub minor: u32,
}

/// One wallet-relevant event, shaped for the query surface.
pub struct Transfer {
    pub address: String,
    pub amount: u64,
    pub confirmations: u32,
    pub height: u32,
    pub fee: u64,
    pub note: String,
    pub payment_id: String,
    pub subaddr_index: SubAddrIndex,
    pub suggested_confirmations_threshold: u32,
    pub timestamp: u64,
    pub txid: String,
    pub transfer_type: String,
    pub unlock_time: u64,
}

/// Spec-level image of a [`Transfer`].
pub struct TransferModel {
    pub address: Seq<char>,
    pub amount: u64,
    pub confirmations: u32,
    pub height: u32,
    pub fee: u64,
    pub note: Seq<char>,
    pub payment_id: Seq<char>,
    pub subaddr_index: SubAddrIndex,
    pub suggested_confirmations_threshold: u32,
    pub timestamp: u64,
    pub txid: Seq<char>,
    pub transfer_type: Seq<char>,
    pub unlock_time: u64,
}

impl View for Transfer {
    type V = TransferModel;

    open spec fn view(&self) -> TransferModel {
        TransferModel {
            address: self.address@,
            amount: self.amount,
            confirmations: self.confirmations,
            height: self.height,
            fee: self.fee,
            note: self.note@,
            payment_id: self.payment_id@,
            subaddr_index: self.subaddr_index,
            suggested_confirmations_threshold: self.suggested_confirmations_threshold,
            timestamp: self.timestamp,
            txid: self.txid@,
            transfer_type: self.transfer_type@,
            unlock_time: self.unlock_time,
        }
    }
}

/// Confirmations of a record at height `height` when the chain tip stands at
/// `latest`: the inclusive number of blocks between them, and zero for a
/// record above the tip.
pub open spec fn confirmations_of(latest: u32, height: u32) -> int {
    if latest >= height {
        latest - height + 1
    } else {
        0
    }
}

/// Confirmations, computed exactly as [`confirmations_of`] says, saturating
/// at the type's maximum.
pub fn compute_confirmations(latest: u32, height: u32) -> (r: u32)
    ensures
        r as int == (if confirmations_of(latest, height) > u32::MAX {
            u32::MAX as int
        } else {
            confirmations_of(latest, height)
        }),
{
    if latest >= height {
        let d = latest - height;
        if d == u32::MAX {
            u32::MAX
        } else {
            d + 1
        }
    } else {
        0
    }
}

/// Confirmations grow in step with the chain tip: one more block on the
/// chain, with no other activity, is exactly one more confirmation.
pub proof fn lemma_confirmations_step(latest: u32, height: u32)
    requires
        latest >= height,
        latest < u32::MAX,
    ensures
        confirmations_of((latest + 1) as u32, height) == confirmations_of(latest, height) + 1,
{
}

} // verus!
