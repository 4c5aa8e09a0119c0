//! Compact-block data model.
//!
//! A compact block carries only what wallet scanning needs: the block's own
//! hash, its parent's hash, and for every transaction the shielded outputs
//! (ciphertext and ephemeral key material) and the spend nullifier fields.
//! The host process converts the remote service's wire format into these
//! plain values before handing them to the scanner.

use vstd::prelude::*;

verus! {

/// A shielded output of the first pool kind: note commitment, ephemeral key
/// and the compact part of the note ciphertext.
pub struct CompactOutput {
    pub cmu: Vec<u8>,
    pub epk: Vec<u8>,
    pub ciphertext: Vec<u8>,
}

/// A spend of the first pool kind: the revealed nullifier.
pub struct CompactSpend {
    pub nf: Vec<u8>,
}

/// An action of the second pool kind. It both reveals a nullifier (a spend)
/// and creates a note (an output); the revealed nullifier doubles as the
/// nonce from which the new note is derived.
pub struct CompactAction {
    pub nf: Vec<u8>,
    pub cmx: Vec<u8>,
    pub epk: Vec<u8>,
    pub ciphertext: Vec<u8>,
}

/// A transaction, reduced to its shielded parts, with the fee it paid.
pub struct CompactTx {
    pub txid: Vec<u8>,
    pub fee: u32,
    pub spends: Vec<CompactSpend>,
    pub outputs: Vec<CompactOutput>,
    pub actions: Vec<CompactAction>,
}

/// A block, reduced to what scanning needs. `sapling_tree_size` is the size
/// of the first pool's note commitment tree after this block; it anchors the
/// commitment-tree position of every output in the block.
pub struct CompactBlock {
    pub height: u32,
    pub hash: Vec<u8>,
    pub prev_hash: Vec<u8>,
    pub time: u32,
    pub sapling_tree_size: u64,
    pub vtx: Vec<CompactTx>,
}

/// Number of first-pool outputs in the transactions `vtx`.
pub open spec fn count_outputs(vtx: Seq<CompactTx>) -> int
    decreases vtx.len(),
{
    if vtx.len() == 0 {
        0
    } else {
        count_outputs(vtx.drop_last()) + vtx.last().outputs@.len()
    }
}

pub proof fn lemma_count_outputs_nonneg(vtx: Seq<CompactTx>)
    ensures
        count_outputs(vtx) >= 0,
    decreases vtx.len(),
{
    if vtx.len() > 0 {
        lemma_count_outputs_nonneg(vtx.drop_last());
    }
}

/// Relies on `String::push` from the standard library: appends one
/// character to the end of the string.
pub assume_specification[ String::push ](s: &mut String, c: char)
    ensures
        final(s)@ == old(s)@.push(c),
;

/// The lower-case hex digit for a value below sixteen.
pub open spec fn hex_digit(n: u8) -> char
    recommends
        n < 16,
{
    if n < 10 {
        ((n + 48) as char)
    } else {
        ((n + 87) as char)
    }
}

/// Lower-case hex encoding, two digits per byte, high nibble first.
pub open spec fn hex_of(b: Seq<u8>) -> Seq<char>
    decreases b.len(),
{
    if b.len() == 0 {
        Seq::empty()
    } else {
        hex_of(b.drop_last()).push(hex_digit(b.last() / 16)).push(hex_digit(b.last() % 16))
    }
}

/// The display form of a transaction id: its bytes reversed, hex encoded.
pub open spec fn txid_hex_of(txid: Seq<u8>) -> Seq<char> {
    hex_of(txid.reverse())
}

/// Hex encoding of a buffer.
pub fn to_hex(b: &Vec<u8>) -> (r: String)
    ensures
        r@ == hex_of(b@),
{
    let mut r = String::new();
    let mut i: usize = 0;
    while i < b.len()
        invariant
            i <= b.len(),
            r@ == hex_of(b@.take(i as int)),
        decreases b.len() - i,
    {
        let byte = b[i];
        let hi = byte / 16;
        let lo = byte % 16;
        let hc = if hi < 10 {
            (hi + 48) as char
        } else {
            (hi + 87) as char
        };
        let lc = if lo < 10 {
            (lo + 48) as char
        } else {
            (lo + 87) as char
        };
        r.push(hc);
        r.push(lc);
        proof {
            assert(b@.take(i + 1 as int).drop_last() =~= b@.take(i as int));
            assert(b@.take(i + 1 as int).last() == b@[i as int]);
        }
        i += 1;
    }
    proof {
        assert(b@.take(b@.len() as int) =~= b@);
    }
    r
}

/// The display form of a transaction id: bytes reversed, hex encoded.
pub fn txid_to_hex(txid: &Vec<u8>) -> (r: String)
    ensures
        r@ == txid_hex_of(txid@),
{
    let mut rev: Vec<u8> = Vec::new();
    let mut i: usize = txid.len();
    while i > 0
        invariant
            i <= txid.len(),
            rev@ == txid@.skip(i as int).reverse(),
        decreases i,
    {
        i -= 1;
        rev.push(txid[i]);
        proof {
            assert(txid@.skip(i as int).reverse() =~= txid@.skip(i + 1 as int).reverse().push(
                txid@[i as int],
            ));
        }
    }
    proof {
        assert(txid@.skip(0) =~= txid@);
    }
    to_hex(&rev)
}

/// A fresh copy of a string.
pub fn copy_string(s: &String) -> (r: String)
    ensures
        r@ == s@,
{
    s.clone()
}

/// Byte-wise equality of two buffers.
pub fn bytes_eq(a: &Vec<u8>, b: &Vec<u8>) -> (r: bool)
    ensures
        r == (a@ == b@),
{
    if a.len() != b.len() {
        assert(a@ != b@);
        return false;
    }
    let mut i: usize = 0;
    while i < a.len()
        invariant
            i <= a.len(),
            a.len() == b.len(),
            forall|j: int| 0 <= j < i ==> a@[j] == b@[j],
        decreases a.len() - i,
    {
        if a[i] != b[i] {
            assert(a@ != b@);
            return false;
        }
        i += 1;
    }
    assert(a@ =~= b@);
    true
}

} // verus!
