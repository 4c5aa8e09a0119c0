//! Viewing-key material and the trial-decryption primitives.
//!
//! The wallet holds a single unified full viewing key. Everything the scan
//! logic reads out of the key — trial-decryption results, derived nullifiers,
//! receiving addresses — crosses into the library as plain values through the
//! trusted wrappers below; the cryptography itself is done by the outside
//! crates and is deterministic in the key encoding and the input bytes, which
//! is what the named spec functions record.

use vstd::prelude::*;
use crate::Network;

use orchard::keys::PreparedIncomingViewingKey as OrchardPivk;
use orchard::note::ExtractedNoteCommitment as OrchardCmx;
use orchard::note::Nullifier as OrchardNullifier;
use orchard::note_encryption::CompactAction as OrchardCompactAction;
use orchard::note_encryption::OrchardDomain;
use sapling_crypto::keys::PreparedIncomingViewingKey as SaplingPivk;
use sapling_crypto::note::ExtractedNoteCommitment as SaplingCmu;
use sapling_crypto::note_encryption::{CompactOutputDescription, SaplingDomain, Zip212Enforcement};
use zcash_client_backend::keys::{UnifiedAddressRequest, UnifiedFullViewingKey};
use zcash_note_encryption::{try_compact_note_decryption, EphemeralKeyBytes};
use zcash_protocol::consensus;
use zip32::{DiversifierIndex, Scope};

verus! {

#[verifier::external_type_specification]
#[verifier::external_body]
pub struct ExUnifiedFullViewingKey(UnifiedFullViewingKey);

/// Relies on the standard library's `TryInto` for slices: exactly a
/// 32-byte buffer converts into a 32-byte array with the same contents.
#[verifier::external_body]
fn arr32(v: &Vec<u8>) -> (r: Option<[u8; 32]>)
    ensures
        match r {
            Some(a) => a@ == v@,
            None => v@.len() != 32,
        },
{
    v.as_slice().try_into().ok()
}

/// Relies on the standard library's `TryInto` for slices: exactly a
/// 52-byte buffer converts into a 52-byte array with the same contents.
#[verifier::external_body]
fn arr52(v: &Vec<u8>) -> (r: Option<[u8; 52]>)
    ensures
        match r {
            Some(a) => a@ == v@,
            None => v@.len() != 52,
        },
{
    v.as_slice().try_into().ok()
}

/// The plaintext fields of a successfully trial-decrypted shielded output:
/// the raw receiver the note was sent to, its value, and the nullifier that
/// will be revealed when the note is later spent.
pub struct DecryptedNote {
    pub address: Vec<u8>,
    pub value: u64,
    pub nf: Vec<u8>,
}

/// Spec-level image of a [`DecryptedNote`].
pub struct DecryptedNoteModel {
    pub address: Seq<u8>,
    pub value: u64,
    pub nf: Seq<u8>,
}

impl View for DecryptedNote {
    type V = DecryptedNoteModel;

    open spec fn view(&self) -> DecryptedNoteModel {
        DecryptedNoteModel { address: self.address@, value: self.value, nf: self.nf@ }
    }
}

pub open spec fn decrypt_view(r: Option<DecryptedNote>) -> Option<DecryptedNoteModel> {
    match r {
        Some(n) => Some(n@),
        None => None,
    }
}

/// A receiving address derived from the viewing key: its display encoding,
/// the raw per-pool receivers used to attribute discovered notes, and the
/// diversifier index it was found at.
pub struct WalletAddress {
    pub encoded: String,
    pub sapling_receiver: Vec<u8>,
    pub orchard_receiver: Vec<u8>,
    pub index: u64,
}

/// Spec-level image of a [`WalletAddress`].
pub struct WalletAddressModel {
    pub encoded: Seq<char>,
    pub sapling_receiver: Seq<u8>,
    pub orchard_receiver: Seq<u8>,
    pub index: u64,
}

impl View for WalletAddress {
    type V = WalletAddressModel;

    open spec fn view(&self) -> WalletAddressModel {
        WalletAddressModel {
            encoded: self.encoded@,
            sapling_receiver: self.sapling_receiver@,
            orchard_receiver: self.orchard_receiver@,
            index: self.index,
        }
    }
}

pub open spec fn address_view(r: Option<WalletAddress>) -> Option<WalletAddressModel> {
    match r {
        Some(a) => Some(a@),
        None => None,
    }
}

/// What trial decryption of a first-pool compact output yields under the key
/// with the given encoding, with the output standing at `position` in the
/// note commitment tree. `None` is a decryption miss.
pub uninterp spec fn sapling_scan_of(
    vk: Seq<char>,
    cmu: Seq<u8>,
    epk: Seq<u8>,
    ciphertext: Seq<u8>,
    position: u64,
) -> Option<DecryptedNoteModel>;

/// What trial decryption of a second-pool compact action yields under the key
/// with the given encoding. `None` is a decryption miss.
pub uninterp spec fn orchard_scan_of(
    vk: Seq<char>,
    nf: Seq<u8>,
    cmx: Seq<u8>,
    epk: Seq<u8>,
    ciphertext: Seq<u8>,
) -> Option<DecryptedNoteModel>;

/// The first receiving address at or after diversifier index `index` for the
/// key with the given encoding, or `None` when the search fails.
pub uninterp spec fn found_address_of(vk: Seq<char>, index: u64) -> Option<WalletAddressModel>;

/// The wallet's unified full viewing key, kept beside its string encoding;
/// the encoding is the value the named decryption results are functions of.
/// The fields are private and [`ViewingKey::decode`] is the only
/// constructor, so the opaque key always is the one decoded from the held
/// encoding on the held network.
pub struct ViewingKey {
    ufvk: UnifiedFullViewingKey,
    encoding: String,
    network: Network,
}

impl ViewingKey {
    /// The key's string encoding — the value the named results are
    /// functions of.
    pub closed spec fn encoding_spec(&self) -> Seq<char> {
        self.encoding@
    }

    /// The network the key was decoded for.
    pub closed spec fn network_spec(&self) -> Network {
        self.network
    }

    /// The key's string encoding.
    pub fn encoding(&self) -> (r: &String)
        ensures
            r@ == self.encoding_spec(),
    {
        &self.encoding
    }
    /// Relies on `UnifiedFullViewingKey::decode` from the key-handling crate:
    /// parses the ZIP 316 string encoding for the given network.
    #[verifier::external_body]
    pub fn decode(network: Network, encoding: &str) -> (r: Option<ViewingKey>)
        ensures
            match r {
                Some(k) => k.encoding_spec() == encoding@ && k.network_spec() == network,
                None => true,
            },
    {
        let params = match network {
            Network::Main => consensus::Network::MainNetwork,
            Network::Regtest => consensus::Network::TestNetwork,
        };
        let ufvk = UnifiedFullViewingKey::decode(&params, encoding).ok()?;
        Some(ViewingKey { ufvk, encoding: encoding.to_string(), network })
    }

    /// Relies on `UnifiedFullViewingKey::find_address`: searches the
    /// diversifier space starting at `index` for the first valid receiving
    /// address, so the index found is at least the index asked for. The
    /// result depends only on the key and the index.
    #[verifier::external_body]
    pub fn find_address(&self, index: u64) -> (r: Option<WalletAddress>)
        ensures
            address_view(r) == found_address_of(self.encoding_spec(), index),
            match r {
                Some(a) => a.index >= index,
                None => true,
            },
    {
        let req = UnifiedAddressRequest::AllAvailableKeys;
        let (ua, di) = self.ufvk.find_address(DiversifierIndex::from(index), req).ok()?;
        let encoded = match self.network {
            Network::Main => ua.encode(&consensus::Network::MainNetwork),
            Network::Regtest => ua.encode(&consensus::Network::TestNetwork),
        };
        let sapling_receiver = ua.sapling().map_or(Vec::new(), |a| a.to_bytes().to_vec());
        let orchard_receiver = ua.orchard().map_or(Vec::new(), |a| a.to_raw_address_bytes().to_vec());
        Some(WalletAddress { encoded, sapling_receiver, orchard_receiver, index: u64::try_from(di).ok()? })
    }

    /// Relies on `try_compact_note_decryption` over the first pool's domain,
    /// and on `Note::nf` for the nullifier of the decrypted note: trial
    /// decryption of one compact output, deterministic in the key encoding,
    /// the output bytes and the commitment-tree position.
    #[verifier::external_body]
    pub fn sapling_try_decrypt(
        &self,
        output: &crate::chain::CompactOutput,
        position: u64,
    ) -> (r: Option<DecryptedNote>)
        ensures
            decrypt_view(r) == sapling_scan_of(
                self.encoding_spec(),
                output.cmu@,
                output.epk@,
                output.ciphertext@,
                position,
            ),
    {
        let dfvk = self.ufvk.sapling()?;
        let ivk = SaplingPivk::new(&dfvk.to_ivk(Scope::External));
        let cmu = Option::from(SaplingCmu::from_bytes(&arr32(&output.cmu)?))?;
        let ephemeral_key = EphemeralKeyBytes(arr32(&output.epk)?);
        let desc = CompactOutputDescription { ephemeral_key, cmu, enc_ciphertext: arr52(&output.ciphertext)? };
        let domain = SaplingDomain::new(Zip212Enforcement::On);
        let (note, addr) = try_compact_note_decryption(&domain, &ivk, &desc)?;
        let nf = note.nf(&dfvk.fvk().vk.nk, position).0.to_vec();
        Some(DecryptedNote { address: addr.to_bytes().to_vec(), value: note.value().inner(), nf })
    }

    /// Relies on `try_compact_note_decryption` over the second pool's domain,
    /// and on `Note::nullifier` for the nullifier of the decrypted note:
    /// trial decryption of one compact action, deterministic in the key
    /// encoding and the action bytes.
    #[verifier::external_body]
    pub fn orchard_try_decrypt(
        &self,
        action: &crate::chain::CompactAction,
    ) -> (r: Option<DecryptedNote>)
        ensures
            decrypt_view(r) == orchard_scan_of(
                self.encoding_spec(),
                action.nf@,
                action.cmx@,
                action.epk@,
                action.ciphertext@,
            ),
    {
        let fvk = self.ufvk.orchard()?;
        let ivk = OrchardPivk::new(&fvk.to_ivk(Scope::External));
        let nf_old = Option::from(OrchardNullifier::from_bytes(&arr32(&action.nf)?))?;
        let cmx = Option::from(OrchardCmx::from_bytes(&arr32(&action.cmx)?))?;
        let epk = EphemeralKeyBytes(arr32(&action.epk)?);
        let act = OrchardCompactAction::from_parts(nf_old, cmx, epk, arr52(&action.ciphertext)?);
        let (note, addr) = try_compact_note_decryption(&OrchardDomain::for_compact_action(&act), &ivk, &act)?;
        let address = addr.to_raw_address_bytes().to_vec();
        Some(DecryptedNote { address, value: note.value().inner(), nf: note.nullifier(fvk).to_bytes().to_vec() })
    }
}

} // verus!
