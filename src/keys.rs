//! Orchard full viewing keys, parsed and used through the `orchard` crate.

use vstd::prelude::*;
use orchard::keys::{FullViewingKey, Scope};

verus! {

#[verifier::external_type_specification]
#[verifier::external_body]
pub struct ExFullViewingKey(orchard::keys::FullViewingKey);

/// Length of the raw encoding of a full viewing key.
pub const FVK_LEN: usize = 96;

/// Length of a raw Orchard receiver address.
pub const RAW_ADDRESS_LEN: usize = 43;

/// Whether 96 bytes are the raw encoding of an Orchard full viewing key.
pub uninterp spec fn fvk_encoding_valid(b: Seq<u8>) -> bool;

/// The raw receiver address, in the external scope, at diversifier index
/// `index`, of the full viewing key whose raw encoding is `fvk`.
pub uninterp spec fn orchard_receiver(fvk: Seq<u8>, index: u32) -> Seq<u8>;

/// Relies on orchard::keys::FullViewingKey::from_bytes: whether it accepts
/// the encoding depends on the 96 bytes alone.
#[verifier::external_body]
fn fvk_from_bytes(b: &[u8]) -> (r: Option<FullViewingKey>)
    requires
        b@.len() == FVK_LEN,
    ensures
        r is Some == fvk_encoding_valid(b@),
{
    let mut a = [0u8; 96];
    a.copy_from_slice(b);
    FullViewingKey::from_bytes(&a)
}

/// A full viewing key together with the raw encoding it was parsed from.
/// Values are made only by `from_encoding`, so `key` is always what
/// `FullViewingKey::from_bytes` gave for `encoding`.
pub struct ViewingKey {
    key: FullViewingKey,
    encoding: Vec<u8>,
}

impl View for ViewingKey {
    type V = Seq<u8>;

    closed spec fn view(&self) -> Seq<u8> {
        self.encoding@
    }
}

/// Relies on orchard::keys::FullViewingKey::address_at with the external
/// scope, and Address::to_raw_address_bytes: 43 bytes, determined by the key
/// (so by the encoding it was parsed from) and the index.
#[verifier::external_body]
fn receiver_at(vk: &ViewingKey, index: u32) -> (r: Vec<u8>)
    ensures
        r@ == orchard_receiver(vk@, index),
        r@.len() == RAW_ADDRESS_LEN,
{
    vk.key.address_at(index, Scope::External).to_raw_address_bytes().to_vec()
}

impl ViewingKey {
    /// Parses the raw 96-byte encoding of a full viewing key.
    pub fn from_encoding(b: &[u8]) -> (r: Option<ViewingKey>)
        requires
            b@.len() == FVK_LEN,
        ensures
            r is Some == fvk_encoding_valid(b@),
            r matches Some(k) ==> k@ == b@,
    {
        match fvk_from_bytes(b) {
            None => None,
            Some(key) => Some(ViewingKey { key, encoding: vstd::slice::slice_to_vec(b) }),
        }
    }

    /// The raw receiver address at `index`, in the external scope.
    pub fn receiver(&self, index: u32) -> (r: Vec<u8>)
        ensures
            r@ == orchard_receiver(self@, index),
            r@.len() == RAW_ADDRESS_LEN,
    {
        receiver_at(self, index)
    }
}

} // verus!
