//! Unified container codec (Bech32m strings over F4Jumble-permuted TLV
//! payloads) and the derivation of Orchard receiver addresses from a unified
//! full viewing key.
//!
//! A viewing-key string is trimmed, decoded against the viewing-key prefixes
//! of the three networks, and must carry exactly one Orchard item of 96
//! bytes; items of other typecodes are skipped. Each derived receiver is
//! written back as a single-item container under the address prefix of the
//! same network.

use vstd::prelude::*;

pub mod bech32m;
pub mod groups;
pub mod keys;
pub mod f4jumble;
pub mod tlv;
pub mod zip316;

use vstd::string::StringSliceAdditionalSpecFns;
use crate::keys::{fvk_encoding_valid, orchard_receiver, ViewingKey, FVK_LEN};
use crate::tlv::TlvItem;
use crate::zip316::{
    ascii_chars, container_bytes, container_decoded, decode_container, encode_unified_container,
    strs_bytes, Zip316Error,
};

verus! {

/// Prefix of a unified full viewing key on mainnet.
pub const HRP_JUNO_UFVK: &'static str = "jview";

/// Prefix of a unified address on mainnet.
pub const HRP_JUNO_UA: &'static str = "j";

/// Prefix of a unified full viewing key on testnet.
pub const HRP_JUNO_UFVK_TESTNET: &'static str = "jviewtest";

/// Prefix of a unified address on testnet.
pub const HRP_JUNO_UA_TESTNET: &'static str = "jtest";

/// Prefix of a unified full viewing key on regtest.
pub const HRP_JUNO_UFVK_REGTEST: &'static str = "jviewregtest";

/// Prefix of a unified address on regtest.
pub const HRP_JUNO_UA_REGTEST: &'static str = "jregtest";

/// Typecode of an Orchard item.
pub const TYPECODE_ORCHARD: u64 = 0x03;

/// Coin type of the key derivation path.
pub const JUNO_COIN_TYPE: u32 = 8133;

/// Largest number of addresses derived in one batch.
pub const MAX_BATCH_COUNT: u32 = 100_000;

/// Why an address could not be derived.
#[derive(Clone, Copy, Debug, PartialEq, Eq, Structural)]
pub enum ErrorCode {
    UfvkEmpty,
    UfvkInvalidBech32m,
    UfvkHrpMismatch,
    UfvkTlvInvalid,
    UfvkTypecodeUnsupported,
    UfvkValueLenInvalid,
    UfvkFvkBytesInvalid,
    CountZero,
    CountTooLarge,
    RangeOverflow,
    Internal,
}

/// The stable text of each error code.
pub open spec fn error_text(c: ErrorCode) -> Seq<char> {
    match c {
        ErrorCode::UfvkEmpty => "ufvk_empty"@,
        ErrorCode::UfvkInvalidBech32m => "ufvk_invalid_bech32m"@,
        ErrorCode::UfvkHrpMismatch => "ufvk_hrp_mismatch"@,
        ErrorCode::UfvkTlvInvalid => "ufvk_tlv_invalid"@,
        ErrorCode::UfvkTypecodeUnsupported => "ufvk_typecode_unsupported"@,
        ErrorCode::UfvkValueLenInvalid => "ufvk_value_len_invalid"@,
        ErrorCode::UfvkFvkBytesInvalid => "ufvk_fvk_bytes_invalid"@,
        ErrorCode::CountZero => "count_zero"@,
        ErrorCode::CountTooLarge => "count_too_large"@,
        ErrorCode::RangeOverflow => "range_overflow"@,
        ErrorCode::Internal => "internal"@,
    }
}

impl ErrorCode {
    /// The stable text of the code.
    pub fn as_str(self) -> (r: &'static str)
        ensures
            r@ == error_text(self),
    {
        match self {
            ErrorCode::UfvkEmpty => "ufvk_empty",
            ErrorCode::UfvkInvalidBech32m => "ufvk_invalid_bech32m",
            ErrorCode::UfvkHrpMismatch => "ufvk_hrp_mismatch",
            ErrorCode::UfvkTlvInvalid => "ufvk_tlv_invalid",
            ErrorCode::UfvkTypecodeUnsupported => "ufvk_typecode_unsupported",
            ErrorCode::UfvkValueLenInvalid => "ufvk_value_len_invalid",
            ErrorCode::UfvkFvkBytesInvalid => "ufvk_fvk_bytes_invalid",
            ErrorCode::CountZero => "count_zero",
            ErrorCode::CountTooLarge => "count_too_large",
            ErrorCode::RangeOverflow => "range_overflow",
            ErrorCode::Internal => "internal",
        }
    }
}

/// The code that a container error is reported as.
pub open spec fn code_of(e: Zip316Error) -> ErrorCode {
    match e {
        Zip316Error::Bech32DecodeFailed | Zip316Error::InvalidHrp | Zip316Error::PayloadTooShort
        | Zip316Error::PaddingInvalid | Zip316Error::F4JumbleFailed => ErrorCode::UfvkInvalidBech32m,
        Zip316Error::HrpMismatch => ErrorCode::UfvkHrpMismatch,
        Zip316Error::TlvInvalid | Zip316Error::TlvTrailingBytes => ErrorCode::UfvkTlvInvalid,
        Zip316Error::HrpTooLong | Zip316Error::Bech32EncodeFailed => ErrorCode::Internal,
    }
}

/// The code that a container error is reported as.
pub fn map_zip316_err(e: Zip316Error) -> (r: ErrorCode)
    ensures
        r == code_of(e),
{
    match e {
        Zip316Error::Bech32DecodeFailed | Zip316Error::InvalidHrp | Zip316Error::PayloadTooShort
        | Zip316Error::PaddingInvalid | Zip316Error::F4JumbleFailed => ErrorCode::UfvkInvalidBech32m,
        Zip316Error::HrpMismatch => ErrorCode::UfvkHrpMismatch,
        Zip316Error::TlvInvalid | Zip316Error::TlvTrailingBytes => ErrorCode::UfvkTlvInvalid,
        Zip316Error::HrpTooLong | Zip316Error::Bech32EncodeFailed => ErrorCode::Internal,
    }
}

/// The viewing-key prefixes of mainnet, testnet and regtest, in that order.
pub open spec fn ufvk_hrps() -> Seq<Seq<u8>> {
    seq![HRP_JUNO_UFVK.spec_bytes(), HRP_JUNO_UFVK_TESTNET.spec_bytes(), HRP_JUNO_UFVK_REGTEST.spec_bytes()]
}

/// The address prefixes paired with `ufvk_hrps`, network by network.
pub open spec fn ua_hrps() -> Seq<Seq<u8>> {
    seq![HRP_JUNO_UA.spec_bytes(), HRP_JUNO_UA_TESTNET.spec_bytes(), HRP_JUNO_UA_REGTEST.spec_bytes()]
}

fn ufvk_hrp_list() -> (r: [&'static str; 3])
    ensures
        strs_bytes(r@) == ufvk_hrps(),
{
    let r = [HRP_JUNO_UFVK, HRP_JUNO_UFVK_TESTNET, HRP_JUNO_UFVK_REGTEST];
    assert(strs_bytes(r@) =~= ufvk_hrps());
    r
}

/// The address prefix of network `net`.
pub fn ua_hrp(net: usize) -> (r: &'static str)
    requires
        net < 3,
    ensures
        r.spec_bytes() == ua_hrps()[net as int],
{
    if net == 0 {
        HRP_JUNO_UA
    } else if net == 1 {
        HRP_JUNO_UA_TESTNET
    } else {
        HRP_JUNO_UA_REGTEST
    }
}

/// The text of `s` without leading and trailing white space.
pub uninterp spec fn trimmed(s: Seq<char>) -> Seq<char>;

/// Relies on str::trim: the result depends on the characters of `s` alone.
#[verifier::external_body]
fn trim_str(s: &str) -> (r: &str)
    ensures
        r@ == trimmed(s@),
{
    s.trim()
}

/// The values of the Orchard items, in order.
pub open spec fn orchard_values(items: Seq<(u64, Seq<u8>)>) -> Seq<Seq<u8>>
    decreases items.len(),
{
    if items.len() == 0 {
        Seq::empty()
    } else {
        let rest = orchard_values(items.drop_last());
        if items.last().0 == TYPECODE_ORCHARD {
            rest.push(items.last().1)
        } else {
            rest
        }
    }
}

/// The raw full viewing key that the items of a viewing-key container carry:
/// exactly one Orchard item, of 96 bytes that parse as a key. Items of other
/// typecodes are skipped.
pub open spec fn key_from_items(items: Seq<(u64, Seq<u8>)>) -> Result<Seq<u8>, ErrorCode> {
    let vs = orchard_values(items);
    if vs.len() == 0 {
        Err(ErrorCode::UfvkTypecodeUnsupported)
    } else if vs.len() > 1 {
        Err(ErrorCode::UfvkTlvInvalid)
    } else if vs[0].len() != FVK_LEN {
        Err(ErrorCode::UfvkValueLenInvalid)
    } else if !fvk_encoding_valid(vs[0]) {
        Err(ErrorCode::UfvkFvkBytesInvalid)
    } else {
        Ok(vs[0])
    }
}

/// The raw full viewing key in the viewing-key string `s`, and the index of
/// its network.
pub open spec fn ufvk_decoded(s: Seq<char>) -> Result<(Seq<u8>, int), ErrorCode> {
    let t = trimmed(s);
    if t.len() == 0 {
        Err(ErrorCode::UfvkEmpty)
    } else {
        match container_decoded(ufvk_hrps(), vstd::utf8::encode_utf8(t)) {
            Err(e) => Err(code_of(e)),
            Ok((net, items)) => match key_from_items(items) {
                Err(e) => Err(e),
                Ok(k) => Ok((k, net)),
            },
        }
    }
}

/// The address string of the receiver at `index` of the key `key`, on
/// network `net`.
pub open spec fn address_text(key: Seq<u8>, net: int, index: u32) -> Result<Seq<char>, ErrorCode> {
    match container_bytes(ua_hrps()[net], seq![(TYPECODE_ORCHARD, orchard_receiver(key, index))]) {
        Ok(b) => Ok(ascii_chars(b)),
        Err(_) => Err(ErrorCode::Internal),
    }
}

/// The address at `index` of the viewing key in `s`.
pub open spec fn derived_address(s: Seq<char>, index: u32) -> Result<Seq<char>, ErrorCode> {
    match ufvk_decoded(s) {
        Err(e) => Err(e),
        Ok((key, net)) => address_text(key, net, index),
    }
}


/// The Orchard item of a viewing-key container's items, checked as
/// `key_from_items` says, and parsed.
pub fn key_from_item_list(items: &Vec<TlvItem>) -> (r: Result<ViewingKey, ErrorCode>)
    ensures
        match key_from_items(crate::tlv::items_view(items@)) {
            Ok(k) => r is Ok && r->Ok_0@ == k,
            Err(e) => r is Err && r->Err_0 == e,
        },
{
    let ghost all = crate::tlv::items_view(items@);
    let mut count: usize = 0;
    let mut first: usize = 0;
    let mut i: usize = 0;
    while i < items.len()
        invariant
            i <= items@.len(),
            all == crate::tlv::items_view(items@),
            count == orchard_values(all.take(i as int)).len(),
            count <= i,
            count >= 1 ==> first < i && items@[first as int].value@ == orchard_values(all.take(i as int))[0],
        decreases items.len() - i,
    {
        assert(all.take(i as int + 1).drop_last() =~= all.take(i as int));
        if items[i].typecode == TYPECODE_ORCHARD {
            if count == 0 {
                first = i;
            }
            count += 1;
        }
        i += 1;
    }
    assert(all.take(items@.len() as int) =~= all);
    if count == 0 {
        return Err(ErrorCode::UfvkTypecodeUnsupported);
    }
    if count > 1 {
        return Err(ErrorCode::UfvkTlvInvalid);
    }
    let value = &items[first].value;
    if value.len() != FVK_LEN {
        return Err(ErrorCode::UfvkValueLenInvalid);
    }
    match ViewingKey::from_encoding(value.as_slice()) {
        None => Err(ErrorCode::UfvkFvkBytesInvalid),
        Some(k) => Ok(k),
    }
}

/// Decodes a viewing-key string: its raw full viewing key, parsed, and the
/// index of its network.
pub fn decode_fvk_from_ufvk(ufvk: &str) -> (r: Result<(ViewingKey, usize), ErrorCode>)
    ensures
        match ufvk_decoded(ufvk@) {
            Ok((k, net)) => r is Ok && r->Ok_0.0@ == k && r->Ok_0.1 == net && net < 3,
            Err(e) => r is Err && r->Err_0 == e,
        },
{
    let t = trim_str(ufvk);
    if t.is_empty() {
        return Err(ErrorCode::UfvkEmpty);
    }
    let hrps = ufvk_hrp_list();
    let (net, items) = match decode_container(hrps.as_slice(), t) {
        Err(e) => {
            return Err(map_zip316_err(e));
        },
        Ok(x) => x,
    };
    let key = key_from_item_list(&items)?;
    Ok((key, net))
}

/// The address string of the receiver at `index` of `key`, on network `net`.
pub fn derive_address_from_fvk(key: &ViewingKey, net: usize, index: u32) -> (r: Result<String, ErrorCode>)
    requires
        net < 3,
    ensures
        match address_text(key@, net as int, index) {
            Ok(a) => r is Ok && r->Ok_0@ == a,
            Err(e) => r is Err && r->Err_0 == e,
        },
{
    let raw = key.receiver(index);
    match encode_unified_container(ua_hrp(net), TYPECODE_ORCHARD, raw.as_slice()) {
        Ok(s) => Ok(s),
        Err(_) => Err(ErrorCode::Internal),
    }
}

/// The address at `index` of the viewing key in `ufvk`, on the network of
/// that key.
pub fn derive_address_from_ufvk(ufvk: &str, index: u32) -> (r: Result<String, ErrorCode>)
    ensures
        match derived_address(ufvk@, index) {
            Ok(a) => r is Ok && r->Ok_0@ == a,
            Err(e) => r is Err && r->Err_0 == e,
        },
{
    let (key, net) = decode_fvk_from_ufvk(ufvk)?;
    derive_address_from_fvk(&key, net, index)
}

/// The addresses at indices `start .. start + count` of the viewing key in
/// `s`, in index order.
pub open spec fn derived_batch(s: Seq<char>, start: u32, count: u32) -> Result<Seq<Seq<char>>, ErrorCode> {
    if count == 0 {
        Err(ErrorCode::CountZero)
    } else if count > MAX_BATCH_COUNT {
        Err(ErrorCode::CountTooLarge)
    } else if start + count > u32::MAX {
        Err(ErrorCode::RangeOverflow)
    } else {
        match ufvk_decoded(s) {
            Err(e) => Err(e),
            Ok((key, net)) => {
                if exists|j: int| 0 <= j < count && (#[trigger] address_text(key, net, (start + j) as u32)) is Err {
                    Err(ErrorCode::Internal)
                } else {
                    Ok(Seq::new(count as nat, |j: int| address_text(key, net, (start + j) as u32)->Ok_0))
                }
            },
        }
    }
}

/// The views of strings.
pub open spec fn strings_view(v: Seq<String>) -> Seq<Seq<char>> {
    v.map_values(|s: String| s@)
}

/// Derives the addresses at indices `start .. start + count` of the viewing
/// key in `ufvk`, in index order; the key is decoded once.
pub fn derive_addresses_from_ufvk(ufvk: &str, start: u32, count: u32) -> (r: Result<Vec<String>, ErrorCode>)
    ensures
        match derived_batch(ufvk@, start, count) {
            Ok(v) => r is Ok && strings_view(r->Ok_0@) == v,
            Err(e) => r is Err && r->Err_0 == e,
        },
{
    if count == 0 {
        return Err(ErrorCode::CountZero);
    }
    if count > MAX_BATCH_COUNT {
        return Err(ErrorCode::CountTooLarge);
    }
    let end_exclusive = match start.checked_add(count) {
        None => {
            return Err(ErrorCode::RangeOverflow);
        },
        Some(e) => e,
    };
    let (key, net) = decode_fvk_from_ufvk(ufvk)?;
    let ghost want = Seq::new(count as nat, |j: int| address_text(key@, net as int, (start + j) as u32)->Ok_0);
    let mut out: Vec<String> = Vec::new();
    let mut index: u32 = start;
    while index < end_exclusive
        invariant
            start <= index <= end_exclusive,
            end_exclusive == start + count,
            1 <= count <= MAX_BATCH_COUNT,
            ufvk_decoded(ufvk@) == Ok::<_, ErrorCode>((key@, net as int)),
            net < 3,
            want == Seq::new(count as nat, |j: int| address_text(key@, net as int, (start + j) as u32)->Ok_0),
            strings_view(out@) == want.take(index - start),
            forall|j: int| 0 <= j < index - start ==> (#[trigger] address_text(key@, net as int, (start + j) as u32)) is Ok,
        decreases end_exclusive - index,
    {
        let a = match derive_address_from_fvk(&key, net, index) {
            Err(e) => {
                assert(address_text(key@, net as int, (start + (index - start)) as u32) is Err);
                return Err(e);
            },
            Ok(a) => a,
        };
        let ghost before = out@;
        out.push(a);
        proof {
            let j = index - start;
            assert((start + j) as u32 == index);
            assert(strings_view(out@) =~= strings_view(before).push(a@));
            assert(want.take(j + 1) =~= want.take(j as int).push(want[j as int]));
            assert forall|k: int| 0 <= k < j + 1 implies (#[trigger] address_text(key@, net as int, (start + k) as u32)) is Ok by {
                if k == j {
                    assert((start + k) as u32 == index);
                }
            }
        }
        index += 1;
    }
    assert(want.take(count as int) =~= want);
    Ok(out)
}


/// A batch of one address at `index` holds exactly the address that a
/// single derivation at `index` gives, and fails with the same code.
pub proof fn lemma_batch_of_one(s: Seq<char>, index: u32)
    requires
        index < u32::MAX,
    ensures
        match derived_address(s, index) {
            Ok(a) => derived_batch(s, index, 1) == Ok::<_, ErrorCode>(seq![a]),
            Err(e) => derived_batch(s, index, 1) == Err::<Seq<Seq<char>>, _>(e),
        },
{
    match ufvk_decoded(s) {
        Err(e) => {},
        Ok((key, net)) => {
            assert((index + 0) as u32 == index);
            match address_text(key, net, index) {
                Ok(a) => {
                    assert forall|j: int| 0 <= j < 1 implies !((#[trigger] address_text(key, net, (index + j) as u32)) is Err) by {
                        assert(j == 0);
                    }
                    assert(Seq::new(1, |j: int| address_text(key, net, (index + j) as u32)->Ok_0) =~= seq![a]);
                },
                Err(e) => {
                    assert(address_text(key, net, (index + 0) as u32) is Err);
                },
            }
        },
    }
}

/// Items of other typecodes beside the one Orchard item, in any order, do
/// not change what a viewing-key string derives: it derives what a string
/// whose container holds the Orchard item alone derives.
pub proof fn lemma_other_items_skipped(s1: Seq<char>, s2: Seq<char>, net: int,
    items: Seq<(u64, Seq<u8>)>, v: Seq<u8>, index: u32)
    requires
        trimmed(s1).len() > 0,
        trimmed(s2).len() > 0,
        container_decoded(ufvk_hrps(), vstd::utf8::encode_utf8(trimmed(s1))) == Ok::<_, Zip316Error>((net, items)),
        container_decoded(ufvk_hrps(), vstd::utf8::encode_utf8(trimmed(s2)))
            == Ok::<_, Zip316Error>((net, seq![(TYPECODE_ORCHARD, v)])),
        orchard_values(items) == seq![v],
    ensures
        derived_address(s1, index) == derived_address(s2, index),
{
    let single = seq![(TYPECODE_ORCHARD, v)];
    assert(single.drop_last() =~= Seq::<(u64, Seq<u8>)>::empty());
    assert(single.last() == (TYPECODE_ORCHARD, v));
    assert(orchard_values(single.drop_last()) =~= Seq::<Seq<u8>>::empty());
    assert(orchard_values(single) =~= seq![v]);
}

/// A viewing-key string whose container holds two or more Orchard items is
/// rejected as a malformed container, whatever their values.
pub proof fn lemma_duplicate_orchard_items(s: Seq<char>, net: int, items: Seq<(u64, Seq<u8>)>, index: u32)
    requires
        trimmed(s).len() > 0,
        container_decoded(ufvk_hrps(), vstd::utf8::encode_utf8(trimmed(s))) == Ok::<_, Zip316Error>((net, items)),
        orchard_values(items).len() >= 2,
    ensures
        derived_address(s, index) == Err::<Seq<char>, _>(ErrorCode::UfvkTlvInvalid),
{
}

proof fn lemma_hrp_lengths()
    ensures
        HRP_JUNO_UFVK.spec_bytes().len() == 5,
        HRP_JUNO_UFVK_TESTNET.spec_bytes().len() == 9,
        HRP_JUNO_UFVK_REGTEST.spec_bytes().len() == 12,
{
    reveal_strlit("jview");
    reveal_strlit("jviewtest");
    reveal_strlit("jviewregtest");
    vstd::utf8::is_ascii_chars_encode_utf8(HRP_JUNO_UFVK@);
    vstd::utf8::is_ascii_chars_encode_utf8(HRP_JUNO_UFVK_TESTNET@);
    vstd::utf8::is_ascii_chars_encode_utf8(HRP_JUNO_UFVK_REGTEST@);
}

/// A container encoded under the viewing-key prefix of a network decodes,
/// against the prefixes of all three networks, to that same network and the
/// same items; the addresses derived from it then carry the paired address
/// prefix `ua_hrps()[net]`.
pub proof fn lemma_network_round_trip(net: int, items: Seq<(u64, Seq<u8>)>)
    requires
        0 <= net < 3,
        container_bytes(ufvk_hrps()[net], items) is Ok,
        forall|i: int| 0 <= i < items.len() ==> #[trigger] items[i].1.len() <= u64::MAX,
    ensures
        container_decoded(ufvk_hrps(), container_bytes(ufvk_hrps()[net], items)->Ok_0)
            == Ok::<_, Zip316Error>((net, items)),
{
    let cands = ufvk_hrps();
    let h = cands[net];
    lemma_hrp_lengths();
    assert(cands[net] == h);
    crate::zip316::lemma_container_round_trip(cands, h, items);
    crate::zip316::lemma_first_match(cands, h, 0, net);
    let fm = crate::zip316::first_match(cands, h, 0);
    assert(cands[fm].len() == h.len());
    assert(cands[0].len() == 5 && cands[1].len() == 9 && cands[2].len() == 12);
    assert(0 <= fm <= net);
    if fm == 0 {
        assert(net == 0);
    } else if fm == 1 {
        assert(net == 1);
    }
    assert(fm == net);
}

} // verus!
