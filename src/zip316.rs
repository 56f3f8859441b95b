//! Unified containers: items serialized as TLV, padded with the prefix,
//! permuted by F4Jumble, regrouped into 5-bit values and written as a
//! Bech32m string.

use vstd::prelude::*;
use vstd::string::StringSliceAdditionalSpecFns;
use crate::bech32m::{
    all_printable, decode, decoded, encode, encoded, is_upper, lemma_decode_encoded,
    MAX_ENCODED_LEN,
};
use crate::f4jumble::{
    jumble, jumbled, lemma_unjumble_jumbled, unjumble, unjumbled, valid_len, MAX_LEN, MIN_LEN,
};
use crate::groups::{
    bytes_to_groups, from_groups, groups_to_bytes, lemma_groups_5bit, lemma_groups_round_trip,
    to_groups, zeros,
};
use crate::tlv::{
    items_bytes, items_view, lemma_parse_items_bytes, parse_items, parse_items_exec,
    serialize_items, TlvItem,
};

verus! {

/// Length of the padding, and the longest prefix that fits in it.
pub const PADDING_LEN: usize = 16;

/// Why a container could not be encoded or decoded.
#[derive(Clone, Copy, Debug, PartialEq, Eq, Structural)]
pub enum Zip316Error {
    /// The string is not a valid Bech32m string, or its payload does not
    /// regroup into bytes.
    Bech32DecodeFailed,
    /// The prefix is empty, holds a character outside printable ASCII or an
    /// uppercase letter, or (when decoding) is longer than the padding.
    InvalidHrp,
    /// The payload is shorter than the permutation accepts.
    PayloadTooShort,
    /// The trailing padding does not match the prefix.
    PaddingInvalid,
    /// The payload is longer than the permutation accepts (or, when
    /// encoding, shorter).
    F4JumbleFailed,
    /// The prefix is none of those accepted.
    HrpMismatch,
    /// The payload is not a sequence of well-formed items, or holds none
    /// where one is expected.
    TlvInvalid,
    /// More than one item where exactly one is expected.
    TlvTrailingBytes,
    /// The prefix is longer than the padding.
    HrpTooLong,
    /// The encoded string would be longer than allowed.
    Bech32EncodeFailed,
}

/// A prefix that a container can be encoded under.
pub open spec fn valid_hrp(h: Seq<u8>) -> bool {
    &&& 1 <= h.len()
    &&& all_printable(h)
    &&& forall|i: int| 0 <= i < h.len() ==> !is_upper(#[trigger] h[i])
}

/// The prefix followed by zeros up to the padding length.
pub open spec fn padding(h: Seq<u8>) -> Seq<u8> {
    h + zeros(PADDING_LEN - h.len())
}

/// The bytes that are permuted: the items, then the padding.
pub open spec fn container_body(h: Seq<u8>, items: Seq<(u64, Seq<u8>)>) -> Seq<u8> {
    items_bytes(items) + padding(h)
}

/// The encoding of `items` under the prefix `h`, as bytes of ASCII text.
#[verifier::opaque]
pub open spec fn container_bytes(h: Seq<u8>, items: Seq<(u64, Seq<u8>)>) -> Result<Seq<u8>, Zip316Error> {
    if h.len() > PADDING_LEN {
        Err(Zip316Error::HrpTooLong)
    } else if !valid_hrp(h) {
        Err(Zip316Error::InvalidHrp)
    } else if !valid_len(container_body(h, items).len() as int) {
        Err(Zip316Error::F4JumbleFailed)
    } else {
        let s = encoded(h, to_groups(jumbled(container_body(h, items))));
        if s.len() > MAX_ENCODED_LEN {
            Err(Zip316Error::Bech32EncodeFailed)
        } else {
            Ok(s)
        }
    }
}

/// The characters that stand for ASCII bytes.
pub open spec fn ascii_chars(b: Seq<u8>) -> Seq<char> {
    b.map_values(|c: u8| c as char)
}

/// The index of the first of `cands` equal to `h`, at or after `i`, or the
/// number of candidates if there is none.
pub open spec fn first_match(cands: Seq<Seq<u8>>, h: Seq<u8>, i: int) -> int
    decreases cands.len() - i,
{
    if i < 0 || i >= cands.len() {
        cands.len() as int
    } else if cands[i] == h {
        i
    } else {
        first_match(cands, h, i + 1)
    }
}

/// What decoding the string `s` (as bytes) against the accepted prefixes
/// `cands` gives: the index of the matching prefix and the items.
#[verifier::opaque]
pub open spec fn container_decoded(cands: Seq<Seq<u8>>, s: Seq<u8>) -> Result<(int, Seq<(u64, Seq<u8>)>), Zip316Error> {
    match decoded(s) {
        None => Err(Zip316Error::Bech32DecodeFailed),
        Some((h, g)) => {
            let idx = first_match(cands, h, 0);
            if idx >= cands.len() {
                Err(Zip316Error::HrpMismatch)
            } else if h.len() > PADDING_LEN {
                Err(Zip316Error::InvalidHrp)
            } else {
                match from_groups(g) {
                    None => Err(Zip316Error::Bech32DecodeFailed),
                    Some(b) => {
                        if b.len() < MIN_LEN {
                            Err(Zip316Error::PayloadTooShort)
                        } else if b.len() > MAX_LEN {
                            Err(Zip316Error::F4JumbleFailed)
                        } else {
                            let u = unjumbled(b);
                            let n = u.len() - PADDING_LEN;
                            if u.skip(n) != padding(h) {
                                Err(Zip316Error::PaddingInvalid)
                            } else {
                                match parse_items(u.take(n)) {
                                    None => Err(Zip316Error::TlvInvalid),
                                    Some(items) => Ok((idx, items)),
                                }
                            }
                        }
                    },
                }
            }
        },
    }
}

/// The bytes of the strings.
pub open spec fn strs_bytes(cands: Seq<&str>) -> Seq<Seq<u8>> {
    cands.map_values(|c: &str| c.spec_bytes())
}

/// Text made of ASCII bytes is encoded in UTF-8 as those same bytes.
pub proof fn lemma_ascii_utf8(b: Seq<u8>)
    requires
        forall|i: int| 0 <= i < b.len() ==> #[trigger] b[i] < 128,
    ensures
        vstd::utf8::encode_utf8(ascii_chars(b)) == b,
{
    let c = ascii_chars(b);
    assert(vstd::utf8::is_ascii_chars(c));
    vstd::utf8::is_ascii_chars_encode_utf8(c);
    assert(vstd::utf8::encode_utf8(c) =~= b);
}

/// Decoding the encoding of items under a prefix, against accepted prefixes
/// that include it, gives back the first matching prefix and the same items
/// in the same order.
pub proof fn lemma_container_round_trip(cands: Seq<Seq<u8>>, h: Seq<u8>, items: Seq<(u64, Seq<u8>)>)
    requires
        container_bytes(h, items) is Ok,
        exists|i: int| 0 <= i < cands.len() && cands[i] == h,
        forall|i: int| 0 <= i < items.len() ==> #[trigger] items[i].1.len() <= u64::MAX,
    ensures
        ({
            let s = container_bytes(h, items)->Ok_0;
            &&& vstd::utf8::encode_utf8(ascii_chars(s)) == s
            &&& container_decoded(cands, s) == Ok::<_, Zip316Error>((first_match(cands, h, 0), items))
        }),
{
    reveal(container_bytes);
    reveal(container_decoded);
    let body = container_body(h, items);
    let j = jumbled(body);
    let g = to_groups(j);
    let s = encoded(h, g);
    lemma_groups_5bit(j);
    lemma_decode_encoded(h, g);
    lemma_groups_round_trip(j);
    lemma_unjumble_jumbled(body);
    let n = body.len() - PADDING_LEN;
    assert(body.skip(n) =~= padding(h));
    assert(body.take(n) =~= items_bytes(items));
    lemma_parse_items_bytes(items);
    let k = choose|i: int| 0 <= i < cands.len() && cands[i] == h;
    lemma_first_match(cands, h, 0, k);
    lemma_ascii_utf8(s);
}

pub proof fn lemma_first_match(cands: Seq<Seq<u8>>, h: Seq<u8>, i: int, k: int)
    requires
        0 <= i <= k < cands.len(),
        cands[k] == h,
    ensures
        i <= first_match(cands, h, i) <= k,
        cands[first_match(cands, h, i)] == h,
    decreases k - i,
{
    if cands[i] != h {
        lemma_first_match(cands, h, i + 1, k);
    }
}

/// Relies on String::from_utf8: ASCII bytes are valid UTF-8, and the string
/// holds one character per byte.
#[verifier::external_body]
fn ascii_to_string(b: Vec<u8>) -> (r: String)
    requires
        forall|i: int| 0 <= i < b@.len() ==> #[trigger] b@[i] < 128,
    ensures
        r@ == ascii_chars(b@),
{
    String::from_utf8(b).unwrap_or_default()
}

fn bytes_eq(a: &[u8], b: &[u8]) -> (r: bool)
    ensures
        r == (a@ == b@),
{
    if a.len() != b.len() {
        return false;
    }
    let mut i: usize = 0;
    while i < a.len()
        invariant
            i <= a@.len() == b@.len(),
            forall|k: int| 0 <= k < i ==> #[trigger] a@[k] == b@[k],
        decreases a.len() - i,
    {
        if a[i] != b[i] {
            return false;
        }
        i += 1;
    }
    assert(a@ =~= b@);
    true
}

fn check_hrp(h: &[u8]) -> (r: bool)
    ensures
        r == valid_hrp(h@),
{
    if h.len() < 1 {
        return false;
    }
    let mut i: usize = 0;
    while i < h.len()
        invariant
            i <= h@.len(),
            forall|k: int| 0 <= k < i ==> 33 <= #[trigger] h@[k] <= 126 && !is_upper(h@[k]),
        decreases h.len() - i,
    {
        let c = h[i];
        if c < 33 || c > 126 || (65 <= c && c <= 90) {
            return false;
        }
        i += 1;
    }
    true
}

/// Encodes items, in order, as a container under the prefix `hrp`.
pub fn encode_container(hrp: &str, items: &[TlvItem]) -> (r: Result<String, Zip316Error>)
    ensures
        match container_bytes(hrp.spec_bytes(), items_view(items@)) {
            Ok(b) => r is Ok && r->Ok_0@ == ascii_chars(b),
            Err(e) => r == Err::<String, Zip316Error>(e),
        },
{
    reveal(container_bytes);
    let hb = hrp.as_bytes();
    if hb.len() > PADDING_LEN {
        return Err(Zip316Error::HrpTooLong);
    }
    if !check_hrp(hb) {
        return Err(Zip316Error::InvalidHrp);
    }
    let mut body = serialize_items(items);
    let ghost ib = body@;
    let mut i: usize = 0;
    while i < PADDING_LEN
        invariant
            i <= PADDING_LEN,
            hb@.len() <= PADDING_LEN,
            body@ == ib + padding(hb@).take(i as int),
        decreases PADDING_LEN - i,
    {
        if i < hb.len() {
            body.push(hb[i]);
        } else {
            body.push(0u8);
        }
        assert(body@ =~= ib + padding(hb@).take(i as int + 1));
        i += 1;
    }
    assert(padding(hb@).take(PADDING_LEN as int) =~= padding(hb@));
    let j = match jumble(body.as_slice()) {
        None => {
            return Err(Zip316Error::F4JumbleFailed);
        },
        Some(j) => j,
    };
    let g = bytes_to_groups(j.as_slice());
    let s = encode(hb, g.as_slice());
    if s.len() > MAX_ENCODED_LEN {
        return Err(Zip316Error::Bech32EncodeFailed);
    }
    proof {
        crate::bech32m::lemma_charset_inverse();
        assert forall|k: int| 0 <= k < s@.len() implies #[trigger] s@[k] < 128 by {
            let n = hb@.len() as int;
            if k > n {
                let v = (g@ + crate::bech32m::checksum(hb@, g@))[k - n - 1];
                assert(s@[k] == crate::bech32m::charset()[v as int]);
                if k - n - 1 >= g@.len() {
                    crate::bech32m::lemma_checksum_5bit(hb@, g@);
                }
                assert(v < 32);
            }
        }
    }
    Ok(ascii_to_string(s))
}

/// Decodes a container against the accepted prefixes `candidates`: the
/// index of the first candidate equal to the string's prefix, and the items
/// in order.
pub fn decode_container(candidates: &[&str], s: &str) -> (r: Result<(usize, Vec<TlvItem>), Zip316Error>)
    ensures
        match container_decoded(strs_bytes(candidates@), s.spec_bytes()) {
            Ok((i, its)) => r is Ok && r->Ok_0.0 == i && items_view(r->Ok_0.1@) == its,
            Err(e) => r is Err && r->Err_0 == e,
        },
        r matches Ok((i, _)) ==> i < candidates@.len(),
{
    reveal(container_decoded);
    let ghost cands = strs_bytes(candidates@);
    let (h, g) = match decode(s.as_bytes()) {
        None => {
            return Err(Zip316Error::Bech32DecodeFailed);
        },
        Some(x) => x,
    };
    let mut idx: usize = 0;
    while idx < candidates.len() && !bytes_eq(candidates[idx].as_bytes(), h.as_slice())
        invariant
            idx <= candidates@.len(),
            cands == strs_bytes(candidates@),
            first_match(cands, h@, 0) == first_match(cands, h@, idx as int),
        decreases candidates.len() - idx,
    {
        idx += 1;
    }
    if idx >= candidates.len() {
        return Err(Zip316Error::HrpMismatch);
    }
    assert(first_match(cands, h@, 0) == idx);
    if h.len() > PADDING_LEN {
        return Err(Zip316Error::InvalidHrp);
    }
    let b = match groups_to_bytes(g.as_slice()) {
        None => {
            return Err(Zip316Error::Bech32DecodeFailed);
        },
        Some(b) => b,
    };
    if b.len() < MIN_LEN {
        return Err(Zip316Error::PayloadTooShort);
    }
    let u = match unjumble(b.as_slice()) {
        None => {
            return Err(Zip316Error::F4JumbleFailed);
        },
        Some(u) => u,
    };
    let n = u.len() - PADDING_LEN;
    let mut k: usize = 0;
    while k < PADDING_LEN
        invariant
            k <= PADDING_LEN,
            h@.len() <= PADDING_LEN,
            n + PADDING_LEN == u@.len(),
            forall|z: int| 0 <= z < k ==> #[trigger] u@.skip(n as int)[z] == padding(h@)[z],
            decoded(s.spec_bytes()) == Some((h@, g@)),
            cands == strs_bytes(candidates@),
            first_match(cands, h@, 0) == idx,
            idx < candidates@.len(),
            from_groups(g@) == Some(b@),
            MIN_LEN <= b@.len() <= MAX_LEN,
            u@ == unjumbled(b@),
        decreases PADDING_LEN - k,
    {
        let expected: u8 = if k < h.len() { h[k] } else { 0u8 };
        if u[n + k] != expected {
            assert(u@.skip(n as int)[k as int] != padding(h@)[k as int]);
            reveal(container_decoded);
            return Err(Zip316Error::PaddingInvalid);
        }
        k += 1;
    }
    assert(u@.skip(n as int) =~= padding(h@));
    let body = vstd::slice::slice_subrange(u.as_slice(), 0, n);
    assert(body@ =~= u@.take(n as int));
    match parse_items_exec(body) {
        None => Err(Zip316Error::TlvInvalid),
        Some(items) => Ok((idx, items)),
    }
}

/// Encodes a container of the one item (`typecode`, `value`) under `hrp`.
pub fn encode_unified_container(hrp: &str, typecode: u64, value: &[u8]) -> (r: Result<String, Zip316Error>)
    ensures
        match container_bytes(hrp.spec_bytes(), seq![(typecode, value@)]) {
            Ok(b) => r is Ok && r->Ok_0@ == ascii_chars(b),
            Err(e) => r == Err::<String, Zip316Error>(e),
        },
{
    let item = TlvItem { typecode, value: vstd::slice::slice_to_vec(value) };
    let items: Vec<TlvItem> = vec![item];
    assert(items_view(items@) =~= seq![(typecode, value@)]);
    encode_container(hrp, items.as_slice())
}

/// What decoding a container that must hold exactly one item gives: that
/// item, or an error when it holds none or more than one.
pub open spec fn single_decoded(h: Seq<u8>, s: Seq<u8>) -> Result<(u64, Seq<u8>), Zip316Error> {
    match container_decoded(seq![h], s) {
        Err(e) => Err(e),
        Ok((_, items)) => {
            if items.len() == 0 {
                Err(Zip316Error::TlvInvalid)
            } else if items.len() > 1 {
                Err(Zip316Error::TlvTrailingBytes)
            } else {
                Ok(items[0])
            }
        },
    }
}

/// Decodes a container under the one prefix `hrp` that must hold exactly one
/// item, and returns its typecode and value.
pub fn decode_single_tlv_container(hrp: &str, s: &str) -> (r: Result<(u64, Vec<u8>), Zip316Error>)
    ensures
        match single_decoded(hrp.spec_bytes(), s.spec_bytes()) {
            Ok((tc, v)) => r is Ok && r->Ok_0.0 == tc && r->Ok_0.1@ == v,
            Err(e) => r is Err && r->Err_0 == e,
        },
{
    let cands: [&str; 1] = [hrp];
    assert(strs_bytes(cands@) =~= seq![hrp.spec_bytes()]);
    let (_, mut items) = decode_container(cands.as_slice(), s)?;
    if items.len() == 0 {
        return Err(Zip316Error::TlvInvalid);
    }
    if items.len() > 1 {
        return Err(Zip316Error::TlvTrailingBytes);
    }
    let item = items.pop().unwrap();
    Ok((item.typecode, item.value))
}

/// Replacing one symbol after the separator of an encoded container by
/// another symbol makes decoding fail at the checksum, whatever prefixes are
/// accepted.
pub proof fn lemma_container_substitution_detected(cands: Seq<Seq<u8>>, h: Seq<u8>,
    items: Seq<(u64, Seq<u8>)>, pos: int, c: u8)
    requires
        container_bytes(h, items) is Ok,
        h.len() < pos < container_bytes(h, items)->Ok_0.len(),
        crate::bech32m::symbol_value(c) is Some,
        c != container_bytes(h, items)->Ok_0[pos],
    ensures
        container_decoded(cands, container_bytes(h, items)->Ok_0.update(pos, c))
            == Err::<(int, Seq<(u64, Seq<u8>)>), _>(Zip316Error::Bech32DecodeFailed),
{
    reveal(container_bytes);
    reveal(container_decoded);
    crate::bech32m::lemma_charset_inverse();
    let g = to_groups(jumbled(container_body(h, items)));
    lemma_groups_5bit(jumbled(container_body(h, items)));
    let k = pos - h.len() - 1;
    let v = crate::bech32m::symbol_value(c).unwrap();
    let all = g + crate::bech32m::checksum(h, g);
    let s = encoded(h, g);
    assert(s[pos] == crate::bech32m::charset()[all[k] as int]);
    assert(crate::bech32m::charset()[v as int] == c) by {
        assert(c == 113 || c == 112 || c == 122 || c == 114 || c == 121 || c == 57 || c == 120
            || c == 56 || c == 103 || c == 102 || c == 50 || c == 116 || c == 118 || c == 100
            || c == 119 || c == 48 || c == 115 || c == 51 || c == 106 || c == 110 || c == 53
            || c == 52 || c == 107 || c == 104 || c == 99 || c == 101 || c == 54 || c == 109
            || c == 117 || c == 97 || c == 55 || c == 108);
    }
    crate::bech32m::lemma_symbol_substitution_detected(h, g, k, v);
}

} // verus!
