//! Bech32m strings: a human-readable prefix, the separator `1`, and 5-bit
//! symbols followed by a six-symbol checksum.

use vstd::prelude::*;

verus! {

/// Largest accepted length of a whole encoded string.
pub const MAX_ENCODED_LEN: usize = 1023;

/// The constant that a valid Bech32m checksum residue equals.
pub const BECH32M_CONST: u32 = 0x2bc8_30a3;

/// The 32 symbols `qpzry9x8gf2tvdw0s3jn54khce6mua7l`, indexed by their 5-bit value.
pub open spec fn charset() -> Seq<u8> {
    seq![
        113u8, 112u8, 122u8, 114u8, 121u8, 57u8, 120u8, 56u8,
        103u8, 102u8, 50u8, 116u8, 118u8, 100u8, 119u8, 48u8,
        115u8, 51u8, 106u8, 110u8, 53u8, 52u8, 107u8, 104u8,
        99u8, 101u8, 54u8, 109u8, 117u8, 97u8, 55u8, 108u8,
    ]
}

/// The 5-bit value of a lowercase symbol, if it is one.
pub open spec fn symbol_value(c: u8) -> Option<u8> {
    if c == 113 { Some(0u8) }
    else if c == 112 { Some(1u8) }
    else if c == 122 { Some(2u8) }
    else if c == 114 { Some(3u8) }
    else if c == 121 { Some(4u8) }
    else if c == 57 { Some(5u8) }
    else if c == 120 { Some(6u8) }
    else if c == 56 { Some(7u8) }
    else if c == 103 { Some(8u8) }
    else if c == 102 { Some(9u8) }
    else if c == 50 { Some(10u8) }
    else if c == 116 { Some(11u8) }
    else if c == 118 { Some(12u8) }
    else if c == 100 { Some(13u8) }
    else if c == 119 { Some(14u8) }
    else if c == 48 { Some(15u8) }
    else if c == 115 { Some(16u8) }
    else if c == 51 { Some(17u8) }
    else if c == 106 { Some(18u8) }
    else if c == 110 { Some(19u8) }
    else if c == 53 { Some(20u8) }
    else if c == 52 { Some(21u8) }
    else if c == 107 { Some(22u8) }
    else if c == 104 { Some(23u8) }
    else if c == 99 { Some(24u8) }
    else if c == 101 { Some(25u8) }
    else if c == 54 { Some(26u8) }
    else if c == 109 { Some(27u8) }
    else if c == 117 { Some(28u8) }
    else if c == 97 { Some(29u8) }
    else if c == 55 { Some(30u8) }
    else if c == 108 { Some(31u8) }
    else { None }
}

/// The checksum consists of 5-bit values.
pub proof fn lemma_checksum_5bit(hrp: Seq<u8>, data: Seq<u8>)
    ensures
        checksum(hrp, data).len() == 6,
        all_5bit(checksum(hrp, data)),
{
    let p = polymod(checksum_input(hrp, data)) ^ BECH32M_CONST;
    assert((p >> 25u32) & 31u32 < 32 && (p >> 20u32) & 31u32 < 32 && (p >> 15u32) & 31u32 < 32
        && (p >> 10u32) & 31u32 < 32 && (p >> 5u32) & 31u32 < 32 && p & 31u32 < 32) by (bit_vector);
}

/// Every symbol reads back as its own value, and none is `1` or uppercase.
pub proof fn lemma_charset_inverse()
    ensures
        charset().len() == 32,
        forall|v: u8| v < 32 ==> #[trigger] symbol_value(charset()[v as int]) == Some(v),
        forall|v: u8| v < 32 ==> {
            let c = #[trigger] charset()[v as int];
            33 <= c <= 126 && c != 49 && !(65 <= c <= 90)
        },
{
    assert forall|v: u8| v < 32 implies #[trigger] symbol_value(charset()[v as int]) == Some(v)
        && 33 <= charset()[v as int] <= 126 && charset()[v as int] != 49
        && !(65 <= charset()[v as int] <= 90) by {
        assert(charset().len() == 32);
    }
}

/// The symbol that stands for a 5-bit value.
pub fn symbol(v: u8) -> (c: u8)
    requires
        v < 32,
    ensures
        c == charset()[v as int],
{
    if v == 0 { 113 } else
    if v == 1 { 112 } else
    if v == 2 { 122 } else
    if v == 3 { 114 } else
    if v == 4 { 121 } else
    if v == 5 { 57 } else
    if v == 6 { 120 } else
    if v == 7 { 56 } else
    if v == 8 { 103 } else
    if v == 9 { 102 } else
    if v == 10 { 50 } else
    if v == 11 { 116 } else
    if v == 12 { 118 } else
    if v == 13 { 100 } else
    if v == 14 { 119 } else
    if v == 15 { 48 } else
    if v == 16 { 115 } else
    if v == 17 { 51 } else
    if v == 18 { 106 } else
    if v == 19 { 110 } else
    if v == 20 { 53 } else
    if v == 21 { 52 } else
    if v == 22 { 107 } else
    if v == 23 { 104 } else
    if v == 24 { 99 } else
    if v == 25 { 101 } else
    if v == 26 { 54 } else
    if v == 27 { 109 } else
    if v == 28 { 117 } else
    if v == 29 { 97 } else
    if v == 30 { 55 } else { 108 }
}

/// The 5-bit value of a lowercase symbol, if it is one.
pub fn value_of_symbol(c: u8) -> (r: Option<u8>)
    ensures
        r == symbol_value(c),
{
    if c == 113 { Some(0) } else
    if c == 112 { Some(1) } else
    if c == 122 { Some(2) } else
    if c == 114 { Some(3) } else
    if c == 121 { Some(4) } else
    if c == 57 { Some(5) } else
    if c == 120 { Some(6) } else
    if c == 56 { Some(7) } else
    if c == 103 { Some(8) } else
    if c == 102 { Some(9) } else
    if c == 50 { Some(10) } else
    if c == 116 { Some(11) } else
    if c == 118 { Some(12) } else
    if c == 100 { Some(13) } else
    if c == 119 { Some(14) } else
    if c == 48 { Some(15) } else
    if c == 115 { Some(16) } else
    if c == 51 { Some(17) } else
    if c == 106 { Some(18) } else
    if c == 110 { Some(19) } else
    if c == 53 { Some(20) } else
    if c == 52 { Some(21) } else
    if c == 107 { Some(22) } else
    if c == 104 { Some(23) } else
    if c == 99 { Some(24) } else
    if c == 101 { Some(25) } else
    if c == 54 { Some(26) } else
    if c == 109 { Some(27) } else
    if c == 117 { Some(28) } else
    if c == 97 { Some(29) } else
    if c == 55 { Some(30) } else
    if c == 108 { Some(31) } else { None }
}

/// One step of the checksum's polynomial division: shift in a 5-bit value.
pub open spec fn polymod_step(chk: u32, v: u8) -> u32 {
    let top = chk >> 25u32;
    let c = ((chk & 0x1ff_ffffu32) << 5u32) ^ (v as u32);
    let c = if top & 1u32 != 0 { c ^ 0x3b6a_57b2u32 } else { c };
    let c = if top & 2u32 != 0 { c ^ 0x2650_8e6du32 } else { c };
    let c = if top & 4u32 != 0 { c ^ 0x1ea1_19fau32 } else { c };
    let c = if top & 8u32 != 0 { c ^ 0x3d42_33ddu32 } else { c };
    if top & 16u32 != 0 { c ^ 0x2a14_62b3u32 } else { c }
}

/// The checksum residue of a sequence of 5-bit values.
pub open spec fn polymod(vals: Seq<u8>) -> u32
    decreases vals.len(),
{
    if vals.len() == 0 {
        1u32
    } else {
        polymod_step(polymod(vals.drop_last()), vals.last())
    }
}

/// The prefix as it enters the checksum: high bits, a zero, low bits.
pub open spec fn hrp_expand(hrp: Seq<u8>) -> Seq<u8> {
    hrp.map_values(|c: u8| c >> 5u8) + seq![0u8] + hrp.map_values(|c: u8| c & 31u8)
}

/// The values whose residue gives the checksum of `data` under `hrp`.
pub open spec fn checksum_input(hrp: Seq<u8>, data: Seq<u8>) -> Seq<u8> {
    hrp_expand(hrp) + data + Seq::new(6, |i: int| 0u8)
}

/// The six checksum values of `data` under `hrp`.
pub open spec fn checksum(hrp: Seq<u8>, data: Seq<u8>) -> Seq<u8> {
    let p = polymod(checksum_input(hrp, data)) ^ BECH32M_CONST;
    seq![
        ((p >> 25u32) & 31u32) as u8,
        ((p >> 20u32) & 31u32) as u8,
        ((p >> 15u32) & 31u32) as u8,
        ((p >> 10u32) & 31u32) as u8,
        ((p >> 5u32) & 31u32) as u8,
        (p & 31u32) as u8,
    ]
}

/// The string (as bytes) that encodes `data` under `hrp`.
pub open spec fn encoded(hrp: Seq<u8>, data: Seq<u8>) -> Seq<u8> {
    hrp + seq![49u8] + (data + checksum(hrp, data)).map_values(|v: u8| charset()[v as int])
}

/// Every element is a 5-bit value.
pub open spec fn all_5bit(vals: Seq<u8>) -> bool {
    forall|i: int| 0 <= i < vals.len() ==> #[trigger] vals[i] < 32
}

fn polymod_step_exec(chk: u32, v: u8) -> (r: u32)
    ensures
        r == polymod_step(chk, v),
{
    let top = chk >> 25u32;
    let c = ((chk & 0x1ff_ffffu32) << 5u32) ^ (v as u32);
    let c = if top & 1u32 != 0 { c ^ 0x3b6a_57b2u32 } else { c };
    let c = if top & 2u32 != 0 { c ^ 0x2650_8e6du32 } else { c };
    let c = if top & 4u32 != 0 { c ^ 0x1ea1_19fau32 } else { c };
    let c = if top & 8u32 != 0 { c ^ 0x3d42_33ddu32 } else { c };
    if top & 16u32 != 0 { c ^ 0x2a14_62b3u32 } else { c }
}

/// The checksum residue of `vals`.
pub fn polymod_exec(vals: &Vec<u8>) -> (r: u32)
    ensures
        r == polymod(vals@),
{
    let mut chk: u32 = 1;
    let mut i: usize = 0;
    while i < vals.len()
        invariant
            i <= vals.len(),
            chk == polymod(vals@.subrange(0, i as int)),
        decreases vals.len() - i,
    {
        assert(vals@.subrange(0, i as int + 1).drop_last() =~= vals@.subrange(0, i as int));
        chk = polymod_step_exec(chk, vals[i]);
        i += 1;
    }
    assert(vals@.subrange(0, vals.len() as int) =~= vals@);
    chk
}

/// The six checksum values of `data` under `hrp`.
pub fn create_checksum(hrp: &[u8], data: &[u8]) -> (r: Vec<u8>)
    ensures
        r@ == checksum(hrp@, data@),
{
    let mut vals: Vec<u8> = Vec::new();
    let mut i: usize = 0;
    while i < hrp.len()
        invariant
            i <= hrp.len(),
            vals@ == hrp@.subrange(0, i as int).map_values(|c: u8| c >> 5u8),
        decreases hrp.len() - i,
    {
        vals.push(hrp[i] >> 5u8);
        assert(vals@ =~= hrp@.subrange(0, i as int + 1).map_values(|c: u8| c >> 5u8));
        i += 1;
    }
    vals.push(0u8);
    let ghost mid = vals@;
    i = 0;
    while i < hrp.len()
        invariant
            i <= hrp.len(),
            vals@ == mid + hrp@.subrange(0, i as int).map_values(|c: u8| c & 31u8),
        decreases hrp.len() - i,
    {
        vals.push(hrp[i] & 31u8);
        assert(vals@ =~= mid + hrp@.subrange(0, i as int + 1).map_values(|c: u8| c & 31u8));
        i += 1;
    }
    assert(hrp@.subrange(0, hrp@.len() as int) =~= hrp@);
    assert(vals@ =~= hrp_expand(hrp@));
    let ghost exp = vals@;
    i = 0;
    while i < data.len()
        invariant
            i <= data.len(),
            vals@ == exp + data@.subrange(0, i as int),
        decreases data.len() - i,
    {
        vals.push(data[i]);
        assert(vals@ =~= exp + data@.subrange(0, i as int + 1));
        i += 1;
    }
    assert(data@.subrange(0, data@.len() as int) =~= data@);
    let ghost body = vals@;
    i = 0;
    while i < 6
        invariant
            i <= 6,
            vals@ == body + Seq::new(i as nat, |k: int| 0u8),
        decreases 6 - i,
    {
        vals.push(0u8);
        assert(vals@ =~= body + Seq::new(i as nat + 1, |k: int| 0u8));
        i += 1;
    }
    assert(vals@ =~= checksum_input(hrp@, data@));
    let p = polymod_exec(&vals) ^ BECH32M_CONST;
    let r = vec![
        ((p >> 25u32) & 31u32) as u8,
        ((p >> 20u32) & 31u32) as u8,
        ((p >> 15u32) & 31u32) as u8,
        ((p >> 10u32) & 31u32) as u8,
        ((p >> 5u32) & 31u32) as u8,
        (p & 31u32) as u8,
    ];
    assert(r@ =~= checksum(hrp@, data@));
    r
}

/// The string (as bytes) that encodes the 5-bit values `data` under `hrp`.
pub fn encode(hrp: &[u8], data: &[u8]) -> (r: Vec<u8>)
    requires
        all_5bit(data@),
    ensures
        r@ == encoded(hrp@, data@),
{
    let cks = create_checksum(hrp, data);
    proof {
        lemma_checksum_5bit(hrp@, data@);
    }
    let ghost all = data@ + cks@;
    let mut out: Vec<u8> = Vec::new();
    let mut i: usize = 0;
    while i < hrp.len()
        invariant
            i <= hrp.len(),
            out@ == hrp@.subrange(0, i as int),
        decreases hrp.len() - i,
    {
        out.push(hrp[i]);
        assert(out@ =~= hrp@.subrange(0, i as int + 1));
        i += 1;
    }
    assert(hrp@.subrange(0, hrp@.len() as int) =~= hrp@);
    out.push(49u8);
    let ghost head = out@;
    i = 0;
    while i < data.len()
        invariant
            i <= data.len(),
            all == data@ + cks@,
            all_5bit(data@),
            out@ == head + all.subrange(0, i as int).map_values(|v: u8| charset()[v as int]),
        decreases data.len() - i,
    {
        out.push(symbol(data[i]));
        assert(out@ =~= head + all.subrange(0, i as int + 1).map_values(|v: u8| charset()[v as int]));
        i += 1;
    }
    let mut j: usize = 0;
    while j < 6
        invariant
            j <= 6,
            cks@.len() == 6,
            all == data@ + cks@,
            forall|k: int| 0 <= k < 6 ==> #[trigger] cks@[k] < 32,
            out@ == head + all.subrange(0, data@.len() + j).map_values(|v: u8| charset()[v as int]),
        decreases 6 - j,
    {
        out.push(symbol(cks[j]));
        assert(out@ =~= head + all.subrange(0, data@.len() + j + 1).map_values(|v: u8| charset()[v as int]));
        j += 1;
    }
    assert(all.subrange(0, all.len() as int) =~= all);
    assert(out@ =~= encoded(hrp@, data@));
    out
}

pub open spec fn is_upper(c: u8) -> bool {
    65 <= c <= 90
}

pub open spec fn is_lower(c: u8) -> bool {
    97 <= c <= 122
}

pub open spec fn to_lower(c: u8) -> u8 {
    if is_upper(c) { (c + 32) as u8 } else { c }
}

/// The string with uppercase letters turned to lowercase.
pub open spec fn lowercase(s: Seq<u8>) -> Seq<u8> {
    s.map_values(|c: u8| to_lower(c))
}

/// Every byte is a printable ASCII character other than space.
pub open spec fn all_printable(s: Seq<u8>) -> bool {
    forall|i: int| 0 <= i < s.len() ==> 33 <= #[trigger] s[i] <= 126
}

/// The string mixes uppercase and lowercase letters.
pub open spec fn mixed_case(s: Seq<u8>) -> bool {
    (exists|i: int| 0 <= i < s.len() && is_upper(#[trigger] s[i]))
    && (exists|j: int| 0 <= j < s.len() && is_lower(#[trigger] s[j]))
}

/// The index of the last separator `1` among the first `n` bytes, or -1.
pub open spec fn last_sep(s: Seq<u8>, n: int) -> int
    decreases n,
{
    if n <= 0 {
        -1
    } else if s[n - 1] == 49 {
        n - 1
    } else {
        last_sep(s, n - 1)
    }
}

/// Every byte from `lo` on is a symbol.
pub open spec fn all_symbols_from(s: Seq<u8>, lo: int) -> bool {
    forall|i: int| lo <= i < s.len() ==> (#[trigger] symbol_value(s[i])).is_some()
}

/// The values of symbols.
pub open spec fn symbol_values(s: Seq<u8>) -> Seq<u8> {
    s.map_values(|c: u8| symbol_value(c).unwrap())
}

/// What a string decodes to: its lowercase prefix and its 5-bit payload
/// values without the checksum, or nothing when it is not a valid Bech32m
/// string.
pub open spec fn decoded(s: Seq<u8>) -> Option<(Seq<u8>, Seq<u8>)> {
    let low = lowercase(s);
    let sep = last_sep(low, s.len() as int);
    if s.len() > MAX_ENCODED_LEN || !all_printable(s) || mixed_case(s) || sep < 1
        || s.len() - sep - 1 < 6 || !all_symbols_from(low, sep + 1) {
        None
    } else {
        let vals = symbol_values(low.subrange(sep + 1, s.len() as int));
        let data = vals.subrange(0, vals.len() - 6);
        if vals.subrange(vals.len() - 6, vals.len() as int) == checksum(low.subrange(0, sep), data) {
            Some((low.subrange(0, sep), data))
        } else {
            None
        }
    }
}

/// The checks of `decoded` that come before the symbols pass, with the
/// separator at `sep`.
pub open spec fn sep_checked(s: Seq<u8>, sep: int) -> bool {
    &&& all_printable(s)
    &&& !mixed_case(s)
    &&& last_sep(lowercase(s), s.len() as int) == sep
    &&& sep >= 1
    &&& s.len() - sep - 1 >= 6
    &&& s.len() <= MAX_ENCODED_LEN
}

proof fn lemma_last_sep_skip(s: Seq<u8>, lo: int, n: int)
    requires
        0 <= lo <= n <= s.len(),
        forall|k: int| lo <= k < n ==> s[k] != 49,
    ensures
        last_sep(s, n) == last_sep(s, lo),
    decreases n - lo,
{
    if n > lo {
        lemma_last_sep_skip(s, lo, n - 1);
    }
}

/// A string that `encode` produced decodes back to its prefix and payload,
/// for a nonempty prefix of printable, non-uppercase characters.
pub proof fn lemma_decode_encoded(hrp: Seq<u8>, data: Seq<u8>)
    requires
        hrp.len() >= 1,
        all_printable(hrp),
        forall|i: int| 0 <= i < hrp.len() ==> !is_upper(#[trigger] hrp[i]),
        all_5bit(data),
        encoded(hrp, data).len() <= MAX_ENCODED_LEN,
    ensures
        decoded(encoded(hrp, data)) == Some((hrp, data)),
{
    lemma_charset_inverse();
    let s = encoded(hrp, data);
    let cks = checksum(hrp, data);
    let all = data + cks;
    lemma_checksum_5bit(hrp, data);
    assert(all_5bit(all));
    let n = hrp.len() as int;
    assert forall|i: int| 0 <= i < s.len() implies 33 <= #[trigger] s[i] <= 126 && !is_upper(s[i])
        && (i > n ==> s[i] != 49 && symbol_value(s[i]) == Some(all[i - n - 1])) by {
        if i > n {
            assert(s[i] == charset()[all[i - n - 1] as int]);
        }
    }
    assert(!mixed_case(s));
    let low = lowercase(s);
    assert(low =~= s);
    lemma_last_sep_skip(low, n + 1, s.len() as int);
    assert(last_sep(low, n + 1) == n);
    let vals = symbol_values(low.subrange(n + 1, s.len() as int));
    assert(vals =~= all);
    assert(vals.subrange(0, vals.len() - 6) =~= data);
    assert(vals.subrange(vals.len() - 6, vals.len() as int) =~= cks);
    assert(low.subrange(0, n) =~= hrp);
}

/// Decodes a Bech32m string given as bytes into its lowercase prefix and its
/// 5-bit payload values (checksum removed).
pub fn decode(s: &[u8]) -> (r: Option<(Vec<u8>, Vec<u8>)>)
    ensures
        match r {
            None => decoded(s@) is None,
            Some((h, d)) => decoded(s@) == Some((h@, d@)),
        },
{
    let ghost low_spec = lowercase(s@);
    if s.len() > MAX_ENCODED_LEN {
        return None;
    }
    let mut has_upper = false;
    let mut has_lower = false;
    let mut low: Vec<u8> = Vec::new();
    let mut i: usize = 0;
    while i < s.len()
        invariant
            i <= s.len(),
            forall|k: int| 0 <= k < i ==> 33 <= #[trigger] s@[k] <= 126,
            has_upper == exists|k: int| 0 <= k < i && is_upper(#[trigger] s@[k]),
            has_lower == exists|k: int| 0 <= k < i && is_lower(#[trigger] s@[k]),
            low@ == s@.subrange(0, i as int).map_values(|c: u8| to_lower(c)),
        decreases s.len() - i,
    {
        let c = s[i];
        if c < 33 || c > 126 {
            assert(!all_printable(s@));
            return None;
        }
        if 65 <= c && c <= 90 {
            has_upper = true;
            low.push(c + 32);
        } else {
            if 97 <= c && c <= 122 {
                has_lower = true;
            }
            low.push(c);
        }
        assert(low@ =~= s@.subrange(0, i as int + 1).map_values(|c: u8| to_lower(c)));
        i += 1;
    }
    assert(s@.subrange(0, s@.len() as int) =~= s@);
    assert(low@ =~= low_spec);
    if has_upper && has_lower {
        return None;
    }
    // Find the last separator.
    let mut j: usize = low.len();
    while j > 0 && low[j - 1] != 49
        invariant
            j <= low.len(),
            low@ == low_spec,
            low_spec == lowercase(s@),
            low_spec.len() == s@.len(),
            last_sep(low_spec, s@.len() as int) == last_sep(low_spec, j as int),
        decreases j,
    {
        j -= 1;
    }
    if j < 2 || s.len() - j < 6 {
        return None;
    }
    let sep = j - 1;
    assert(last_sep(low_spec, s@.len() as int) == sep);
    assert(all_printable(s@));
    assert(!mixed_case(s@));
    let mut vals: Vec<u8> = Vec::new();
    let mut k: usize = sep + 1;
    while k < low.len()
        invariant
            sep + 1 <= k <= low.len(),
            sep_checked(s@, sep as int),
            low_spec == lowercase(s@),
            low@ == low_spec,
            low_spec == lowercase(s@),
            low_spec.len() == s@.len(),
            forall|m: int| sep + 1 <= m < k ==> (#[trigger] symbol_value(low_spec[m])).is_some(),
            vals@ == symbol_values(low_spec.subrange(sep + 1, k as int)),
        decreases low.len() - k,
    {
        match value_of_symbol(low[k]) {
            None => {
                assert(symbol_value(low_spec[k as int]) is None);
                assert(!all_symbols_from(low_spec, sep + 1));
                return None;
            },
            Some(v) => {
                vals.push(v);
            },
        }
        assert(vals@ =~= symbol_values(low_spec.subrange(sep + 1, k as int + 1)));
        k += 1;
    }
    let mut hrp: Vec<u8> = Vec::new();
    let mut m: usize = 0;
    while m < sep
        invariant
            m <= sep < low.len(),
            sep_checked(s@, sep as int),
            low_spec == lowercase(s@),
            low@ == low_spec,
            low_spec == lowercase(s@),
            hrp@ == low_spec.subrange(0, m as int),
        decreases sep - m,
    {
        hrp.push(low[m]);
        assert(hrp@ =~= low_spec.subrange(0, m as int + 1));
        m += 1;
    }
    let nd = vals.len() - 6;
    let mut data: Vec<u8> = Vec::new();
    let mut t: usize = 0;
    while t < nd
        invariant
            t <= nd,
            sep_checked(s@, sep as int),
            low_spec == lowercase(s@),
            nd + 6 == vals.len(),
            data@ == vals@.subrange(0, t as int),
        decreases nd - t,
    {
        data.push(vals[t]);
        assert(data@ =~= vals@.subrange(0, t as int + 1));
        t += 1;
    }
    let cks = create_checksum(hrp.as_slice(), data.as_slice());
    assert(all_printable(s@));
    assert(!mixed_case(s@));
    assert(all_symbols_from(low_spec, sep + 1));
    assert(data@ =~= vals@.subrange(0, nd as int));
    assert(vals@ == symbol_values(low_spec.subrange(sep + 1, s@.len() as int)));
    let mut q: usize = 0;
    while q < 6
        invariant
            q <= 6,
            sep_checked(s@, sep as int),
            low_spec == lowercase(s@),
            nd + 6 == vals.len(),
            cks@.len() == 6,
            forall|z: int| 0 <= z < q ==> #[trigger] cks@[z] == vals@[nd + z],
            all_symbols_from(low_spec, sep + 1),
            vals@ == symbol_values(low_spec.subrange(sep + 1, s@.len() as int)),
            hrp@ == low_spec.subrange(0, sep as int),
            data@ == vals@.subrange(0, nd as int),
            cks@ == checksum(hrp@, data@),
        decreases 6 - q,
    {
        if cks[q] != vals[nd + q] {
            assert(vals@.subrange(nd as int, vals@.len() as int)[q as int] != cks@[q as int]);
            return None;
        }
        q += 1;
    }
    assert(vals@.subrange(nd as int, vals@.len() as int) =~= cks@);
    Some((hrp, data))
}

/// The checksum residue of `vals` from the state `init`.
pub open spec fn residue(init: u32, vals: Seq<u8>) -> u32
    decreases vals.len(),
{
    if vals.len() == 0 {
        init
    } else {
        polymod_step(residue(init, vals.drop_last()), vals.last())
    }
}

pub open spec fn xor_seq(a: Seq<u8>, b: Seq<u8>) -> Seq<u8> {
    Seq::new(a.len(), |i: int| a[i] ^ b[i])
}

proof fn lemma_polymod_residue(vals: Seq<u8>)
    ensures
        polymod(vals) == residue(1, vals),
    decreases vals.len(),
{
    if vals.len() > 0 {
        lemma_polymod_residue(vals.drop_last());
    }
}

/// The part of a step that the five top bits contribute.
pub open spec fn top_mix(t: u32) -> u32 {
    ((if t & 1u32 != 0 { 0x3b6a_57b2u32 } else { 0u32 }) ^ (if t & 2u32 != 0 { 0x2650_8e6du32 } else { 0u32 }) ^ (if t & 4u32 != 0 { 0x1ea1_19fau32 } else { 0u32 }) ^ (if t & 8u32 != 0 { 0x3d42_33ddu32 } else { 0u32 }) ^ (if t & 16u32 != 0 { 0x2a14_62b3u32 } else { 0u32 }))
}

proof fn lemma_step_split(chk: u32, v: u8)
    ensures
        polymod_step(chk, v) == (((chk & 0x1ff_ffffu32) << 5u32) ^ (v as u32)) ^ top_mix(chk >> 25u32),
{
    let x = v as u32;
    let t = chk >> 25u32;
    assert(({
        let top = chk >> 25u32;
        let c = ((chk & 0x1ff_ffffu32) << 5u32) ^ x;
        let c = if top & 1u32 != 0 { c ^ 0x3b6a_57b2u32 } else { c };
        let c = if top & 2u32 != 0 { c ^ 0x2650_8e6du32 } else { c };
        let c = if top & 4u32 != 0 { c ^ 0x1ea1_19fau32 } else { c };
        let c = if top & 8u32 != 0 { c ^ 0x3d42_33ddu32 } else { c };
        if top & 16u32 != 0 { c ^ 0x2a14_62b3u32 } else { c }
    }) == (((chk & 0x1ff_ffffu32) << 5u32) ^ x) ^ ((if t & 1u32 != 0 { 0x3b6a_57b2u32 } else { 0u32 }) ^ (if t & 2u32 != 0 { 0x2650_8e6du32 } else { 0u32 }) ^ (if t & 4u32 != 0 { 0x1ea1_19fau32 } else { 0u32 }) ^ (if t & 8u32 != 0 { 0x3d42_33ddu32 } else { 0u32 }) ^ (if t & 16u32 != 0 { 0x2a14_62b3u32 } else { 0u32 }))) by (bit_vector)
        requires
            t == chk >> 25u32,
    ;
}

proof fn lemma_step_linear(a: u32, b: u32, v: u8, w: u8)
    ensures
        polymod_step(a ^ b, v ^ w) == polymod_step(a, v) ^ polymod_step(b, w),
{
    lemma_step_split(a, v);
    lemma_step_split(b, w);
    lemma_step_split(a ^ b, v ^ w);
    let (x, y, z) = (v as u32, w as u32, (v ^ w) as u32);
    assert(z == x ^ y) by (bit_vector)
        requires
            x == v as u32 && y == w as u32 && z == (v ^ w) as u32,
    ;
    let (ta, tb, tab) = (a >> 25u32, b >> 25u32, (a ^ b) >> 25u32);
    assert(tab == ta ^ tb) by (bit_vector)
        requires
            ta == a >> 25u32 && tb == b >> 25u32 && tab == (a ^ b) >> 25u32,
    ;
    assert(((if tab & 1u32 != 0 { 0x3b6a_57b2u32 } else { 0u32 }) ^ (if tab & 2u32 != 0 { 0x2650_8e6du32 } else { 0u32 }) ^ (if tab & 4u32 != 0 { 0x1ea1_19fau32 } else { 0u32 }) ^ (if tab & 8u32 != 0 { 0x3d42_33ddu32 } else { 0u32 }) ^ (if tab & 16u32 != 0 { 0x2a14_62b3u32 } else { 0u32 })) == ((if ta & 1u32 != 0 { 0x3b6a_57b2u32 } else { 0u32 }) ^ (if ta & 2u32 != 0 { 0x2650_8e6du32 } else { 0u32 }) ^ (if ta & 4u32 != 0 { 0x1ea1_19fau32 } else { 0u32 }) ^ (if ta & 8u32 != 0 { 0x3d42_33ddu32 } else { 0u32 }) ^ (if ta & 16u32 != 0 { 0x2a14_62b3u32 } else { 0u32 })) ^ ((if tb & 1u32 != 0 { 0x3b6a_57b2u32 } else { 0u32 }) ^ (if tb & 2u32 != 0 { 0x2650_8e6du32 } else { 0u32 }) ^ (if tb & 4u32 != 0 { 0x1ea1_19fau32 } else { 0u32 }) ^ (if tb & 8u32 != 0 { 0x3d42_33ddu32 } else { 0u32 }) ^ (if tb & 16u32 != 0 { 0x2a14_62b3u32 } else { 0u32 }))) by (bit_vector)
        requires
            tab == ta ^ tb,
    ;
    let (ga, gb, gab) = (top_mix(ta), top_mix(tb), top_mix(tab));
    let (la, lb, lab) = ((a & 0x1ff_ffffu32) << 5u32, (b & 0x1ff_ffffu32) << 5u32, ((a ^ b) & 0x1ff_ffffu32) << 5u32);
    assert((lab ^ z) ^ gab == ((la ^ x) ^ ga) ^ ((lb ^ y) ^ gb)) by (bit_vector)
        requires
            la == (a & 0x1ff_ffffu32) << 5u32 && lb == (b & 0x1ff_ffffu32) << 5u32 && lab == ((a ^ b)
                & 0x1ff_ffffu32) << 5u32 && z == x ^ y && gab == ga ^ gb,
    ;
}

proof fn lemma_residue_linear(a: u32, b: u32, s: Seq<u8>, t: Seq<u8>)
    requires
        s.len() == t.len(),
    ensures
        residue(a ^ b, xor_seq(s, t)) == residue(a, s) ^ residue(b, t),
    decreases s.len(),
{
    if s.len() > 0 {
        let st = xor_seq(s, t);
        assert(st.drop_last() =~= xor_seq(s.drop_last(), t.drop_last()));
        lemma_residue_linear(a, b, s.drop_last(), t.drop_last());
        lemma_step_linear(residue(a, s.drop_last()), residue(b, t.drop_last()), s.last(), t.last());
    }
}

proof fn lemma_residue_zeros_from_zero(n: nat)
    ensures
        residue(0, Seq::new(n, |i: int| 0u8)) == 0,
    decreases n,
{
    if n > 0 {
        let z = Seq::new(n, |i: int| 0u8);
        assert(z.drop_last() =~= Seq::new((n - 1) as nat, |i: int| 0u8));
        lemma_residue_zeros_from_zero((n - 1) as nat);
        let q = 0u32;
        let w = 0u8;
        assert(polymod_step(q, w) == 0) by (bit_vector)
            requires
                q == 0u32 && w == 0u8,
        ;
    }
}

proof fn lemma_residue_zeros_nonzero(c: u32, n: nat)
    requires
        c != 0,
        c < 0x4000_0000,
    ensures
        residue(c, Seq::new(n, |i: int| 0u8)) != 0,
        residue(c, Seq::new(n, |i: int| 0u8)) < 0x4000_0000,
    decreases n,
{
    if n > 0 {
        let z = Seq::new(n, |i: int| 0u8);
        assert(z.drop_last() =~= Seq::new((n - 1) as nat, |i: int| 0u8));
        lemma_residue_zeros_nonzero(c, (n - 1) as nat);
        let r = residue(c, z.drop_last());
        let w = 0u8;
        assert(polymod_step(r, w) != 0 && polymod_step(r, w) < 0x4000_0000) by (bit_vector)
            requires
                r != 0 && r < 0x4000_0000 && w == 0u8,
        ;
    }
}

proof fn lemma_residue_append(c: u32, s: Seq<u8>, t: Seq<u8>)
    ensures
        residue(c, s + t) == residue(residue(c, s), t),
    decreases t.len(),
{
    if t.len() == 0 {
        assert(s + t =~= s);
    } else {
        assert((s + t).drop_last() =~= s + t.drop_last());
        lemma_residue_append(c, s, t.drop_last());
    }
}

/// Changing one value of a sequence changes its checksum residue.
proof fn lemma_residue_single_change(x: Seq<u8>, m: int, v: u8)
    requires
        0 <= m < x.len(),
        v < 32,
        x[m] < 32,
        v != x[m],
    ensures
        polymod(x.update(m, v)) != polymod(x),
{
    let y = x.update(m, v);
    lemma_polymod_residue(x);
    lemma_polymod_residue(y);
    let e = xor_seq(y, x);
    lemma_residue_linear(1, 1, y, x);
    let one = 1u32;
    assert(one ^ one == 0) by (bit_vector);
    let d = v ^ x[m];
    let (p, q) = (v, x[m]);
    assert(p ^ q != 0 && p ^ q < 32) by (bit_vector)
        requires
            p != q && p < 32 && q < 32,
    ;
    let before = Seq::new(m as nat, |i: int| 0u8);
    let after = Seq::new((x.len() - m - 1) as nat, |i: int| 0u8);
    assert(e =~= before + seq![d] + after) by {
        assert forall|i: int| 0 <= i < x.len() && i != m implies #[trigger] e[i] == 0u8 by {
            let r = x[i];
            assert(r ^ r == 0) by (bit_vector);
        }
    }
    lemma_residue_append(0, before + seq![d], after);
    lemma_residue_append(0, before, seq![d]);
    lemma_residue_zeros_from_zero(m as nat);
    assert(seq![d].drop_last() =~= Seq::<u8>::empty());
    let zero = 0u32;
    assert(polymod_step(zero, d) == d as u32) by (bit_vector)
        requires
            zero == 0u32 && d < 32,
    ;
    lemma_residue_zeros_nonzero(d as u32, after.len());
    assert(residue(0, before) == 0);
    assert(seq![d].last() == d);
    assert(residue(0, seq![d].drop_last()) == 0);
    assert(residue(0, seq![d]) == polymod_step(0, d));
    assert(residue(0, before + seq![d]) == d as u32);
    assert(residue(0, e) == residue(d as u32, after));
    assert(residue(0, e) != 0);
    assert(residue(one ^ one, e) == residue(1, y) ^ residue(1, x));
    let (ry, rx) = (residue(1, y), residue(1, x));
    assert(ry ^ rx != 0 ==> ry != rx) by (bit_vector);
}

/// Checksum values differ when the residues they come from differ.
proof fn lemma_checksum_separates(hrp: Seq<u8>, d1: Seq<u8>, d2: Seq<u8>)
    requires
        polymod(checksum_input(hrp, d1)) != polymod(checksum_input(hrp, d2)),
    ensures
        checksum(hrp, d1) != checksum(hrp, d2),
{
    let a = polymod(checksum_input(hrp, d1));
    let b = polymod(checksum_input(hrp, d2));
    lemma_polymod_bound(checksum_input(hrp, d1));
    lemma_polymod_bound(checksum_input(hrp, d2));
    let k = BECH32M_CONST;
    let (p, q) = (a ^ k, b ^ k);
    assert(p != q) by (bit_vector)
        requires
            a != b && p == a ^ k && q == b ^ k,
    ;
    assert(p < 0x4000_0000 && q < 0x4000_0000) by (bit_vector)
        requires
            a < 0x4000_0000 && b < 0x4000_0000 && k == 0x2bc8_30a3u32 && p == a ^ k && q == b ^ k,
    ;
    assert(!(((p >> 25u32) & 31u32) as u8 == ((q >> 25u32) & 31u32) as u8 && ((p >> 20u32) & 31u32) as u8
        == ((q >> 20u32) & 31u32) as u8 && ((p >> 15u32) & 31u32) as u8 == ((q >> 15u32) & 31u32) as u8
        && ((p >> 10u32) & 31u32) as u8 == ((q >> 10u32) & 31u32) as u8 && ((p >> 5u32) & 31u32) as u8
        == ((q >> 5u32) & 31u32) as u8 && (p & 31u32) as u8 == (q & 31u32) as u8))
        by (bit_vector)
        requires
            p != q && p < 0x4000_0000 && q < 0x4000_0000,
    ;
    let c1 = checksum(hrp, d1);
    let c2 = checksum(hrp, d2);
    if c1 == c2 {
        assert(c1[0] == c2[0] && c1[1] == c2[1] && c1[2] == c2[2] && c1[3] == c2[3] && c1[4] == c2[4]
            && c1[5] == c2[5]);
    }
}

proof fn lemma_polymod_bound(vals: Seq<u8>)
    ensures
        polymod(vals) < 0x4000_0000,
    decreases vals.len(),
{
    if vals.len() > 0 {
        lemma_polymod_bound(vals.drop_last());
        let r = polymod(vals.drop_last());
        let v = vals.last();
        assert(polymod_step(r, v) < 0x4000_0000) by (bit_vector)
            requires
                r < 0x4000_0000,
        ;
    } else {
        assert(polymod(vals) == 1);
    }
}

/// Replacing one symbol of the payload or of the checksum in an encoded
/// string by another symbol is always detected: the result does not decode.
pub proof fn lemma_symbol_substitution_detected(hrp: Seq<u8>, data: Seq<u8>, k: int, v: u8)
    requires
        hrp.len() >= 1,
        all_printable(hrp),
        forall|i: int| 0 <= i < hrp.len() ==> !is_upper(#[trigger] hrp[i]),
        all_5bit(data),
        encoded(hrp, data).len() <= MAX_ENCODED_LEN,
        0 <= k < data.len() + 6,
        v < 32,
        v != (data + checksum(hrp, data))[k],
    ensures
        decoded(encoded(hrp, data).update(hrp.len() + 1 + k, charset()[v as int])) is None,
{
    lemma_charset_inverse();
    let cks = checksum(hrp, data);
    let all = data + cks;
    lemma_checksum_5bit(hrp, data);
    assert(all_5bit(all));
    let all2 = all.update(k, v);
    let n = hrp.len() as int;
    let s = encoded(hrp, data).update(n + 1 + k, charset()[v as int]);
    assert(s =~= hrp + seq![49u8] + all2.map_values(|c: u8| charset()[c as int]));
    assert forall|i: int| 0 <= i < s.len() implies 33 <= #[trigger] s[i] <= 126 && !is_upper(s[i])
        && (i > n ==> s[i] != 49 && symbol_value(s[i]) == Some(all2[i - n - 1])) by {
        if i > n {
            assert(s[i] == charset()[all2[i - n - 1] as int]);
        }
    }
    assert(!mixed_case(s));
    let low = lowercase(s);
    assert(low =~= s);
    lemma_last_sep_skip(low, n + 1, s.len() as int);
    assert(last_sep(low, n + 1) == n);
    let vals = symbol_values(low.subrange(n + 1, s.len() as int));
    assert(vals =~= all2);
    assert(low.subrange(0, n) =~= hrp);
    let dl = data.len() as int;
    if k >= dl {
        assert(vals.subrange(0, vals.len() - 6) =~= data);
        assert(vals.subrange(vals.len() - 6, vals.len() as int)[k - dl] != cks[k - dl]);
    } else {
        let data2 = data.update(k, v);
        assert(vals.subrange(0, vals.len() - 6) =~= data2);
        assert(vals.subrange(vals.len() - 6, vals.len() as int) =~= cks);
        let x = checksum_input(hrp, data);
        let m = hrp_expand(hrp).len() + k;
        assert(checksum_input(hrp, data2) =~= x.update(m, v));
        assert(x[m] == data[k]);
        lemma_residue_single_change(x, m, v);
        lemma_checksum_separates(hrp, data2, data);
    }
}

} // verus!
