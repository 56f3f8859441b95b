use juno_addrgen::bech32m;
use juno_addrgen::f4jumble::{jumble, unjumble};
use juno_addrgen::groups::{bytes_to_groups, groups_to_bytes};
use juno_addrgen::tlv::{parse_items_exec, read_compact, serialize_items, write_compact, TlvItem};
use juno_addrgen::zip316::{
    decode_container, decode_single_tlv_container, encode_container, encode_unified_container,
    Zip316Error,
};

fn sample_items() -> Vec<TlvItem> {
    vec![
        TlvItem { typecode: 0x03, value: (0u8..96).collect() },
        TlvItem { typecode: 0xffff_0000_1234, value: vec![0xab; 300] },
        TlvItem { typecode: 0x02, value: vec![] },
    ]
}

/// Builds a container string by hand, with the padding of `pad_hrp`.
fn container_with_padding(hrp: &str, pad_hrp: &str, body: &[u8]) -> String {
    let mut raw = body.to_vec();
    let mut pad = pad_hrp.as_bytes().to_vec();
    pad.resize(16, 0);
    raw.extend_from_slice(&pad);
    let j = jumble(&raw).expect("jumble");
    let g = bytes_to_groups(&j);
    String::from_utf8(bech32m::encode(hrp.as_bytes(), &g)).expect("ascii")
}

#[test]
fn container_round_trip_keeps_items_and_order() {
    let items = sample_items();
    let s = encode_container("jviewtest", &items).expect("encode");
    let (idx, back) = decode_container(&["jview", "jviewtest", "jviewregtest"], &s).expect("decode");
    assert_eq!(idx, 1);
    assert_eq!(back, items);
}

#[test]
fn uppercase_container_decodes() {
    let s = encode_unified_container("jview", 3, &[4u8; 96]).expect("encode");
    let upper = s.to_uppercase();
    assert_eq!(decode_single_tlv_container("jview", &upper).expect("decode"), (3, vec![4u8; 96]));
}

#[test]
fn every_single_character_change_is_detected() {
    let s = encode_unified_container("jview", 3, &[42u8; 96]).expect("encode");
    let bytes = s.as_bytes().to_vec();
    for pos in 0..bytes.len() {
        for replacement in [b'q', b'p', b'x', b'7'] {
            if bytes[pos] == replacement {
                continue;
            }
            let mut changed = bytes.clone();
            changed[pos] = replacement;
            let t = String::from_utf8(changed).expect("ascii");
            assert!(decode_single_tlv_container("jview", &t).is_err(), "position {}", pos);
        }
    }
}

#[test]
fn permutation_inverts_and_separates_inputs() {
    for len in [48usize, 49, 127, 128, 129, 300] {
        let x: Vec<u8> = (0..len).map(|i| (i * 7 % 251) as u8).collect();
        let y = jumble(&x).expect("jumble");
        assert_eq!(y.len(), len);
        assert_ne!(y, x);
        assert_eq!(unjumble(&y).expect("unjumble"), x);
        assert_eq!(jumble(&unjumble(&x).expect("unjumble")).expect("jumble"), x);
        let mut x2 = x.clone();
        x2[len - 1] ^= 1;
        let y2 = jumble(&x2).expect("jumble");
        assert_ne!(y, y2);
        assert_ne!(y[0], y2[0]);
    }
}

#[test]
fn permutation_rejects_out_of_range_lengths() {
    assert!(jumble(&[0u8; 47]).is_none());
    assert!(unjumble(&[0u8; 47]).is_none());
    assert!(jumble(&vec![0u8; 4194369]).is_none());
}

#[test]
fn bech32m_reference_strings() {
    assert_eq!(bech32m::decode(b"a1lqfn3a"), Some((b"a".to_vec(), vec![])));
    assert_eq!(bech32m::decode(b"A1LQFN3A"), Some((b"a".to_vec(), vec![])));
    assert_eq!(bech32m::encode(b"a", &[]), b"a1lqfn3a".to_vec());
    let long = b"abcdef1l7aum6echk45nj3s0wdvt2fg8x9yrzpqzd3ryx";
    let (h, d) = bech32m::decode(long).expect("valid");
    assert_eq!(h, b"abcdef".to_vec());
    assert_eq!(d, (0u8..32).rev().collect::<Vec<u8>>());
    assert_eq!(bech32m::encode(&h, &d), long.to_vec());
}

#[test]
fn bech32m_rejects_bad_strings() {
    assert_eq!(bech32m::decode(b"a1lqfn3A"), None);
    assert_eq!(bech32m::decode(b"a1lqfn3q"), None);
    assert_eq!(bech32m::decode(b"1qqqqqqq"), None);
    assert_eq!(bech32m::decode(b"a1qqqqq"), None);
    assert_eq!(bech32m::decode(b"a1lqfnba"), None);
    assert_eq!(bech32m::decode(b"a 1lqfn3a"), None);
}

#[test]
fn regrouping_exact_values() {
    assert_eq!(bytes_to_groups(&[0xff]), vec![31, 28]);
    assert_eq!(bytes_to_groups(&[0, 0, 0, 0, 1]), vec![0, 0, 0, 0, 0, 0, 0, 1]);
    assert_eq!(groups_to_bytes(&[31, 28]), Some(vec![0xff]));
    assert_eq!(groups_to_bytes(&[31, 29]), None);
    assert_eq!(groups_to_bytes(&[31]), None);
    for n in 0..12usize {
        let b: Vec<u8> = (0..n).map(|i| (i * 37 + 11) as u8).collect();
        assert_eq!(groups_to_bytes(&bytes_to_groups(&b)), Some(b));
    }
}

#[test]
fn compact_size_exact_values() {
    let mut out = Vec::new();
    write_compact(&mut out, 252);
    write_compact(&mut out, 253);
    write_compact(&mut out, 0x1_0000);
    write_compact(&mut out, 0x1_0000_0000);
    assert_eq!(
        out,
        vec![252, 0xfd, 0xfd, 0x00, 0xfe, 0x00, 0x00, 0x01, 0x00, 0xff, 0, 0, 0, 0, 1, 0, 0, 0]
    );
    assert_eq!(read_compact(&out, 0), Some((252, 1)));
    assert_eq!(read_compact(&out, 1), Some((253, 3)));
    assert_eq!(read_compact(&out, 4), Some((0x1_0000, 5)));
    assert_eq!(read_compact(&out, 9), Some((0x1_0000_0000, 9)));
    assert_eq!(read_compact(&[0xfd, 0x10, 0x00], 0), None);
    assert_eq!(read_compact(&[0xfd, 0x10], 0), None);
}

#[test]
fn tlv_exact_bytes_and_structural_errors() {
    let items = vec![TlvItem { typecode: 3, value: vec![0xaa] }, TlvItem { typecode: 300, value: vec![] }];
    let bytes = serialize_items(&items);
    assert_eq!(bytes, vec![3, 1, 0xaa, 0xfd, 0x2c, 0x01, 0]);
    assert_eq!(parse_items_exec(&bytes), Some(items));
    assert_eq!(parse_items_exec(&[3, 2, 0xaa]), None);
    assert_eq!(parse_items_exec(&[3]), None);
    assert_eq!(parse_items_exec(&[0xfd, 0x03, 0x00, 0]), None);
    assert_eq!(parse_items_exec(&[]), Some(vec![]));
}

#[test]
fn encode_errors() {
    assert_eq!(encode_unified_container("jviewjviewjviewjv", 3, &[0u8; 96]), Err(Zip316Error::HrpTooLong));
    assert_eq!(encode_unified_container("", 3, &[0u8; 96]), Err(Zip316Error::InvalidHrp));
    assert_eq!(encode_unified_container("JVIEW", 3, &[0u8; 96]), Err(Zip316Error::InvalidHrp));
    assert_eq!(encode_unified_container("jview", 3, &[0u8; 10]), Err(Zip316Error::F4JumbleFailed));
    assert_eq!(encode_unified_container("jview", 3, &[0u8; 700]), Err(Zip316Error::Bech32EncodeFailed));
}

#[test]
fn decode_errors() {
    let s = encode_unified_container("jview", 3, &[1u8; 96]).expect("encode");
    let mut broken = s.clone().into_bytes();
    let last = broken.len() - 1;
    broken[last] = if broken[last] == b'q' { b'p' } else { b'q' };
    let broken = String::from_utf8(broken).expect("ascii");
    assert_eq!(decode_container(&["jview"], &broken).unwrap_err(), Zip316Error::Bech32DecodeFailed);
    assert_eq!(decode_container(&["j", "jtest"], &s).unwrap_err(), Zip316Error::HrpMismatch);

    let short = String::from_utf8(bech32m::encode(b"jview", &bytes_to_groups(&[0u8; 20]))).expect("ascii");
    assert_eq!(decode_container(&["jview"], &short).unwrap_err(), Zip316Error::PayloadTooShort);

    let body = [3u8, 40].iter().copied().chain([7u8; 40]).collect::<Vec<u8>>();
    let wrong_pad = container_with_padding("jview", "jtest", &body);
    assert_eq!(decode_container(&["jview"], &wrong_pad).unwrap_err(), Zip316Error::PaddingInvalid);
    let right_pad = container_with_padding("jview", "jview", &body);
    assert_eq!(decode_single_tlv_container("jview", &right_pad), Ok((3, vec![7u8; 40])));

    let bad_body = [3u8, 200].iter().copied().chain([0u8; 38]).collect::<Vec<u8>>();
    let bad_tlv = container_with_padding("jview", "jview", &bad_body);
    assert_eq!(decode_container(&["jview"], &bad_tlv).unwrap_err(), Zip316Error::TlvInvalid);

    let long_hrp = String::from_utf8(bech32m::encode(b"jviewjviewjviewjv", &bytes_to_groups(&[0u8; 60]))).expect("ascii");
    assert_eq!(decode_container(&["jviewjviewjviewjv"], &long_hrp).unwrap_err(), Zip316Error::InvalidHrp);
}

#[test]
fn single_item_form_counts_items() {
    let two = vec![TlvItem { typecode: 3, value: vec![1u8; 50] }, TlvItem { typecode: 4, value: vec![2u8; 5] }];
    let s = encode_container("jview", &two).expect("encode");
    assert_eq!(decode_single_tlv_container("jview", &s), Err(Zip316Error::TlvTrailingBytes));
}
