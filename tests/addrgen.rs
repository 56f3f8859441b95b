use juno_addrgen::tlv::TlvItem;
use juno_addrgen::zip316::{decode_single_tlv_container, encode_container, encode_unified_container};
use juno_addrgen::{
    derive_address_from_ufvk, derive_addresses_from_ufvk, map_zip316_err, ErrorCode, HRP_JUNO_UA,
    HRP_JUNO_UA_REGTEST, HRP_JUNO_UA_TESTNET, HRP_JUNO_UFVK, HRP_JUNO_UFVK_REGTEST,
    HRP_JUNO_UFVK_TESTNET, JUNO_COIN_TYPE, MAX_BATCH_COUNT, TYPECODE_ORCHARD,
};
use juno_addrgen::zip316::Zip316Error;
use orchard::keys::{FullViewingKey, Scope, SpendingKey};
use zip32::AccountId;

fn fvk_from_seed(byte: u8) -> FullViewingKey {
    let seed = [byte; 64];
    let account = AccountId::try_from(0).expect("account");
    let sk = SpendingKey::from_zip32_seed(&seed, JUNO_COIN_TYPE, account).expect("sk");
    FullViewingKey::from(&sk)
}

fn ufvk_from_seed(byte: u8) -> String {
    let fvk = fvk_from_seed(byte);
    encode_unified_container(HRP_JUNO_UFVK, TYPECODE_ORCHARD, &fvk.to_bytes()).expect("ufvk")
}

#[test]
fn derives_address_from_generated_ufvk() {
    let seed = [7u8; 64];
    let account = AccountId::try_from(0).expect("account");
    let sk = SpendingKey::from_zip32_seed(&seed, JUNO_COIN_TYPE, account).expect("sk");
    let fvk = FullViewingKey::from(&sk);

    let ufvk = encode_unified_container(HRP_JUNO_UFVK, TYPECODE_ORCHARD, &fvk.to_bytes()).expect("ufvk");

    let got = derive_address_from_ufvk(&ufvk, 0).expect("addr");

    let expected_raw = fvk.address_at(0u32, Scope::External).to_raw_address_bytes();
    let expected = encode_unified_container(HRP_JUNO_UA, TYPECODE_ORCHARD, &expected_raw).expect("expected");

    assert_eq!(got, expected);
}

#[test]
fn batch_matches_single_derivation() {
    let seed = [9u8; 64];
    let account = AccountId::try_from(0).expect("account");
    let sk = SpendingKey::from_zip32_seed(&seed, JUNO_COIN_TYPE, account).expect("sk");
    let fvk = FullViewingKey::from(&sk);

    let ufvk = encode_unified_container(HRP_JUNO_UFVK, TYPECODE_ORCHARD, &fvk.to_bytes()).expect("ufvk");

    let single = derive_address_from_ufvk(&ufvk, 5).expect("single");
    let batch = derive_addresses_from_ufvk(&ufvk, 5, 1).expect("batch");
    assert_eq!(batch, vec![single]);
}

#[test]
fn batch_of_one_near_top_index_matches_single() {
    let ufvk = ufvk_from_seed(3);
    let i = u32::MAX - 1;
    let single = derive_address_from_ufvk(&ufvk, i).expect("single");
    let batch = derive_addresses_from_ufvk(&ufvk, i, 1).expect("batch");
    assert_eq!(batch, vec![single]);
}

#[test]
fn batch_is_in_index_order() {
    let ufvk = ufvk_from_seed(4);
    let batch = derive_addresses_from_ufvk(&ufvk, 10, 4).expect("batch");
    assert_eq!(batch.len(), 4);
    for (k, addr) in batch.iter().enumerate() {
        let single = derive_address_from_ufvk(&ufvk, 10 + k as u32).expect("single");
        assert_eq!(addr, &single);
    }
    assert_ne!(batch[0], batch[1]);
}

#[test]
fn end_to_end_fixed_seed_is_deterministic() {
    let fvk = fvk_from_seed(7);
    let ufvk = ufvk_from_seed(7);
    assert_eq!(ufvk, ufvk_from_seed(7));
    assert!(ufvk.starts_with("jview1"));
    let first = derive_address_from_ufvk(&ufvk, 0).expect("addr");
    assert_eq!(first, derive_address_from_ufvk(&ufvk, 0).expect("addr again"));
    assert!(first.starts_with("j1"));
    let (tc, raw) = decode_single_tlv_container(HRP_JUNO_UA, &first).expect("decode address");
    assert_eq!(tc, TYPECODE_ORCHARD);
    assert_eq!(raw, fvk.address_at(0u32, Scope::External).to_raw_address_bytes().to_vec());
}

#[test]
fn surrounding_white_space_is_ignored() {
    let ufvk = ufvk_from_seed(7);
    let padded = format!("  \t{}\n ", ufvk);
    assert_eq!(
        derive_address_from_ufvk(&padded, 2).expect("padded"),
        derive_address_from_ufvk(&ufvk, 2).expect("plain")
    );
}

#[test]
fn count_zero_is_rejected() {
    let ufvk = ufvk_from_seed(7);
    assert_eq!(derive_addresses_from_ufvk(&ufvk, 0, 0), Err(ErrorCode::CountZero));
}

#[test]
fn count_over_bound_is_rejected() {
    let ufvk = ufvk_from_seed(7);
    assert_eq!(
        derive_addresses_from_ufvk(&ufvk, 0, MAX_BATCH_COUNT + 1),
        Err(ErrorCode::CountTooLarge)
    );
}

#[test]
fn range_overflow_is_rejected() {
    let ufvk = ufvk_from_seed(7);
    assert_eq!(derive_addresses_from_ufvk(&ufvk, u32::MAX, 2), Err(ErrorCode::RangeOverflow));
}

#[test]
fn batch_policy_checks_come_before_decoding() {
    assert_eq!(derive_addresses_from_ufvk("", 0, 0), Err(ErrorCode::CountZero));
    assert_eq!(derive_addresses_from_ufvk("", 1, 1), Err(ErrorCode::UfvkEmpty));
}

#[test]
fn empty_input_is_rejected() {
    assert_eq!(derive_address_from_ufvk("", 0), Err(ErrorCode::UfvkEmpty));
    assert_eq!(derive_address_from_ufvk(" \t\n ", 0), Err(ErrorCode::UfvkEmpty));
}

#[test]
fn short_orchard_value_is_rejected() {
    let s = encode_unified_container(HRP_JUNO_UFVK, TYPECODE_ORCHARD, &[5u8; 95]).expect("container");
    assert_eq!(derive_address_from_ufvk(&s, 0), Err(ErrorCode::UfvkValueLenInvalid));
}

#[test]
fn garbage_input_is_not_bech32m() {
    assert_eq!(derive_address_from_ufvk("not a key", 0), Err(ErrorCode::UfvkInvalidBech32m));
}

#[test]
fn address_is_not_a_viewing_key() {
    let ufvk = ufvk_from_seed(7);
    let addr = derive_address_from_ufvk(&ufvk, 0).expect("addr");
    assert_eq!(derive_address_from_ufvk(&addr, 0), Err(ErrorCode::UfvkHrpMismatch));
}

#[test]
fn unknown_typecode_alone_is_unsupported() {
    let s = encode_unified_container(HRP_JUNO_UFVK, 0x02, &[1u8; 96]).expect("container");
    assert_eq!(derive_address_from_ufvk(&s, 0), Err(ErrorCode::UfvkTypecodeUnsupported));
}

#[test]
fn invalid_key_bytes_are_rejected() {
    let s = encode_unified_container(HRP_JUNO_UFVK, TYPECODE_ORCHARD, &[0xffu8; 96]).expect("container");
    assert_eq!(derive_address_from_ufvk(&s, 0), Err(ErrorCode::UfvkFvkBytesInvalid));
}

#[test]
fn other_items_are_skipped_in_any_order() {
    let fvk = fvk_from_seed(7);
    let key = TlvItem { typecode: TYPECODE_ORCHARD, value: fvk.to_bytes().to_vec() };
    let other_a = TlvItem { typecode: 0x02, value: vec![9u8; 43] };
    let other_b = TlvItem { typecode: 0xffff_fff0, value: vec![1u8, 2, 3] };
    let alone = derive_address_from_ufvk(&ufvk_from_seed(7), 3).expect("alone");
    for items in [
        vec![other_a.clone(), key.clone(), other_b.clone()],
        vec![key.clone(), other_b.clone(), other_a.clone()],
        vec![other_b.clone(), other_a.clone(), key.clone()],
    ] {
        let s = encode_container(HRP_JUNO_UFVK, &items).expect("container");
        assert_eq!(derive_address_from_ufvk(&s, 3).expect("with others"), alone);
    }
}

#[test]
fn two_orchard_items_are_rejected() {
    let fvk = fvk_from_seed(7);
    let same = TlvItem { typecode: TYPECODE_ORCHARD, value: fvk.to_bytes().to_vec() };
    let other = TlvItem { typecode: TYPECODE_ORCHARD, value: fvk_from_seed(8).to_bytes().to_vec() };
    for items in [vec![same.clone(), same.clone()], vec![same.clone(), other.clone()]] {
        let s = encode_container(HRP_JUNO_UFVK, &items).expect("container");
        assert_eq!(derive_address_from_ufvk(&s, 0), Err(ErrorCode::UfvkTlvInvalid));
    }
}

#[test]
fn each_network_pairs_key_and_address_prefixes() {
    let fvk = fvk_from_seed(7);
    let raw = fvk.address_at(1u32, Scope::External).to_raw_address_bytes();
    for (ufvk_hrp, ua_hrp) in [
        (HRP_JUNO_UFVK, HRP_JUNO_UA),
        (HRP_JUNO_UFVK_TESTNET, HRP_JUNO_UA_TESTNET),
        (HRP_JUNO_UFVK_REGTEST, HRP_JUNO_UA_REGTEST),
    ] {
        let ufvk = encode_unified_container(ufvk_hrp, TYPECODE_ORCHARD, &fvk.to_bytes()).expect("ufvk");
        let addr = derive_address_from_ufvk(&ufvk, 1).expect("addr");
        assert!(addr.starts_with(&format!("{}1", ua_hrp)));
        let expected = encode_unified_container(ua_hrp, TYPECODE_ORCHARD, &raw).expect("expected");
        assert_eq!(addr, expected);
    }
}

#[test]
fn error_codes_have_stable_text() {
    let all = [
        (ErrorCode::UfvkEmpty, "ufvk_empty"),
        (ErrorCode::UfvkInvalidBech32m, "ufvk_invalid_bech32m"),
        (ErrorCode::UfvkHrpMismatch, "ufvk_hrp_mismatch"),
        (ErrorCode::UfvkTlvInvalid, "ufvk_tlv_invalid"),
        (ErrorCode::UfvkTypecodeUnsupported, "ufvk_typecode_unsupported"),
        (ErrorCode::UfvkValueLenInvalid, "ufvk_value_len_invalid"),
        (ErrorCode::UfvkFvkBytesInvalid, "ufvk_fvk_bytes_invalid"),
        (ErrorCode::CountZero, "count_zero"),
        (ErrorCode::CountTooLarge, "count_too_large"),
        (ErrorCode::RangeOverflow, "range_overflow"),
        (ErrorCode::Internal, "internal"),
    ];
    for (code, text) in all {
        assert_eq!(code.as_str(), text);
    }
}

#[test]
fn container_errors_map_to_codes() {
    assert_eq!(map_zip316_err(Zip316Error::Bech32DecodeFailed), ErrorCode::UfvkInvalidBech32m);
    assert_eq!(map_zip316_err(Zip316Error::InvalidHrp), ErrorCode::UfvkInvalidBech32m);
    assert_eq!(map_zip316_err(Zip316Error::PayloadTooShort), ErrorCode::UfvkInvalidBech32m);
    assert_eq!(map_zip316_err(Zip316Error::PaddingInvalid), ErrorCode::UfvkInvalidBech32m);
    assert_eq!(map_zip316_err(Zip316Error::F4JumbleFailed), ErrorCode::UfvkInvalidBech32m);
    assert_eq!(map_zip316_err(Zip316Error::HrpMismatch), ErrorCode::UfvkHrpMismatch);
    assert_eq!(map_zip316_err(Zip316Error::TlvInvalid), ErrorCode::UfvkTlvInvalid);
    assert_eq!(map_zip316_err(Zip316Error::TlvTrailingBytes), ErrorCode::UfvkTlvInvalid);
    assert_eq!(map_zip316_err(Zip316Error::HrpTooLong), ErrorCode::Internal);
    assert_eq!(map_zip316_err(Zip316Error::Bech32EncodeFailed), ErrorCode::Internal);
}
