use miden_protocol::account::AccountId;
use miden_tools::codecs::{AccountIdCodec, AssetCodec, TypedError};
use miden_tools::felt::{Felt, MODULUS};
use miden_tools::number::{decimal_text, parse_u64, NumberError};

const ACCOUNT_ID_PUBLIC_FUNGIBLE_FAUCET: u128 =
    (0xaa00_0000_0000_bc11_u128 << 64) | 0x0000_bc00_0000_de00;

fn hex(id: u128) -> String {
    AccountId::try_from(id).unwrap().to_hex()
}

fn faucet_token(amount: u64) -> String {
    format!("{amount}::{}", hex(ACCOUNT_ID_PUBLIC_FUNGIBLE_FAUCET))
}

fn felt(value: u64) -> Felt {
    Felt::new(value).unwrap()
}

#[test]
fn account_id_one_hex_token_roundtrips() {
    let codec = AccountIdCodec;
    let hex = "0xaa0000000000bb110000cc000000dd";

    let id = AccountId::from_hex(hex).unwrap();
    let expected = [
        felt(id.prefix().as_felt().as_canonical_u64()),
        felt(id.suffix().as_canonical_u64()),
    ];
    assert_eq!(codec.encode(hex).unwrap(), expected);

    assert_eq!(codec.decode(&expected).unwrap(), format!("account-id({hex})"));
}

#[test]
fn felts_that_are_not_an_account_id_are_rejected() {
    let err = AccountIdCodec.decode(&[Felt::from(1u32), Felt::from(2u32)]).unwrap_err();
    assert!(matches!(err, TypedError::MalformedResult { .. }));
}

#[test]
fn invalid_account_id_token_is_rejected() {
    let err = AccountIdCodec.encode("not-hex").unwrap_err();
    assert!(matches!(err, TypedError::InvalidScalar { .. }));
}

#[test]
fn a_fungible_asset_token_roundtrips() {
    let token = faucet_token(100);

    let felts = AssetCodec.encode(&token).unwrap();
    assert_eq!(felts.len(), 8);

    assert_eq!(AssetCodec.decode(&felts).unwrap(), format!("asset({token})"));
}

#[test]
fn a_token_with_a_single_colon_is_rejected() {
    let err = AssetCodec.encode(&faucet_token(100).replace("::", ":")).unwrap_err();
    assert!(matches!(err, TypedError::InvalidScalar { .. }));
}

#[test]
fn a_token_in_the_reverse_order_is_rejected() {
    let token = format!("{}::100", hex(ACCOUNT_ID_PUBLIC_FUNGIBLE_FAUCET));
    let err = AssetCodec.encode(&token).unwrap_err();
    assert!(matches!(err, TypedError::InvalidScalar { .. }));
}

#[test]
fn felts_that_are_not_an_asset_are_rejected() {
    let felts: Vec<Felt> = (1..=8u32).map(Felt::from).collect();
    let err = AssetCodec.decode(&felts).unwrap_err();
    assert!(matches!(err, TypedError::MalformedResult { .. }));
}

#[test]
fn a_felt_count_other_than_eight_is_rejected() {
    let felts = AssetCodec.encode(&faucet_token(100)).unwrap();

    for len in [0, 4, 7] {
        let err = AssetCodec.decode(&felts[..len]).unwrap_err();
        assert!(matches!(err, TypedError::MalformedResult { .. }), "len {len} was accepted");
    }
}

#[test]
fn codecs_name_their_types() {
    assert_eq!(AccountIdCodec.wit_name(), "account-id");
    assert_eq!(AssetCodec.wit_name(), "asset");
    assert_eq!(AccountIdCodec.wit_interface(), Some("miden:base/core-types"));
    assert_eq!(AssetCodec.wit_interface(), Some("miden:base/core-types"));
}

#[test]
fn account_ids_are_encoded_exactly() {
    let felts = AccountIdCodec.encode("0xAA0000000000BB110000cc000000dd").unwrap();
    assert_eq!(felts, vec![felt(0xaa00_0000_0000_bb11), felt(0x0000_cc00_0000_dd00)]);
    assert_eq!(
        AccountIdCodec.decode(&felts).unwrap(),
        "account-id(0xaa0000000000bb110000cc000000dd)"
    );
}

#[test]
fn account_id_errors_say_why() {
    match AccountIdCodec.encode("not-hex").unwrap_err() {
        TypedError::InvalidScalar { wit_name, token, reason } => {
            assert_eq!(wit_name, "account-id");
            assert_eq!(token, "not-hex");
            assert_eq!(reason, AccountId::from_hex("not-hex").unwrap_err().to_string());
        },
        other => panic!("{other:?}"),
    }
    match AccountIdCodec.decode(&[]).unwrap_err() {
        TypedError::MalformedResult { ty, reason } => {
            assert_eq!(ty, "account-id");
            assert_eq!(reason, "an account id occupies exactly two felts");
        },
        other => panic!("{other:?}"),
    }
    match AccountIdCodec.decode(&[Felt::from(1u32), Felt::from(2u32)]).unwrap_err() {
        TypedError::MalformedResult { reason, .. } => {
            assert_eq!(reason, "the felts are not a valid account id");
        },
        other => panic!("{other:?}"),
    }
}

#[test]
fn account_ids_are_valid_as_the_protocol_says() {
    let prefixes = [0, 1, 2, 0x11, 0x21, MODULUS - 1, MODULUS - 16, 0x7fff_ffff_ffff_fff1];
    let suffixes = [0, 1, 0x100, 0x80, 1 << 63, (1 << 63) - 256, (1 << 63) - 1];
    for prefix in prefixes {
        for suffix in suffixes {
            let outside = AccountId::try_from_elements(
                miden_protocol::Felt::new(suffix).unwrap(),
                miden_protocol::Felt::new(prefix).unwrap(),
            );
            let text = AccountIdCodec.decode(&[felt(prefix), felt(suffix)]);
            assert_eq!(outside.is_ok(), text.is_ok(), "{prefix:x} {suffix:x}");
            let own = miden_tools::account::AccountId::new(prefix, suffix);
            assert_eq!(outside.is_ok(), own.is_some());
            if let (Ok(id), Some(own)) = (outside, own) {
                assert_eq!(own.to_hex(), id.to_hex());
                assert_eq!(own.is_public(), id.is_public());
            }
        }
    }
}

#[test]
fn fungible_assets_are_encoded_exactly() {
    let felts = AssetCodec.encode(&faucet_token(100)).unwrap();
    let expected: Vec<Felt> = [0, 0, 0x0000_bc00_0000_de01, 0xaa00_0000_0000_bc11, 100, 0, 0, 0]
        .iter()
        .map(|value| felt(*value))
        .collect();
    assert_eq!(felts, expected);
}

#[test]
fn asset_errors_say_why() {
    let id = hex(ACCOUNT_ID_PUBLIC_FUNGIBLE_FAUCET);
    let too_much = 9_223_372_034_707_292_161_u64;
    let amount_refused = miden_protocol::asset::FungibleAsset::new(
        AccountId::from_hex(&id).unwrap(),
        too_much,
    )
    .unwrap_err()
    .to_string();
    let id_refused = AccountId::from_hex("0x1").unwrap_err().to_string();
    for (token, expected) in [
        ("100".to_string(), "expected `<AMOUNT>::<FAUCET_ID>`".to_string()),
        (format!("::{id}"), "invalid amount: cannot parse integer from empty string".to_string()),
        (format!("1x::{id}"), "invalid amount: invalid digit found in string".to_string()),
        (
            format!("18446744073709551616::{id}"),
            "invalid amount: number too large to fit in target type".to_string(),
        ),
        ("1::0x1".to_string(), id_refused),
        (format!("{too_much}::{id}"), amount_refused),
    ] {
        match AssetCodec.encode(&token).unwrap_err() {
            TypedError::InvalidScalar { wit_name, token: named, reason } => {
                assert_eq!(wit_name, "asset");
                assert_eq!(named, token);
                assert_eq!(reason, expected);
            },
            other => panic!("{other:?}"),
        }
    }
    assert!(AssetCodec.encode(&format!("{}::{id}", too_much - 1)).is_ok());
    assert_eq!(AssetCodec.encode(&format!("+7::{id}")).unwrap()[4], felt(7));
}

#[test]
fn asset_elements_are_decoded() {
    let mut elements = [5, 6, 0x100, 0x11, 5, 6, 7, 8].map(felt);
    assert_eq!(AssetCodec.decode(&elements).unwrap(), "asset(non-fungible)");
    elements[0] = felt(4);
    match AssetCodec.decode(&elements).unwrap_err() {
        TypedError::MalformedResult { ty, reason } => {
            assert_eq!(ty, "asset");
            assert_eq!(reason, "the felts are not a valid asset");
        },
        other => panic!("{other:?}"),
    }
    match AssetCodec.decode(&[]).unwrap_err() {
        TypedError::MalformedResult { reason, .. } => {
            assert_eq!(reason, "an asset occupies exactly eight felts");
        },
        other => panic!("{other:?}"),
    }
    for kind in 0..=10 {
        let elements = [0, 0, 0x100 + kind, 0x11, 0, 0, 0, 0];
        let decoded = AssetCodec.decode(&elements.map(felt));
        match kind {
            0 | 4 => assert_eq!(decoded.unwrap(), "asset(non-fungible)"),
            1 | 5 => {
                assert_eq!(decoded.unwrap(), "asset(0::0x000000000000001100000000000001)");
            },
            _ => assert!(decoded.is_err()),
        }
    }
    let elements = [0, 0, 0x101, 0x11, 1, 0, 0, 1].map(felt);
    assert!(AssetCodec.decode(&elements).is_err());
    let elements = [0, 0, 0x101, 0x11, 9_223_372_034_707_292_161, 0, 0, 0].map(felt);
    assert!(AssetCodec.decode(&elements).is_err());
}

#[test]
fn felts_are_below_the_modulus() {
    assert!(Felt::new(MODULUS).is_none());
    assert_eq!(Felt::new(MODULUS - 1).unwrap().as_canonical_u64(), MODULUS - 1);
    assert_eq!(Felt::from(7u32), felt(7));
}

#[test]
fn numbers_are_written_and_read_as_std_does() {
    for n in [0, 9, 10, 99, 100, 1234567890, u64::MAX] {
        assert_eq!(decimal_text(n), n.to_string());
        assert_eq!(parse_u64(&n.to_string()), Ok(n));
    }
    for text in [
        "", "+", "-", "+1", "-1", "++1", "01", " 1", "1 ", "1a", "a", "18446744073709551615",
        "18446744073709551616", "18446744073709551620", "99999999999999999999",
        "99999999999999999999x", "1999999999999999999x", "1999999999999999999é",
    ] {
        let expected: Result<u64, std::num::ParseIntError> = text.parse();
        match parse_u64(text) {
            Ok(value) => assert_eq!(Ok(value), expected),
            Err(error) => assert_eq!(error.message(), expected.unwrap_err().to_string(), "{text}"),
        }
    }
    assert_eq!(parse_u64(""), Err(NumberError::Empty));
}

#[test]
fn account_id_tokens_are_read_exactly() {
    for (token, valid) in [
        ("0xaa0000000000bb110000cc000000dd", true),
        ("0xAA0000000000BB110000CC000000DD", true),
        ("0x00000000000000010000000000000f", true),
        ("0xfffffffeffffff017fffffffffffff", true),
        ("0Xaa0000000000bb110000cc000000dd", false),
        ("aa0000000000bb110000cc000000dd00", false),
        ("0xaa0000000000bb110000cc000000d", false),
        ("0xaa0000000000bb110000cc000000dd0", false),
        ("0xaa0000000000bb110000cc000000dg", false),
        ("0xaa0000000000bb110000cc000000é", false),
        ("0xaa0000000000bb120000cc000000dd", false),
        ("0xaa0000000000bb118000cc000000dd", false),
        ("0xffffffff000000010000cc000000dd", false),
        ("", false),
    ] {
        assert_eq!(AccountIdCodec.encode(token).is_ok(), valid, "{token}");
    }
}
