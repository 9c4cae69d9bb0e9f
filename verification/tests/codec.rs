//! Behavioural tests for the base62 codec.

use rb62::{base62_char, base62_val, get_b62, get_integer};
use std::str;

const ALPHABET: &[u8; 62] = b"0123456789abcdefghijklmnopqrstuvwxyzABCDEFGHIJKLMNOPQRSTUVWXYZ";

/// Base62/hexadecimal pairs drawn from across the 128-bit range: single
/// bits, all-but-one-bit patterns, and repeated byte patterns.
const VECTORS: &[(&str, &str)] = &[
("0000000000000000000001", "00000000000000000000000000000001"),
("0000000000000000000024", "00000000000000000000000000000080"),
("00000000000000000004gg", "00000000000000000000000000004000"),
("0000000000000000008Nz2", "00000000000000000000000000200000"),
("00000000000000000iakk8", "00000000000000000000000010000000"),
("0000000000000000BvjXyw", "00000000000000000000000800000000"),
("000000000000001fqFcXg4", "00000000000000000000040000000000"),
("00000000000002zR34Klag", "00000000000000000002000000000000"),
("0000000000005k1wlNFHb2", "00000000000000000100000000000000"),
("00000000000aZl8N0y58M8", "00000000000000008000000000000000"),
("0000000000mGDE9b8mC7mw", "00000000000000400000000000000000"),
("000000000KQ1QSWZgGHcu4", "00000000000020000000000000000000"),
("00000001yHpPbrMus9bM4g", "00000000001000000000000000000000"),
("0000003dDDjFDm6S6YjeN2", "00000000080000000000000000000000"),
("000006E9PaBXfEbIovIxe8", "00000004000000000000000000000000"),
("0000dIUhDUmkiYbEBtWBaw", "00000200000000000000000000000000"),
("000skIcqom5Vag3PnOYJI4", "00010000000000000000000000000000"),
("00WuLfEuhCe1b9U5bfomYg", "00800000000000000000000000000000"),
("1WLvyjAwmUWr2rMHdMjqp2", "40000000000000000000000000000000"),
("7N42dgm5tFLK9N8MT7fHBB", "ffffffffffffffffffffffffffffffdf"),
("7N42dgm5tFLK9N8MT7fGy3", "ffffffffffffffffffffffffffffefff"),
("7N42dgm5tFLK9N8MT7dvdR", "fffffffffffffffffffffffffff7ffff"),
("7N42dgm5tFLK9N8MT2I7x5", "fffffffffffffffffffffffffbffffff"),
("7N42dgm5tFLK9N8MJJVddZ", "fffffffffffffffffffffffdffffffff"),
("7N42dgm5tFLK9N8twWWXNB", "fffffffffffffffffffffeffffffffff"),
("7N42dgm5tFLK9MuP7Qz7k3", "ffffffffffffffffffff7fffffffffff"),
("7N42dgm5tFLK8sDpiFkMjR", "ffffffffffffffffffbfffffffffffff"),
("7N42dgm5tFLHpsm5DtJpV5", "ffffffffffffffffdfffffffffffffff"),
("7N42dgm5tFG4uSBuBwBaLZ", "ffffffffffffffefffffffffffffffff"),
("7N42dgm5tu3JH4p2zrzTZB", "fffffffffffff7ffffffffffffffffff"),
("7N42dgm55uUMRqHah4Xg63", "fffffffffffbffffffffffffffffffff"),
("7N42dglhzgrkfs74mnaTpR", "fffffffffdffffffffffffffffffffff"),
("7N42deH31nCfQnARhZk4j5", "fffffffeffffffffffffffffffffffff"),
("7N429PD14cba535SeKgyjZ", "ffffff7fffffffffffffffffffffffff"),
("7N3V85iYSAfgmJ7PxF0wbB", "ffffbfffffffffffffffffffffffffff"),
("7MPpwrWsUgIeRvagANU6S3", "ffdfffffffffffffffffffffffffffff"),
("7iS9PbssnWx8oGc75aFQvR", "efffffffffffffffffffffffffffffff"),
("00000dijElgKkKE5xk5iqY", "00000008000000080000000800000008"),
("0000rrOzhUzEQiLqNsW3FS", "00000400000004000000040000000400"),
("000UFqoQYNCjYJVk7JRAru", "00020000000200000002000000020000"),
("01SZwvjnwr7foOlxYGDeJW", "01000000010000000100000001000000"),
("3Tx16E0yXYXNdWu9i10qPK", "80000000800000008000000080000000"),
("7N42bxZygVBLtLY4Awzk8n", "ffffffbfffffffbfffffffbfffffffbf"),
("7N3YFFPxanatpn1kvnLed9", "ffffdfffffffdfffffffdfffffffdfff"),
("7MWIRR9fDgPajRKbTcl04f", "ffefffffffefffffffefffffffefffff"),
("7xY61dR3iaPKXimp3CbNGD", "f7fffffff7fffffff7fffffff7ffffff"),
("07zNSqvXaqUFzpkjJmePK4", "04040404040404040404040404040404"),
("7Jh8h366Tsjpn5tD1r8hK5", "fdfdfdfdfdfdfdfdfdfdfdfdfdfdfdfd"),
("0000000000000000000001", "00000000000000000000000000000001"),
("0000000000000000000047", "000000000000000000000000000000ff"),
("00000000000000000008wv", "00000000000000000000000000007fff"),
("000000000000000000hB83", "000000000000000000000000003fffff"),
("00000000000000000AkEEf", "0000000000000000000000001fffffff"),
("0000000000000001d0DV71", "00000000000000000000000fffffffff"),
("000000000000002uRkpUw7", "0000000000000000000007ffffffffff"),
("000000000000059I69uGkv", "00000000000000000003ffffffffffff"),
("000000000000aE32HBlom3", "000000000000000001ffffffffffffff"),
("00000000000lYGhA16ahyf", "0000000000000000ffffffffffffffff"),
("0000000000JnhiimgJeeJ1", "000000000000007fffffffffffffffff"),
("000000001vG3HLTYxnooY7", "0000000000003fffffffffffffffffff"),
("000000037oPEmTyYUiny8v", "00000000001fffffffffffffffffffff"),
("0000006rhgDlgIdKdWCtA3", "000000000fffffffffffffffffffffff"),
("00000dijEldUvinqN1r4sf", "00000007ffffffffffffffffffffffff"),
("0000rrOzhOIEBWnjcXTcl1", "000003ffffffffffffffffffffffffff"),
("000UFqoQMIbQkw7ELDXtq7", "0001ffffffffffffffffffffffffffff"),
("01SZwviYzes2mjOamuMJWv", "00ffffffffffffffffffffffffffffff"),
("3Tx16Db2JPSS4TzoryCQO3", "7fffffffffffffffffffffffffffffff"),
("7Fw47f8bcJXAIvU7r86JQ4", "fc000000000000000000000000000000"),
("7N0nxyKGkP0mPIE9OxpNVC", "fff80000000000000000000000000000"),
("7N40rt5OkoT7I1Dy3fGUg0", "fffff000000000000000000000000000"),
("7N42cpaOSiS68BD3J1vpN6", "ffffffe0000000000000000000000000"),
("7N42dfWkmBen4WfNZkLNhS", "ffffffffc00000000000000000000000"),
("7N42dglT04r8GcSRfVJv44", "ffffffffff8000000000000000000000"),
("7N42dgm5nD3vkHwSJBG5JC", "ffffffffffff00000000000000000000"),
("7N42dgm5tCQf2BXlOckKI0", "fffffffffffffe000000000000000000"),
("7N42dgm5tFKkf40sOIAzp6", "fffffffffffffffc0000000000000000"),
("7N42dgm5tFLJtcWC4HS8bS", "fffffffffffffffff800000000000000"),
("7N42dgm5tFLK9svWuvgYi4", "fffffffffffffffffff0000000000000"),
("7N42dgm5tFLK9MYNrNA3xC", "ffffffffffffffffffffe00000000000"),
("7N42dgm5tFLK9N8I34G1a0", "ffffffffffffffffffffffc000000000"),
("7N42dgm5tFLK9N8MQLV516", "ffffffffffffffffffffffff80000000"),
("7N42dgm5tFLK9N8MT67j5S", "ffffffffffffffffffffffffff000000"),
("7N42dgm5tFLK9N8MT7f9w4", "fffffffffffffffffffffffffffe0000"),
("7N42dgm5tFLK9N8MT7fHlC", "fffffffffffffffffffffffffffffc00"),
("7N42dgm5tFLK9N8MT7fHC0", "fffffffffffffffffffffffffffffff8"),
("0000000000000000000007", "00000000000000000000000000000007"),
("000000000000007N42dgm5", "0000000000000000000018f474d26491"),
("00000007N42dgm5tFLK9N8", "00000000004fed8594b7e7dbedd3d42a"),
("7N42dgm5tFLK9N8MT7fHC7", "ffffffffffffffffffffffffffffffff"),
];

fn encode_to_string(hex: &str) -> Option<String> {
    get_b62(hex).map(|arr| str::from_utf8(&arr).unwrap().to_string())
}

#[test]
fn zero_decodes_to_zero() {
    assert_eq!(get_integer("0000000000000000000000"), Some(0));
}

#[test]
fn zero_encodes_to_all_zero_characters() {
    assert_eq!(encode_to_string("0").as_deref(), Some("0000000000000000000000"));
    assert_eq!(
        encode_to_string("00000000000000000000000000000000").as_deref(),
        Some("0000000000000000000000")
    );
}

#[test]
fn maximum_value_decodes() {
    assert_eq!(get_integer("7N42dgm5tFLK9N8MT7fHC7"), Some(u128::MAX));
}

#[test]
fn maximum_value_encodes() {
    assert_eq!(
        encode_to_string("ffffffffffffffffffffffffffffffff").as_deref(),
        Some("7N42dgm5tFLK9N8MT7fHC7")
    );
}

#[test]
fn one_past_maximum_is_rejected() {
    assert_eq!(get_integer("7N42dgm5tFLK9N8MT7fHC8"), None);
}

#[test]
fn far_past_maximum_is_rejected() {
    assert_eq!(get_integer("ZZZZZZZZZZZZZZZZZZZZZZ"), None);
}

#[test]
fn wrong_length_is_rejected() {
    assert_eq!(get_integer("000000000000000000001"), None);
    assert_eq!(get_integer("00000000000000000000001"), None);
    assert_eq!(get_integer(""), None);
}

#[test]
fn invalid_characters_are_rejected() {
    assert_eq!(get_integer("000000000000000000000+"), None);
    assert_eq!(get_integer("000000000000000000000-"), None);
    assert_eq!(get_integer("000000000000000000000 "), None);
    assert_eq!(get_integer("00000000000000000000\u{e9}1"), None);
    assert_eq!(get_integer("000000000000000000000\u{e9}"), None);
}

#[test]
fn known_vector_decodes() {
    assert_eq!(
        get_integer("6GGODyP2LIdbxIfYxy5UbN"),
        Some(0xdbc3d5ebe344484da3e2448712a02213)
    );
}

#[test]
fn known_vector_encodes() {
    assert_eq!(
        encode_to_string("00112233445566778899aabbccddeeff").as_deref(),
        Some("007PsO2B9tnG1CEDAVcE7Z")
    );
    assert_eq!(
        encode_to_string("dbc3d5ebe344484da3e2448712a02213").as_deref(),
        Some("6GGODyP2LIdbxIfYxy5UbN")
    );
}

#[test]
fn decode_of_encode_is_identity() {
    let values = [
        0u128,
        1,
        9,
        10,
        35,
        36,
        61,
        62,
        4095,
        u64::MAX as u128,
        1 << 64,
        u128::MAX - 1,
        u128::MAX,
        0x00112233445566778899aabbccddeeff,
    ];
    for &v in &values {
        let b62 = get_b62(&format!("{:032x}", v)).expect("every 128-bit value encodes");
        let text = str::from_utf8(&b62).unwrap();
        assert_eq!(text.len(), 22);
        assert_eq!(get_integer(text), Some(v), "value {v} did not round-trip");
    }
}

#[test]
fn encode_of_decode_is_identity() {
    let strings = [
        "0000000000000000000000",
        "0000000000000000000001",
        "000000000000000000000z",
        "000000000000000000000A",
        "6GGODyP2LIdbxIfYxy5UbN",
        "7N42dgm5tFLK9N8MT7fHC7",
    ];
    for s in strings {
        let v = get_integer(s).expect("test strings are canonical");
        assert_eq!(
            encode_to_string(&format!("{:032x}", v)).as_deref(),
            Some(s),
            "string {s} did not round-trip"
        );
    }
}

#[test]
fn conversion_works_for_all_vectors() {
    for (b62, hex) in VECTORS {
        assert_eq!(
            encode_to_string(hex).as_deref(),
            Some(*b62),
            "hex {hex} should encode to {b62}"
        );
        let v = get_integer(b62).expect("vector strings are canonical");
        assert_eq!(
            format!("{:032x}", v),
            *hex,
            "b62 {b62} should decode to {hex}"
        );
    }
}

#[test]
fn strings_order_like_values_in_alphabet_order() {
    // Pairs that straddle the digit groups: 35 encodes as `z`, 36 as `A`.
    let pairs = [(0u128, 1u128), (5, 7), (35, 36), (61, 62), (u128::MAX - 1, u128::MAX)];
    for (v1, v2) in pairs {
        let s1 = get_b62(&format!("{:032x}", v1)).unwrap();
        let s2 = get_b62(&format!("{:032x}", v2)).unwrap();
        let d1: Vec<u8> = s1.iter().map(|b| base62_val(b).unwrap()).collect();
        let d2: Vec<u8> = s2.iter().map(|b| base62_val(b).unwrap()).collect();
        assert!(d1 < d2, "digit values of encode({v1}) should sort below encode({v2})");
    }
}

#[test]
fn alphabet_round_trips() {
    for v in 0u8..62 {
        let c = base62_char(v).expect("digit values up to 61 have characters");
        assert_eq!(c, ALPHABET[v as usize]);
        assert_eq!(base62_val(&c), Some(v));
    }
    assert_eq!(base62_char(62), None);
    assert_eq!(base62_char(255), None);
    for c in [b'+', b'-', b' ', b'/', b':', b'@', b'[', b'`', b'{', 0, 255] {
        assert_eq!(base62_val(&c), None);
    }
}

#[test]
fn hexadecimal_input_forms() {
    assert_eq!(encode_to_string("+ff").as_deref(), Some("0000000000000000000047"));
    assert_eq!(get_b62(""), None);
    assert_eq!(get_b62("+"), None);
    assert_eq!(get_b62("g"), None);
    assert_eq!(get_b62("0x1f"), None);
    assert_eq!(get_b62(" ff"), None);
    assert_eq!(get_b62("ff "), None);
    assert_eq!(get_b62("++1"), None);
    assert_eq!(get_b62("\u{e9}"), None);
}

#[test]
fn hexadecimal_overflow_is_rejected() {
    // 2^128 itself, and anything wider, no longer fits.
    assert_eq!(get_b62("100000000000000000000000000000000"), None);
    assert_eq!(get_b62("fffffffffffffffffffffffffffffffff"), None);
    // Leading zeros are fine: the value, not the width, decides.
    assert_eq!(
        encode_to_string("000000000000000000000000000000000000ff").as_deref(),
        Some("0000000000000000000047")
    );
}

#[test]
fn uppercase_hexadecimal_is_accepted() {
    assert_eq!(
        encode_to_string("DBC3D5EBE344484DA3E2448712A02213").as_deref(),
        Some("6GGODyP2LIdbxIfYxy5UbN")
    );
}
