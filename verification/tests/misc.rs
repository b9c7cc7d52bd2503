use rx_core::app::{AppInfo, PackageInfo};
use rx_core::c::{c_string_bytes, fill_c_bytes};
use rx_core::complete_by::CompleteBy;
use rx_core::encoding::gbk_to_utf8;
use rx_core::encryptor::AesEncryptor;
use rx_core::id::Id;
use rx_core::int_enum::IntEnum;
use rx_core::m::range::Range;
use rx_core::req::RequestCfg;
use rx_core::text::uid::{uuid_from_parsed, uuid_or_new};
use std::mem::size_of;

#[test]
fn macros_test_decode_option_none() {
    let e: Result<i32, String> = Err(1.to_string());
    assert!(e.is_err());
}

#[test]
fn option_complete() {
    let mut a = Some(10);
    let mut b = None;
    a.complete_by(&b);
    assert_eq!(a, Some(10));

    a = Some(10);
    b = None;
    b.complete_by(&a);
    assert_eq!(b, Some(10));

    a = None;
    b = None;
    b.complete_by(&a);
    assert_eq!(b, None);
}

#[test]
fn integers_complete_from_zero_only() {
    let mut x: i32 = 0;
    x.complete_by(&7);
    assert_eq!(x, 7);
    x.complete_by(&9);
    assert_eq!(x, 7);
    let mut y: u8 = 3;
    y.complete_by(&0);
    assert_eq!(y, 3);
}

#[test]
fn it_equ() {
    type IId1 = Id<f64>;
    assert_eq!(size_of::<IId1>(), 8);

    let i1 = IId1::new(1);
    assert_eq!(i1, i1);

    let i1 = IId1::new(17);
    assert_eq!(i1.to_string(), "17");

    type IId2 = Id<f32, i32>;
    assert_eq!(size_of::<IId2>(), 4);

    let i2 = IId2::new(1);
    assert_eq!(i2, i2);
}

#[test]
fn id_text_forms() {
    let a: Id<u8, i64> = Id::new(-255);
    assert_eq!(a.to_string(), "-255");
    let b: Id<u8, u32> = Id::new(255);
    assert_eq!(b.to_hex_string(), "#ff");
    let c: Id<u8> = Id::new(0);
    assert_eq!(c.to_string(), "0");
    assert_eq!(c.to_hex_string(), "#0");
    let d: Id<u8, i64> = Id::new(i64::MIN);
    assert_eq!(d.to_string(), i64::MIN.to_string());
}

#[test]
fn range_test_new() {
    let range = Range::new(1, 10);
    assert_eq!(range.min, 1);
    assert_eq!(range.max, 10);
}

#[test]
fn test_contains() {
    let range = Range::new(1, 10);
    assert!(range.contains(&5));
    assert!(!range.contains(&0));
    assert!(!range.contains(&11));
}

#[test]
fn test_length() {
    let range = Range::new(1, 10);
    assert_eq!(range.len(), 9);
}

#[test]
fn range_includes_both_ends() {
    let range = Range::new(1, 10);
    assert!(range.contains(&1));
    assert!(range.contains(&10));
}

fn hex(s: &str) -> Vec<u8> {
    (0..s.len()).step_by(2).map(|i| u8::from_str_radix(&s[i..i + 2], 16).unwrap()).collect()
}

#[test]
fn test_encryption_decryption() {
    let key = hex("000102030405060708090a0b0c0d0e0f");
    let iv = hex("101112131415161718191a1b1c1d1e1f");

    let encryptor = AesEncryptor::new(key, iv);

    let plaintext = "Hello, AES encryption!";
    let ciphertext = encryptor.encrypt(plaintext);
    let decrypted_text = encryptor.decrypt(&ciphertext);

    assert_eq!(plaintext, decrypted_text);
}

#[test]
fn encryption_pads_to_blocks_and_changes_the_bytes() {
    let encryptor = AesEncryptor::new(vec![7u8; 16], vec![9u8; 16]);
    let plaintext = "sixteen byte msg";
    let ciphertext = encryptor.encrypt(plaintext);
    assert_eq!(ciphertext.len(), 32);
    assert_ne!(&ciphertext[..16], plaintext.as_bytes());
    assert_eq!(encryptor.try_decrypt(&ciphertext), Some(plaintext.to_string()));
    assert_eq!(encryptor.try_decrypt(&ciphertext[..15]), None);
    let empty = encryptor.encrypt("");
    assert_eq!(empty.len(), 16);
    assert_eq!(encryptor.decrypt(&empty), "");
}

#[test]
fn app_and_package_names() {
    let package = PackageInfo {
        name: "rx",
        version: "1.2.3",
        authors: "someone",
        description: "basic extensions",
        build_date: "2024-01-02",
    };
    assert_eq!(package.full_version(), "v1.2.3  build: 2024-01-02");
    let app = AppInfo::new("env", "environment tool", package);
    assert_eq!(app.full_name(), "rx-env");
    assert_eq!(app.about, "environment tool");
}

#[test]
fn request_cfg_starts_without_headers() {
    let cfg = RequestCfg::default();
    assert!(cfg.headers.is_empty());
    let mut other = cfg.clone();
    other.headers.insert("User-Agent".to_string(), "rx".to_string());
    assert!(cfg != other);
}

#[test]
fn gbk_bytes_become_utf8() {
    // "中文" in GBK.
    let gbk = [0xd6u8, 0xd0, 0xce, 0xc4];
    assert_eq!(gbk_to_utf8(&gbk), Some("中文".as_bytes().to_vec()));
    assert_eq!(gbk_to_utf8(b"abc"), Some(b"abc".to_vec()));
}

#[test]
fn int_enum_default_copies() {
    let a = IntEnum::default();
    let b = a;
    assert!(a == b);
}

#[test]
fn fill_c_bytes_copies_and_terminates() {
    let mut dst = [9u8; 6];
    assert!(fill_c_bytes(b"hello", &mut dst));
    assert_eq!(&dst, b"hello\0");
    let mut dst = [9u8; 8];
    assert!(fill_c_bytes(b"hi", &mut dst));
    assert_eq!(dst, [b'h', b'i', 0, 9, 9, 9, 9, 9]);
    let mut small = [9u8; 5];
    assert!(!fill_c_bytes(b"hello", &mut small));
    assert_eq!(small, [9u8; 5]);
}

#[test]
fn c_string_bytes_stop_at_nul() {
    assert_eq!(c_string_bytes(b"hello\0"), b"hello");
    assert_eq!(c_string_bytes(b"ab\0cd\0"), b"ab");
    assert_eq!(c_string_bytes(b"\0"), b"");
}

#[test]
fn uuid_parsed_or_made_from_the_name() {
    let text = "550e8400-e29b-41d4-a716-446655440000";
    let bytes = uuid_or_new(text);
    assert_eq!(bytes[0], 0x55);
    assert_eq!(bytes[15], 0x00);
    let made = uuid_or_new("rx");
    assert_eq!(made, uuid_or_new("rx"));
    assert_ne!(made, uuid_or_new("ry"));
    assert_eq!(made[6] >> 4, 5);
    assert_eq!(uuid_from_parsed(Some([7u8; 16]), "ignored"), [7u8; 16]);
    assert_eq!(uuid_from_parsed(None, "rx"), made);
}

#[test]
fn range_try_new_checks_the_order() {
    let r = Range::try_new(1, 10).unwrap();
    assert_eq!((r.min, r.max), (1, 10));
    assert!(Range::try_new(3, 3).is_some());
    assert!(Range::try_new(10, 1).is_none());
    assert!(Range::try_new(1.0, f64::NAN).is_none());
}
