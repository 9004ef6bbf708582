use db::common::{
    convert_u8_array_to_usize, convert_usize_to_u8_array, decode_kv, encode_kv, Key, KeyImp,
    Value, ValueImp,
};
use db::storage::{BlockMeta, DecoderReader, DecoderReaderMemoryImp, EncoderWriter, EncoderWriterMemoryImp};

#[test]
pub fn test_key() {
    let a = KeyImp::from_str("123");
    let b = KeyImp::from_str("123");
    let c = KeyImp::from_str("12d");
    let d = KeyImp::from_str("125");
    let e = KeyImp::from_str("12");
    assert_eq!(a, b);
    assert!(a < c);
    assert!(a < d);
    assert!(a > e);
}

#[test]
pub fn test_value() {
    let a = ValueImp::from_str("abc");
    assert_eq!("abc", a.to_str());
}

#[test]
pub fn common_test_encode_decode() {
    let a = KeyImp::from_str("key");
    let b = ValueImp::from_str("value");
    let mut encode = EncoderWriterMemoryImp::new();
    encode_kv(a.clone(), b.clone(), &mut encode);
    let vec = encode.to_vec();
    let mut decoder = DecoderReaderMemoryImp::new(vec);
    let (c, d) = decode_kv(&mut decoder);
    assert_eq!(a, c);
    assert_eq!(b, d);
}

#[test]
fn test_convert_u8_and_usize() {
    test_convert(0);
    test_convert(1);
    test_convert(2);
    test_convert(128);
    test_convert(2345);
    test_convert(23423);
    test_convert(9999999);
}

fn test_convert(s: usize) {
    let a: [u8; 4] = convert_usize_to_u8_array(s);
    let res = convert_u8_array_to_usize(&a);
    assert_eq!(res, s);
}

#[test]
fn storage_test_encode_decode() {
    let a: [u8; 8] = [8, 1, 2, 3, 4, 5, 6, 7];
    let mut encode = EncoderWriterMemoryImp::new();
    encode.write(&a).unwrap();

    let mut decode = DecoderReaderMemoryImp::new(encode.to_vec());
    let h = decode.read(8);
    println!("{:?}", h);
}

#[test]
fn convert_is_little_endian() {
    assert_eq!(convert_usize_to_u8_array(0x0102_0304), [4, 3, 2, 1]);
    assert_eq!(convert_usize_to_u8_array(256), [0, 1, 0, 0]);
    // only the four lowest bytes are kept
    assert_eq!(convert_usize_to_u8_array(0x1_0000_0005), [5, 0, 0, 0]);
    assert_eq!(convert_u8_array_to_usize(&[1, 1]), 257);
    assert_eq!(convert_u8_array_to_usize(&[]), 0);
}

#[test]
fn encoding_layout_is_length_prefixed() {
    let mut encode = EncoderWriterMemoryImp::new();
    encode_kv(KeyImp::new(&[7, 8]), ValueImp::new(&[9]), &mut encode);
    assert_eq!(encode.to_vec(), vec![2, 0, 0, 0, 7, 8, 1, 0, 0, 0, 9]);
}

#[test]
fn decode_leaves_following_bytes_unread() {
    let mut encode = EncoderWriterMemoryImp::new();
    encode_kv(KeyImp::new(b"k"), ValueImp::new(b""), &mut encode);
    encode.write(&[42, 43]).unwrap();
    encode.write_size(5).unwrap();
    encode.flush().unwrap();
    let mut decoder = DecoderReaderMemoryImp::new(encode.to_vec());
    let (k, v) = decode_kv(&mut decoder);
    assert_eq!(k.as_bytes(), b"k");
    assert_eq!(v.as_bytes(), b"");
    assert_eq!(decoder.read(2), &[42, 43]);
    assert_eq!(decoder.read_size(), 5);
}

#[test]
fn value_equality_compares_bytes() {
    assert_eq!(ValueImp::new(b"ab"), ValueImp::from_str("ab"));
    assert_ne!(ValueImp::new(b"ab"), ValueImp::new(b"abc"));
    assert_ne!(ValueImp::new(b"ab"), ValueImp::new(b"ac"));
}

#[test]
fn key_text_round_trip() {
    let k = KeyImp::from_str("héllo");
    assert_eq!(k.as_bytes(), "héllo".as_bytes());
    assert_eq!(k.to_str(), "héllo");
}

#[test]
fn key_precedes_is_byte_order() {
    let a = KeyImp::from_str("123");
    let b = KeyImp::from_str("123");
    let c = KeyImp::from_str("12d");
    let d = KeyImp::from_str("125");
    let e = KeyImp::from_str("12");
    assert!(!a.precedes(&b));
    assert!(a.precedes(&c));
    assert!(a.precedes(&d));
    assert!(e.precedes(&a));
    assert!(!a.precedes(&e));
    for (x, y) in [(&a, &c), (&a, &d), (&e, &a), (&a, &b), (&c, &d)] {
        assert_eq!(x.precedes(y), x < y);
        assert_eq!(y.precedes(x), y < x);
    }
    assert!(KeyImp::new(&[]).precedes(&KeyImp::new(&[0])));
    assert!(!KeyImp::new(&[2, 0]).precedes(&KeyImp::new(&[1, 255])));
}

#[test]
fn block_meta_compares_by_keys() {
    let m1 = BlockMeta::new(KeyImp::from_str("a"), KeyImp::from_str("f"), 0);
    let m2 = BlockMeta::new(KeyImp::from_str("a"), KeyImp::from_str("f"), 64);
    let m3 = BlockMeta::new(KeyImp::from_str("a"), KeyImp::from_str("g"), 0);
    let m4 = BlockMeta::new(KeyImp::from_str("b"), KeyImp::from_str("c"), 0);
    assert!(m1 == m2);
    assert!(m1 != m3);
    assert_eq!(m1.partial_cmp(&m3), Some(std::cmp::Ordering::Equal));
    assert!(m1 < m4);
    assert!(m4 > m3);
}
