//! Keys and values as byte strings, and their length-prefixed encoding.

use vstd::prelude::*;

use crate::storage::{DecoderReader, EncoderWriter};
use vstd::utf8::{decode_utf8, encode_utf8, valid_utf8};
use vstd::std_specs::cmp::PartialEqSpec;

verus! {

/// `256` raised to `n`.
pub open spec fn pow256(n: nat) -> nat
    decreases n,
{
    if n == 0 {
        1
    } else {
        256 * pow256((n - 1) as nat)
    }
}

/// The number whose little-endian base-256 digits are `s`.
pub open spec fn le_value(s: Seq<u8>) -> nat
    decreases s.len(),
{
    if s.len() == 0 {
        0
    } else {
        le_value(s.drop_last()) + s.last() as nat * pow256((s.len() - 1) as nat)
    }
}

/// The four lowest little-endian base-256 digits of `x`.
pub open spec fn le_bytes(x: nat) -> Seq<u8> {
    seq![
        (x % 256) as u8,
        ((x / 256) % 256) as u8,
        ((x / 256 / 256) % 256) as u8,
        ((x / 256 / 256 / 256) % 256) as u8,
    ]
}

/// The encoding of a key and a value: each one's length in four
/// little-endian bytes, then its bytes.
pub open spec fn kv_encoding(k: Seq<u8>, v: Seq<u8>) -> Seq<u8> {
    le_bytes(k.len()) + k + le_bytes(v.len()) + v
}

/// The length of the key encoded at the front of `s`.
pub open spec fn key_len_at(s: Seq<u8>) -> nat {
    le_value(s.subrange(0, 4))
}

/// The length of the value encoded at the front of `s`.
pub open spec fn value_len_at(s: Seq<u8>) -> nat {
    le_value(s.subrange(4 + key_len_at(s) as int, 8 + key_len_at(s) as int))
}

/// `s` starts with a complete key-value encoding.
pub open spec fn decodable(s: Seq<u8>) -> bool {
    &&& s.len() >= 4
    &&& s.len() >= 8 + key_len_at(s)
    &&& s.len() >= 8 + key_len_at(s) + value_len_at(s)
}

/// The key encoded at the front of `s`.
pub open spec fn decoded_key(s: Seq<u8>) -> Seq<u8> {
    s.subrange(4, 4 + key_len_at(s) as int)
}

/// The value encoded at the front of `s`.
pub open spec fn decoded_value(s: Seq<u8>) -> Seq<u8> {
    s.subrange(8 + key_len_at(s) as int, 8 + key_len_at(s) as int + value_len_at(s) as int)
}

/// The number of bytes of the encoding at the front of `s`.
pub open spec fn encoded_len(s: Seq<u8>) -> nat {
    8 + key_len_at(s) + value_len_at(s)
}

proof fn lemma_pow256_mono(i: nat, j: nat)
    requires
        i <= j,
    ensures
        pow256(i) <= pow256(j),
    decreases j,
{
    if i < j {
        lemma_pow256_mono(i, (j - 1) as nat);
    }
}

/// Law: four little-endian bytes read back as the number they were made
/// from, for every number below 2^32.
pub proof fn law_le_bytes_round_trip(x: nat)
    requires
        x < 0x1_0000_0000,
    ensures
        le_value(le_bytes(x)) == x,
{
    let s = le_bytes(x);
    let b0 = (x % 256) as u8;
    let b1 = ((x / 256) % 256) as u8;
    let b2 = ((x / 256 / 256) % 256) as u8;
    let b3 = ((x / 256 / 256 / 256) % 256) as u8;
    let t0 = Seq::<u8>::empty();
    let t1 = seq![b0];
    let t2 = seq![b0, b1];
    let t3 = seq![b0, b1, b2];
    assert(t1.drop_last() =~= t0);
    assert(t2.drop_last() =~= t1);
    assert(t3.drop_last() =~= t2);
    assert(s.drop_last() =~= t3);
    reveal_with_fuel(pow256, 4);
    assert(b0 as nat == x % 256);
    assert(b1 as nat == (x / 256) % 256);
    assert(b2 as nat == (x / 256 / 256) % 256);
    assert(b3 as nat == (x / 256 / 256 / 256) % 256);
    assert(le_value(t0) == 0);
    assert(t1.last() == b0);
    assert(pow256(0) == 1);
    assert(le_value(t1) == le_value(t0) + b0 as nat * 1);
    assert(le_value(t1) == x % 256);
    assert(le_value(t2) == x % 256 + ((x / 256) % 256) * 256);
    assert(le_value(t3) == x % 256 + ((x / 256) % 256) * 256 + ((x / 256 / 256) % 256) * 65536);
    assert(le_value(s) == x % 256 + ((x / 256) % 256) * 256 + ((x / 256 / 256) % 256) * 65536 + ((x
        / 256 / 256 / 256) % 256) * 16777216);
}

/// Law: the text of a key or value made from a string is that string (the
/// bytes made from a string are always valid UTF-8).
pub proof fn law_text_round_trip(text: Seq<char>)
    ensures
        valid_utf8(encode_utf8(text)),
        decode_utf8(encode_utf8(text)) == text,
{
    vstd::utf8::encode_utf8_valid_utf8(text);
    vstd::utf8::encode_utf8_decode_utf8(text);
}

/// Law: decoding what was encoded gives back the key and the value and
/// consumes exactly their encoding, whatever follows it, for keys and values
/// shorter than 2^32 bytes (longer lengths do not fit in four bytes).
pub proof fn law_decode_after_encode(k: Seq<u8>, v: Seq<u8>, rest: Seq<u8>)
    requires
        k.len() < 0x1_0000_0000,
        v.len() < 0x1_0000_0000,
    ensures
        decodable(kv_encoding(k, v) + rest),
        decoded_key(kv_encoding(k, v) + rest) == k,
        decoded_value(kv_encoding(k, v) + rest) == v,
        encoded_len(kv_encoding(k, v) + rest) == kv_encoding(k, v).len(),
        (kv_encoding(k, v) + rest).skip(encoded_len(kv_encoding(k, v) + rest) as int) == rest,
{
    let s = kv_encoding(k, v) + rest;
    let kl = k.len() as int;
    let vl = v.len() as int;
    law_le_bytes_round_trip(k.len());
    law_le_bytes_round_trip(v.len());
    assert(s.subrange(0, 4) =~= le_bytes(k.len()));
    assert(key_len_at(s) == k.len());
    assert(s.subrange(4 + kl, 8 + kl) =~= le_bytes(v.len()));
    assert(value_len_at(s) == v.len());
    assert(decoded_key(s) =~= k);
    assert(decoded_value(s) =~= v);
    assert(s.skip(8 + kl + vl) =~= rest);
}

/// The little-endian number made of the bytes of `s`.
pub fn convert_u8_array_to_usize(s: &[u8]) -> (r: usize)
    requires
        pow256(s@.len()) <= usize::MAX,
    ensures
        r == le_value(s@),
{
    let mut res: usize = 0;
    let mut m: usize = 1;
    let mut i: usize = 0;
    while i < s.len()
        invariant
            i <= s@.len(),
            pow256(s@.len()) <= usize::MAX,
            m == pow256(i as nat),
            res == le_value(s@.take(i as int)),
            res < m,
        decreases s@.len() - i,
    {
        let h = s[i] as usize;
        proof {
            lemma_pow256_mono((i + 1) as nat, s@.len());
            assert(s@.take(i + 1).drop_last() =~= s@.take(i as int));
            assert(res + h * m < 256 * m) by (nonlinear_arith)
                requires
                    res < m,
                    h <= 255,
            ;
        }
        res += h * m;
        m *= 256;
        i += 1;
    }
    assert(s@.take(s@.len() as int) =~= s@);
    res
}

/// The four lowest little-endian bytes of `s`.
pub fn convert_usize_to_u8_array(s: usize) -> (r: [u8; 4])
    ensures
        r@ == le_bytes(s as nat),
{
    let s0 = s;
    let s1 = s0 / 256;
    let s2 = s1 / 256;
    let s3 = s2 / 256;
    let res: [u8; 4] = [(s0 % 256) as u8, (s1 % 256) as u8, (s2 % 256) as u8, (s3 % 256) as u8];
    assert(res@ =~= le_bytes(s as nat));
    res
}

/// A key of the table: comparable, hashable, and made from a string.
pub trait Key: Clone + Ord + std::hash::Hash + Sized {
    fn from_str(s: &str) -> Self;
}

/// A value of the table, made from and shown as a string.
pub trait Value: Clone + Sized {
    /// The value can be shown as text.
    spec fn printable(&self) -> bool;

    fn from_str(s: &str) -> Self;

    fn to_str(&self) -> String
        requires
            self.printable(),
    ;
}

/// A stored pair.
pub trait Entry<K: Key, V: Value>: Sized {
    fn get_key(&self) -> K;

    fn get_value(&self) -> V;
}

/// A source of pairs in key order.
pub trait KV_iterator<K: Key, V: Value> {
    fn next(&mut self) -> Option<(K, V)>;
}

/// `String::from_utf8`: the bytes as a string when they are valid UTF-8,
/// else `None`; a valid string holds the characters the bytes encode.
#[verifier::external_body]
fn utf8_string(bytes: Vec<u8>) -> (r: Option<String>)
    ensures
        match r {
            Some(s) => valid_utf8(bytes@) && s@ == decode_utf8(bytes@),
            None => !valid_utf8(bytes@),
        },
{
    String::from_utf8(bytes).ok()
}

/// A copy of `bytes`.
fn copy_bytes(bytes: &[u8]) -> (r: Vec<u8>)
    ensures
        r@ == bytes@,
{
    let mut b: Vec<u8> = Vec::new();
    let mut i: usize = 0;
    while i < bytes.len()
        invariant
            i <= bytes@.len(),
            b@ == bytes@.take(i as int),
        decreases bytes@.len() - i,
    {
        b.push(bytes[i]);
        i += 1;
        assert(b@ =~= bytes@.take(i as int));
    }
    assert(bytes@.take(bytes@.len() as int) =~= bytes@);
    b
}

/// Byte-by-byte order of byte strings: the first differing byte decides, and
/// a proper prefix comes first.
pub open spec fn bytes_less(a: Seq<u8>, b: Seq<u8>) -> bool
    decreases a.len(),
{
    if a.len() == 0 {
        b.len() > 0
    } else if b.len() == 0 {
        false
    } else if a[0] != b[0] {
        a[0] < b[0]
    } else {
        bytes_less(a.drop_first(), b.drop_first())
    }
}

/// Law: byte strings are ordered by their first differing byte: where `a`
/// and `b` agree before position `i` and differ at `i`, `a` sorts first
/// exactly when its byte there is smaller, whatever their lengths.
pub proof fn law_first_difference_decides(a: Seq<u8>, b: Seq<u8>, i: int)
    requires
        0 <= i < a.len(),
        i < b.len(),
        a[i] != b[i],
        forall|j: int| 0 <= j < i ==> a[j] == b[j],
    ensures
        bytes_less(a, b) == (a[i] < b[i]),
        bytes_less(b, a) == (b[i] < a[i]),
    decreases i,
{
    if i > 0 {
        assert(a[0] == b[0]);
        law_first_difference_decides(a.drop_first(), b.drop_first(), i - 1);
    }
}

/// Law: a proper prefix sorts before the longer string, never after it.
pub proof fn law_prefix_sorts_first(a: Seq<u8>, b: Seq<u8>)
    requires
        a.len() < b.len(),
        forall|j: int| 0 <= j < a.len() ==> a[j] == b[j],
    ensures
        bytes_less(a, b),
        !bytes_less(b, a),
    decreases a.len(),
{
    if a.len() > 0 {
        assert(a[0] == b[0]);
        law_prefix_sorts_first(a.drop_first(), b.drop_first());
    }
}

/// Law: no byte string sorts before itself.
pub proof fn law_order_irreflexive(a: Seq<u8>)
    ensures
        !bytes_less(a, a),
    decreases a.len(),
{
    if a.len() > 0 {
        law_order_irreflexive(a.drop_first());
    }
}

/// A key: a byte string, ordered byte by byte.
#[derive(Hash, PartialEq, PartialOrd, Eq, Ord, Debug, Clone)]
pub struct KeyImp {
    bytes: Vec<u8>,
}

impl View for KeyImp {
    type V = Seq<u8>;

    closed spec fn view(&self) -> Seq<u8> {
        self.bytes@
    }
}

impl KeyImp {
    /// The key with the given bytes.
    pub fn new(bytes: &[u8]) -> (r: Self)
        ensures
            r@ == bytes@,
    {
        KeyImp { bytes: copy_bytes(bytes) }
    }

    /// The key's bytes read as UTF-8 text (they must be valid UTF-8).
    pub fn to_str(&self) -> (r: String)
        requires
            valid_utf8(self@),
        ensures
            r@ == decode_utf8(self@),
    {
        let copy = copy_bytes(self.bytes.as_slice());
        utf8_string(copy).unwrap()
    }

    /// The key's bytes.
    pub fn as_bytes(&self) -> (r: &[u8])
        ensures
            r@ == self@,
    {
        self.bytes.as_slice()
    }

    /// Whether this key sorts before `other`: the first differing byte
    /// decides, and a proper prefix sorts first.
    pub fn precedes(&self, other: &KeyImp) -> (r: bool)
        ensures
            r == bytes_less(self@, other@),
    {
        let a = self.bytes.as_slice();
        let b = other.bytes.as_slice();
        let mut i: usize = 0;
        assert(a@.skip(0) =~= a@);
        assert(b@.skip(0) =~= b@);
        while i < a.len() && i < b.len()
            invariant
                a@ == self@,
                b@ == other@,
                i <= a@.len(),
                i <= b@.len(),
                bytes_less(a@, b@) == bytes_less(a@.skip(i as int), b@.skip(i as int)),
            decreases a@.len() - i,
        {
            assert(a@.skip(i as int)[0] == a@[i as int]);
            assert(b@.skip(i as int)[0] == b@[i as int]);
            if a[i] != b[i] {
                return a[i] < b[i];
            }
            assert(a@.skip(i as int).drop_first() =~= a@.skip(i + 1));
            assert(b@.skip(i as int).drop_first() =~= b@.skip(i + 1));
            i += 1;
        }
        a.len() < b.len()
    }

    /// A copy of the key.
    pub fn clone_key(&self) -> (r: Self)
        ensures
            r@ == self@,
    {
        KeyImp { bytes: copy_bytes(self.bytes.as_slice()) }
    }
}

impl Key for KeyImp {
    /// The key made of the UTF-8 bytes of `s`.
    fn from_str(s: &str) -> (r: KeyImp)
        ensures
            r@ == encode_utf8(s@),
    {
        KeyImp { bytes: copy_bytes(s.as_bytes()) }
    }
}

/// A value: a byte string.
#[derive(Clone, Debug)]
pub struct ValueImp {
    v: Vec<u8>,
}

impl View for ValueImp {
    type V = Seq<u8>;

    closed spec fn view(&self) -> Seq<u8> {
        self.v@
    }
}

impl ValueImp {
    /// The value with the given bytes.
    pub fn new(value: &[u8]) -> (r: Self)
        ensures
            r@ == value@,
    {
        ValueImp { v: copy_bytes(value) }
    }

    /// The value's bytes.
    pub fn as_bytes(&self) -> (r: &[u8])
        ensures
            r@ == self@,
    {
        self.v.as_slice()
    }

    /// A copy of the value.
    pub fn clone_value(&self) -> (r: Self)
        ensures
            r@ == self@,
    {
        ValueImp { v: copy_bytes(self.v.as_slice()) }
    }
}

impl PartialEq for ValueImp {
    /// Two values are equal when their bytes are.
    fn eq(&self, other: &Self) -> (r: bool) {
        if self.v.len() != other.v.len() {
            return false;
        }
        let mut i: usize = 0;
        while i < self.v.len()
            invariant
                self.v@.len() == other.v@.len(),
                i <= self.v@.len(),
                forall|j: int| 0 <= j < i ==> self.v@[j] == other.v@[j],
            decreases self.v@.len() - i,
        {
            if self.v[i] != other.v[i] {
                return false;
            }
            i += 1;
        }
        assert(self.v@ =~= other.v@);
        true
    }
}

impl vstd::std_specs::cmp::PartialEqSpecImpl for ValueImp {
    open spec fn obeys_eq_spec() -> bool {
        true
    }

    open spec fn eq_spec(&self, other: &Self) -> bool {
        self@ == other@
    }
}

/// Law: two values are equal exactly when they hold the same bytes: the same
/// length and the same byte at every position.
pub proof fn law_value_eq_is_byte_equality(a: ValueImp, b: ValueImp)
    ensures
        a.eq_spec(&b) <==> a@ == b@,
        a.eq_spec(&b) <==> (a@.len() == b@.len() && forall|i: int| 0 <= i < a@.len() ==> a@[i] == b@[i]),
        ValueImp::obeys_eq_spec(),
{
    if a@.len() == b@.len() && forall|i: int| 0 <= i < a@.len() ==> a@[i] == b@[i] {
        assert(a@ =~= b@);
    }
}

impl Eq for ValueImp {

}

impl Value for ValueImp {
    /// The value made of the UTF-8 bytes of `s`.
    fn from_str(s: &str) -> (r: ValueImp)
        ensures
            r@ == encode_utf8(s@),
    {
        let bytes = s.as_bytes();
        let mut v: Vec<u8> = Vec::new();
        let mut i: usize = 0;
        while i < bytes.len()
            invariant
                i <= bytes@.len(),
                v@ == bytes@.take(i as int),
            decreases bytes@.len() - i,
        {
            v.push(bytes[i]);
            i += 1;
            assert(v@ =~= bytes@.take(i as int));
        }
        assert(bytes@.take(bytes@.len() as int) =~= bytes@);
        ValueImp { v }
    }

    /// A value shows as text when its bytes are valid UTF-8.
    open spec fn printable(&self) -> bool {
        valid_utf8(self@)
    }

    /// The value's bytes read as UTF-8 text.
    fn to_str(&self) -> (r: String)
        ensures
            r@ == decode_utf8(self@),
    {
        utf8_string(copy_bytes(self.v.as_slice())).unwrap()
    }
}

/// Writes the encoding of `k` and `v` to `w`: the key's length in four
/// little-endian bytes, the key, the value's length, the value.
pub fn encode_kv<EW: EncoderWriter>(k: KeyImp, v: ValueImp, w: &mut EW)
    requires
        old(w).never_fails(),
    ensures
        final(w).written() == old(w).written() + kv_encoding(k@, v@),
        final(w).never_fails(),
{
    w.write(&convert_usize_to_u8_array(k.bytes.len())).unwrap();
    w.write(&k.bytes).unwrap();
    w.write(&convert_usize_to_u8_array(v.v.len())).unwrap();
    w.write(&v.v).unwrap();
    assert(w.written() =~= old(w).written() + kv_encoding(k@, v@));
}

/// Reads one encoded key and value from `r`.
pub fn decode_kv<DR: DecoderReader>(r: &mut DR) -> (res: (KeyImp, ValueImp))
    requires
        decodable(old(r).unread()),
        pow256(4) <= usize::MAX,
    ensures
        res.0@ == decoded_key(old(r).unread()),
        res.1@ == decoded_value(old(r).unread()),
        final(r).unread() == old(r).unread().skip(encoded_len(old(r).unread()) as int),
{
    let ghost s = r.unread();
    let key_size = r.read_size();
    assert(s.subrange(0, 4) =~= s.take(4));
    let key_content = r.read(key_size);
    let key = KeyImp::new(key_content);
    assert(key@ =~= decoded_key(s));
    let ghost s2 = r.unread();
    assert(s2 =~= s.skip(4 + key_size));
    let value_size = r.read_size();
    assert(s2.take(4) =~= s.subrange(4 + key_size as int, 8 + key_size as int));
    let value_content = r.read(value_size);
    let value = ValueImp::new(value_content);
    assert(value@ =~= decoded_value(s));
    assert(r.unread() =~= s.skip(encoded_len(s) as int));
    (key, value)
}

} // verus!
