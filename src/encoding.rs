use vstd::prelude::*;
use crate::primitives::{Address, Money};

verus! {

/// Byte `i` (little-endian) of `v`.
pub open spec fn money_byte(v: u64, i: u64) -> u8 {
    ((v >> (8 * i)) & 0xff) as u8
}

/// The fixed-width, little-endian, eight-byte form of a balance.
pub open spec fn money_bytes(v: u64) -> Seq<u8> {
    seq![
        money_byte(v, 0), money_byte(v, 1), money_byte(v, 2), money_byte(v, 3),
        money_byte(v, 4), money_byte(v, 5), money_byte(v, 6), money_byte(v, 7),
    ]
}

/// The balance that eight little-endian bytes stand for.
pub open spec fn money_of_bytes(b: Seq<u8>) -> u64
    recommends b.len() == 8,
{
    (b[0] as u64) | ((b[1] as u64) << 8) | ((b[2] as u64) << 16) | ((b[3] as u64) << 24)
        | ((b[4] as u64) << 32) | ((b[5] as u64) << 40) | ((b[6] as u64) << 48)
        | ((b[7] as u64) << 56)
}

/// Decoding the encoded form of a balance gives the balance back.
pub proof fn lemma_money_round_trip(v: u64)
    ensures
        money_bytes(v).len() == 8,
        money_of_bytes(money_bytes(v)) == v,
{
    let b = money_bytes(v);
    assert(b.len() == 8);
    assert(money_of_bytes(b) == v) by {
        assert(b[0] == money_byte(v, 0));
        assert(b[1] == money_byte(v, 1));
        assert(b[2] == money_byte(v, 2));
        assert(b[3] == money_byte(v, 3));
        assert(b[4] == money_byte(v, 4));
        assert(b[5] == money_byte(v, 5));
        assert(b[6] == money_byte(v, 6));
        assert(b[7] == money_byte(v, 7));
        assert(((((v >> 0) & 0xff) as u8) as u64) | (((((v >> 8) & 0xff) as u8) as u64) << 8)
            | (((((v >> 16) & 0xff) as u8) as u64) << 16) | (((((v >> 24) & 0xff) as u8) as u64) << 24)
            | (((((v >> 32) & 0xff) as u8) as u64) << 32) | (((((v >> 40) & 0xff) as u8) as u64) << 40)
            | (((((v >> 48) & 0xff) as u8) as u64) << 48) | (((((v >> 56) & 0xff) as u8) as u64) << 56)
            == v) by (bit_vector);
    }
}

/// The stored form of a balance: eight bytes, least significant first.
pub fn encode_money(v: Money) -> (r: Vec<u8>)
    ensures
        r@ == money_bytes(v),
{
    let mut r: Vec<u8> = Vec::with_capacity(8);
    let mut i: u64 = 0;
    while i < 8
        invariant
            i <= 8,
            r@.len() == i,
            forall|j: int| 0 <= j < i ==> r@[j] == money_byte(v, j as u64),
        decreases 8 - i,
    {
        r.push(((v >> (8 * i)) & 0xff) as u8);
        i = i + 1;
    }
    assert(r@ =~= money_bytes(v));
    r
}

/// Reads a stored balance; `None` where the value is not eight bytes long.
pub fn decode_money(b: &Vec<u8>) -> (r: Option<Money>)
    ensures
        r == (if b@.len() == 8 { Some(money_of_bytes(b@)) } else { None::<u64> }),
{
    if b.len() != 8 {
        return None;
    }
    Some((b[0] as u64) | ((b[1] as u64) << 8) | ((b[2] as u64) << 16) | ((b[3] as u64) << 24)
        | ((b[4] as u64) << 32) | ((b[5] as u64) << 40) | ((b[6] as u64) << 48)
        | ((b[7] as u64) << 56))
}

} // verus!

verus! {

/// A key of the store: a string whose prefix names the kind of entity.
#[derive(Clone, Debug)]
pub struct StringKey(String);

impl View for StringKey {
    type V = Seq<char>;

    closed spec fn view(&self) -> Seq<char> {
        self.0@
    }
}

impl StringKey {
    pub fn new(s: &str) -> (r: StringKey)
        ensures
            r@ == s@,
    {
        StringKey(s.to_owned())
    }

    pub fn as_str(&self) -> (r: &str)
        ensures
            r@ == self@,
    {
        self.0.as_str()
    }

    /// A copy of the key.
    pub fn duplicate(&self) -> (r: StringKey)
        ensures
            r@ == self@,
    {
        StringKey(self.0.clone())
    }

    /// Whether two keys are the same string.
    pub fn same_as(&self, other: &StringKey) -> (r: bool)
        ensures
            r == (self@ == other@),
    {
        self.0 == other.0
    }
}

/// Lower-case hexadecimal digit for `n < 16`.
pub open spec fn hex_char(n: u64) -> char {
    if n < 10 {
        (('0' as u64) + n) as char
    } else {
        (('a' as u64) + n - 10) as char
    }
}

/// Nibble `i` of `v`, counted from the most significant one.
pub open spec fn nibble(v: u64, i: int) -> u64 {
    (v >> ((60 - 4 * i) as u64)) & 0xf
}

/// Sixteen hex digits, most significant first.
pub open spec fn hex16(v: u64) -> Seq<char> {
    Seq::new(16, |i: int| hex_char(nibble(v, i)))
}

/// Store key of an account balance.
pub open spec fn addr_key(a: Address) -> Seq<char> {
    "addr_"@ + hex16(a.0)
}

/// Store key of the chain height.
pub open spec fn height_key() -> Seq<char> {
    "chain_height"@
}

proof fn lemma_hex_char_injective(x: u64, y: u64)
    requires
        x < 16,
        y < 16,
        hex_char(x) == hex_char(y),
    ensures
        x == y,
{
}

/// Distinct accounts have distinct keys, and none of them is the height key.
pub proof fn lemma_addr_key_injective(a: Address, b: Address)
    ensures
        addr_key(a) == addr_key(b) ==> a == b,
        addr_key(a) != height_key(),
{
    reveal_strlit("addr_");
    reveal_strlit("chain_height");
    assert(addr_key(a).len() == 21);
    assert(height_key().len() == 12);
    if addr_key(a) == addr_key(b) {
        let (x, y) = (a.0, b.0);
        assert forall|i: int| 0 <= i < 16 implies nibble(x, i) == nibble(y, i) by {
            assert(addr_key(a)[5 + i] == hex16(x)[i]);
            assert(addr_key(b)[5 + i] == hex16(y)[i]);
            let (p, q) = (nibble(x, i), nibble(y, i));
            assert(p < 16 && q < 16) by {
                let s = (60 - 4 * i) as u64;
                assert((x >> s) & 0xf < 16 && (y >> s) & 0xf < 16) by (bit_vector);
            }
            lemma_hex_char_injective(p, q);
        }
        assert(nibble(x, 0) == nibble(y, 0));
        assert(nibble(x, 1) == nibble(y, 1));
        assert(nibble(x, 2) == nibble(y, 2));
        assert(nibble(x, 3) == nibble(y, 3));
        assert(nibble(x, 4) == nibble(y, 4));
        assert(nibble(x, 5) == nibble(y, 5));
        assert(nibble(x, 6) == nibble(y, 6));
        assert(nibble(x, 7) == nibble(y, 7));
        assert(nibble(x, 8) == nibble(y, 8));
        assert(nibble(x, 9) == nibble(y, 9));
        assert(nibble(x, 10) == nibble(y, 10));
        assert(nibble(x, 11) == nibble(y, 11));
        assert(nibble(x, 12) == nibble(y, 12));
        assert(nibble(x, 13) == nibble(y, 13));
        assert(nibble(x, 14) == nibble(y, 14));
        assert(nibble(x, 15) == nibble(y, 15));
        assert(x == y) by (bit_vector)
            requires
                (x >> 60) & 0xf == (y >> 60) & 0xf,
                (x >> 56) & 0xf == (y >> 56) & 0xf,
                (x >> 52) & 0xf == (y >> 52) & 0xf,
                (x >> 48) & 0xf == (y >> 48) & 0xf,
                (x >> 44) & 0xf == (y >> 44) & 0xf,
                (x >> 40) & 0xf == (y >> 40) & 0xf,
                (x >> 36) & 0xf == (y >> 36) & 0xf,
                (x >> 32) & 0xf == (y >> 32) & 0xf,
                (x >> 28) & 0xf == (y >> 28) & 0xf,
                (x >> 24) & 0xf == (y >> 24) & 0xf,
                (x >> 20) & 0xf == (y >> 20) & 0xf,
                (x >> 16) & 0xf == (y >> 16) & 0xf,
                (x >> 12) & 0xf == (y >> 12) & 0xf,
                (x >> 8) & 0xf == (y >> 8) & 0xf,
                (x >> 4) & 0xf == (y >> 4) & 0xf,
                (x >> 0) & 0xf == (y >> 0) & 0xf,
        ;
    }
}

/// The digit string of one nibble.
fn hex_digit(n: u64) -> (r: &'static str)
    requires
        n < 16,
    ensures
        r@ == seq![hex_char(n)],
{
    let r = match n {
        0 => "0",
        1 => "1",
        2 => "2",
        3 => "3",
        4 => "4",
        5 => "5",
        6 => "6",
        7 => "7",
        8 => "8",
        9 => "9",
        10 => "a",
        11 => "b",
        12 => "c",
        13 => "d",
        14 => "e",
        _ => "f",
    };
    proof {
        reveal_strlit("0");
        reveal_strlit("1");
        reveal_strlit("2");
        reveal_strlit("3");
        reveal_strlit("4");
        reveal_strlit("5");
        reveal_strlit("6");
        reveal_strlit("7");
        reveal_strlit("8");
        reveal_strlit("9");
        reveal_strlit("a");
        reveal_strlit("b");
        reveal_strlit("c");
        reveal_strlit("d");
        reveal_strlit("e");
        reveal_strlit("f");
        assert(r@ =~= seq![hex_char(n)]);
    }
    r
}

/// An entity stored under a key of its own.
pub trait Identifiable {
    /// The key of `self`.
    spec fn key_of(&self) -> Seq<char>;

    fn get_key(&self) -> (r: StringKey)
        ensures
            r@ == self.key_of(),
    ;
}

impl Identifiable for Address {
    open spec fn key_of(&self) -> Seq<char> {
        addr_key(*self)
    }

    fn get_key(&self) -> (r: StringKey) {
        address_key(self)
    }
}

/// The key under which an account's balance is stored.
fn address_key(a: &Address) -> (r: StringKey)
    ensures
        r@ == addr_key(*a),
{
    let mut s = "addr_".to_owned();
    let v: u64 = a.0;
    let mut i: u64 = 0;
    while i < 16
        invariant
            i <= 16,
            v == a.0,
            s@ == "addr_"@ + hex16(a.0).take(i as int),
        decreases 16 - i,
    {
        let sh: u64 = 60 - 4 * i;
        let n = (v >> sh) & 0xf;
        assert(n < 16) by (bit_vector)
            requires n == (v >> sh) & 0xf;
        s.append(hex_digit(n));
        proof {
            assert(hex16(a.0).take(i + 1) =~= hex16(a.0).take(i as int).push(hex_char(n)));
        }
        i = i + 1;
    }
    assert(hex16(a.0).take(16) =~= hex16(a.0));
    StringKey(s)
}

/// The key under which the chain height is stored.
pub fn height_store_key() -> (r: StringKey)
    ensures
        r@ == height_key(),
{
    StringKey::new("chain_height")
}

} // verus!
