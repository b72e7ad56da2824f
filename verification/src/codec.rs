//! The element codec: a fixed-width, little-endian byte form for each
//! supported element type.
//!
//! Encoding and decoding of the integer types is done by the `desse` crate;
//! what this module adds is the statement of what those bytes are, and the
//! proof that decoding undoes encoding.
use vstd::prelude::*;
use crate::error::Error;

verus! {

/// The `n` low-order base-256 digits of `value`, least significant first.
pub open spec fn le_bytes(value: nat, n: nat) -> Seq<u8>
    decreases n,
{
    if n == 0 {
        Seq::empty()
    } else {
        seq![(value % 256) as u8] + le_bytes(value / 256, (n - 1) as nat)
    }
}

/// The number whose base-256 digits, least significant first, are `bytes`.
pub open spec fn le_value(bytes: Seq<u8>) -> nat
    decreases bytes.len(),
{
    if bytes.len() == 0 {
        0
    } else {
        bytes[0] as nat + 256 * le_value(bytes.drop_first())
    }
}

/// `256^n`: the number of values that `n` bytes can tell apart.
pub open spec fn radix(n: nat) -> nat
    decreases n,
{
    if n == 0 {
        1
    } else {
        256 * radix((n - 1) as nat)
    }
}

/// `le_bytes` yields exactly as many bytes as it is asked for.
pub proof fn lemma_le_bytes_len(value: nat, n: nat)
    ensures
        le_bytes(value, n).len() == n,
    decreases n,
{
    if n > 0 {
        lemma_le_bytes_len(value / 256, (n - 1) as nat);
    }
}

/// A value that fits in `n` bytes is read back from its `n` digits.
pub proof fn lemma_le_round_trip(value: nat, n: nat)
    requires
        value < radix(n),
    ensures
        le_value(le_bytes(value, n)) == value,
    decreases n,
{
    if n > 0 {
        let rest = le_bytes(value / 256, (n - 1) as nat);
        let all = le_bytes(value, n);
        lemma_le_round_trip(value / 256, (n - 1) as nat);
        lemma_le_bytes_len(value / 256, (n - 1) as nat);
        assert(all.drop_first() =~= rest);
        assert(all[0] == (value % 256) as u8);
    }
}

/// What `n` bytes denote is below `256^n`.
pub proof fn lemma_le_value_bound(bytes: Seq<u8>)
    ensures
        le_value(bytes) < radix(bytes.len()),
    decreases bytes.len(),
{
    if bytes.len() > 0 {
        lemma_le_value_bound(bytes.drop_first());
    }
}

/// A type whose values have a fixed-width byte form.
///
/// `decoding` undoes `encoding`, and every encoding is `width()` bytes long:
/// that is what `lemma_codec` obliges an implementation to prove.
pub trait Element: Sized {
    /// The number of bytes in every encoded value.
    spec fn width() -> nat;

    /// The bytes that stand for `self`.
    spec fn encoding(self) -> Seq<u8>;

    /// The value that `bytes` stand for.
    spec fn decoding(bytes: Seq<u8>) -> Self;

    /// The laws of a codec: the width is positive and fits the machine,
    /// every encoding has that width, and decoding undoes encoding.
    proof fn lemma_codec()
        ensures
            0 < Self::width() <= usize::MAX,
            forall|v: Self| (#[trigger] v.encoding()).len() == Self::width(),
            forall|v: Self| Self::decoding(#[trigger] v.encoding()) == v,
    ;

    /// The width, as a number the program can compute with.
    fn size() -> (n: usize)
        ensures
            n == Self::width(),
    ;

    /// The bytes that stand for `self`, in a buffer of their own.
    fn encode(&self) -> (bytes: Vec<u8>)
        ensures
            bytes@ == self.encoding(),
    ;

    /// The value that `bytes`, one element wide, stand for.
    fn decode(bytes: &[u8]) -> (value: Self)
        requires
            bytes@.len() == Self::width(),
        ensures
            value == Self::decoding(bytes@),
    ;

    /// Whether two values are the same value.
    fn same(&self, other: &Self) -> (equal: bool)
        ensures
            equal == (*self == *other),
    ;
}

/// `<u8 as desse::Desse>::serialize`: the value as its one byte.
#[verifier::external_body]
fn desse_serialize_u8(value: u8) -> (bytes: Vec<u8>)
    ensures
        bytes@ == le_bytes(value as nat, 1),
{
    desse::Desse::serialize(&value).to_vec()
}

/// `<u8 as desse::Desse>::deserialize_from`: the value of one byte.
#[verifier::external_body]
fn desse_deserialize_u8(bytes: &[u8]) -> (value: u8)
    requires
        bytes@.len() == 1,
    ensures
        value as nat == le_value(bytes@),
{
    let mut buf = [0u8; 1];
    buf.copy_from_slice(bytes);
    desse::Desse::deserialize_from(&buf)
}

/// `<u16 as desse::Desse>::serialize`: the two bytes of the value, least
/// significant first.
#[verifier::external_body]
fn desse_serialize_u16(value: u16) -> (bytes: Vec<u8>)
    ensures
        bytes@ == le_bytes(value as nat, 2),
{
    desse::Desse::serialize(&value).to_vec()
}

/// `<u16 as desse::Desse>::deserialize_from`: the value whose two bytes,
/// least significant first, are given.
#[verifier::external_body]
fn desse_deserialize_u16(bytes: &[u8]) -> (value: u16)
    requires
        bytes@.len() == 2,
    ensures
        value as nat == le_value(bytes@),
{
    let mut buf = [0u8; 2];
    buf.copy_from_slice(bytes);
    desse::Desse::deserialize_from(&buf)
}

/// `<u32 as desse::Desse>::serialize`: the four bytes of the value, least
/// significant first.
#[verifier::external_body]
fn desse_serialize_u32(value: u32) -> (bytes: Vec<u8>)
    ensures
        bytes@ == le_bytes(value as nat, 4),
{
    desse::Desse::serialize(&value).to_vec()
}

/// `<u32 as desse::Desse>::deserialize_from`: the value whose four bytes,
/// least significant first, are given.
#[verifier::external_body]
fn desse_deserialize_u32(bytes: &[u8]) -> (value: u32)
    requires
        bytes@.len() == 4,
    ensures
        value as nat == le_value(bytes@),
{
    let mut buf = [0u8; 4];
    buf.copy_from_slice(bytes);
    desse::Desse::deserialize_from(&buf)
}

/// `<u64 as desse::Desse>::serialize`: the eight bytes of the value, least
/// significant first.
#[verifier::external_body]
fn desse_serialize_u64(value: u64) -> (bytes: Vec<u8>)
    ensures
        bytes@ == le_bytes(value as nat, 8),
{
    desse::Desse::serialize(&value).to_vec()
}

/// `<u64 as desse::Desse>::deserialize_from`: the value whose eight bytes,
/// least significant first, are given.
#[verifier::external_body]
fn desse_deserialize_u64(bytes: &[u8]) -> (value: u64)
    requires
        bytes@.len() == 8,
    ensures
        value as nat == le_value(bytes@),
{
    let mut buf = [0u8; 8];
    buf.copy_from_slice(bytes);
    desse::Desse::deserialize_from(&buf)
}

impl Element for u8 {
    open spec fn width() -> nat {
        1
    }

    open spec fn encoding(self) -> Seq<u8> {
        le_bytes(self as nat, 1)
    }

    open spec fn decoding(bytes: Seq<u8>) -> Self {
        le_value(bytes) as u8
    }

    proof fn lemma_codec() {
        assert(radix(1) == 256) by {
            reveal_with_fuel(radix, 2);
        }
        assert forall|v: u8| (#[trigger] v.encoding()).len() == 1 by {
            lemma_le_bytes_len(v as nat, 1);
        }
        assert forall|v: u8| Self::decoding(#[trigger] v.encoding()) == v by {
            lemma_le_round_trip(v as nat, 1);
        }
    }

    fn size() -> (n: usize) {
        1
    }

    fn encode(&self) -> (bytes: Vec<u8>) {
        desse_serialize_u8(*self)
    }

    fn decode(bytes: &[u8]) -> (value: Self) {
        proof {
            lemma_le_value_bound(bytes@);
            assert(radix(1) == 256) by {
                reveal_with_fuel(radix, 2);
            }
        }
        desse_deserialize_u8(bytes)
    }

    fn same(&self, other: &Self) -> (equal: bool) {
        *self == *other
    }
}

impl Element for u16 {
    open spec fn width() -> nat {
        2
    }

    open spec fn encoding(self) -> Seq<u8> {
        le_bytes(self as nat, 2)
    }

    open spec fn decoding(bytes: Seq<u8>) -> Self {
        le_value(bytes) as u16
    }

    proof fn lemma_codec() {
        assert(radix(2) == 0x1_0000) by {
            reveal_with_fuel(radix, 3);
        }
        assert forall|v: u16| (#[trigger] v.encoding()).len() == 2 by {
            lemma_le_bytes_len(v as nat, 2);
        }
        assert forall|v: u16| Self::decoding(#[trigger] v.encoding()) == v by {
            lemma_le_round_trip(v as nat, 2);
        }
    }

    fn size() -> (n: usize) {
        2
    }

    fn encode(&self) -> (bytes: Vec<u8>) {
        desse_serialize_u16(*self)
    }

    fn decode(bytes: &[u8]) -> (value: Self) {
        proof {
            lemma_le_value_bound(bytes@);
            assert(radix(2) == 0x1_0000) by {
                reveal_with_fuel(radix, 3);
            }
        }
        desse_deserialize_u16(bytes)
    }

    fn same(&self, other: &Self) -> (equal: bool) {
        *self == *other
    }
}

impl Element for u32 {
    open spec fn width() -> nat {
        4
    }

    open spec fn encoding(self) -> Seq<u8> {
        le_bytes(self as nat, 4)
    }

    open spec fn decoding(bytes: Seq<u8>) -> Self {
        le_value(bytes) as u32
    }

    proof fn lemma_codec() {
        assert(radix(4) == 0x1_0000_0000) by {
            reveal_with_fuel(radix, 5);
        }
        assert forall|v: u32| (#[trigger] v.encoding()).len() == 4 by {
            lemma_le_bytes_len(v as nat, 4);
        }
        assert forall|v: u32| Self::decoding(#[trigger] v.encoding()) == v by {
            lemma_le_round_trip(v as nat, 4);
        }
    }

    fn size() -> (n: usize) {
        4
    }

    fn encode(&self) -> (bytes: Vec<u8>) {
        desse_serialize_u32(*self)
    }

    fn decode(bytes: &[u8]) -> (value: Self) {
        proof {
            lemma_le_value_bound(bytes@);
            assert(radix(4) == 0x1_0000_0000) by {
                reveal_with_fuel(radix, 5);
            }
        }
        desse_deserialize_u32(bytes)
    }

    fn same(&self, other: &Self) -> (equal: bool) {
        *self == *other
    }
}

impl Element for u64 {
    open spec fn width() -> nat {
        8
    }

    open spec fn encoding(self) -> Seq<u8> {
        le_bytes(self as nat, 8)
    }

    open spec fn decoding(bytes: Seq<u8>) -> Self {
        le_value(bytes) as u64
    }

    proof fn lemma_codec() {
        assert(radix(8) == 0x1_0000_0000_0000_0000) by {
            reveal_with_fuel(radix, 9);
        }
        assert forall|v: u64| (#[trigger] v.encoding()).len() == 8 by {
            lemma_le_bytes_len(v as nat, 8);
        }
        assert forall|v: u64| Self::decoding(#[trigger] v.encoding()) == v by {
            lemma_le_round_trip(v as nat, 8);
        }
    }

    fn size() -> (n: usize) {
        8
    }

    fn encode(&self) -> (bytes: Vec<u8>) {
        desse_serialize_u64(*self)
    }

    fn decode(bytes: &[u8]) -> (value: Self) {
        proof {
            lemma_le_value_bound(bytes@);
            assert(radix(8) == 0x1_0000_0000_0000_0000) by {
                reveal_with_fuel(radix, 9);
            }
        }
        desse_deserialize_u64(bytes)
    }

    fn same(&self, other: &Self) -> (equal: bool) {
        *self == *other
    }
}

/// Encodes `value` into a buffer of its own.
pub fn ser_to<T: Element>(value: &T) -> (bytes: Vec<u8>)
    ensures
        bytes@ == value.encoding(),
        bytes@.len() == T::width(),
{
    proof {
        T::lemma_codec();
    }
    value.encode()
}

/// Decodes the element that `buf` holds, provided `buf` is exactly one
/// element wide.
pub fn de_from<T: Element>(buf: &[u8]) -> (decoded: Result<T, Error>)
    ensures
        buf@.len() == T::width() ==> decoded == Ok::<T, Error>(T::decoding(buf@)),
        buf@.len() != T::width() ==> decoded == Err::<T, Error>(
            Error::InequalSizeForDe(buf@.len() as usize, T::width() as usize),
        ),
{
    let se_size = T::size();
    if buf.len() != se_size {
        return Err(Error::InequalSizeForDe(buf.len(), se_size));
    }
    Ok(T::decode(buf))
}

} // verus!
