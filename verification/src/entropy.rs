//! The raw fuzzing input that generated values are drawn from, through the
//! `arbitrary` crate.
use vstd::prelude::*;

use arbitrary::Unstructured;

verus! {

#[verifier::external_type_specification]
#[verifier::external_body]
pub struct ExUnstructured<'a>(Unstructured<'a>);

/// Why drawing from the input failed.
#[derive(PartialEq, Eq, Clone, Copy, Debug)]
pub enum DataError {
    /// A choice among no alternatives was asked for.
    EmptyChoose,
    /// Fewer bytes were left than were asked for.
    NotEnoughData,
    /// The input bytes were not of the right format.
    IncorrectFormat,
}

/// The fuzzing input, with the bytes that are left of it: every draw takes
/// what it needs from the front of those bytes, and what it gives back is a
/// function of them alone.
pub struct Entropy<'a> {
    u: Unstructured<'a>,
    data: Ghost<Seq<u8>>,
}

impl<'a> Entropy<'a> {
    /// The bytes of the input that are left to draw from.
    pub closed spec fn data(&self) -> Seq<u8> {
        self.data@
    }

    /// The whole of `bytes`, left to draw from.
    pub fn new(bytes: &'a [u8]) -> (r: Entropy<'a>)
        ensures
            r.data() == bytes@,
    {
        Entropy { u: unstructured(bytes), data: Ghost(bytes@) }
    }
}

/// `Unstructured::new`: an input made of `bytes`.
#[verifier::external_body]
fn unstructured<'a>(bytes: &'a [u8]) -> Unstructured<'a> {
    Unstructured::new(bytes)
}

/// The index below `len` that `Unstructured::choose_index` reads from the
/// bytes `data`, and the bytes that are left after it: `int_in_range` over
/// `0..=len - 1` takes as many bytes as `len - 1` needs (no more than are
/// left), reads them most significant first, and takes that modulo `len`;
/// where there is one choice it takes nothing.
#[verifier::opaque]
pub open spec fn index_drawn(data: Seq<u8>, len: usize) -> (usize, Seq<u8>) {
    if len <= 1 {
        (0, data)
    } else {
        let need = byte_len((len - 1) as nat);
        let n = if data.len() < need {
            data.len()
        } else {
            need
        };
        ((be_value(data.take(n as int)) % (len as nat)) as usize, data.skip(n as int))
    }
}

/// The number of bytes that hold `d`: none for zero.
pub open spec fn byte_len(d: nat) -> nat
    decreases d,
{
    if d == 0 {
        0
    } else {
        1 + byte_len(d / 256)
    }
}

/// The number read, most significant byte first, from `b`.
pub open spec fn be_value(b: Seq<u8>) -> nat
    decreases b.len(),
{
    if b.len() == 0 {
        0
    } else {
        be_value(b.drop_last()) * 256 + b.last() as nat
    }
}

/// The number read, least significant byte first, from `b`.
pub open spec fn le_value(b: Seq<u8>) -> nat
    decreases b.len(),
{
    if b.len() == 0 {
        0
    } else {
        b[0] as nat + 256 * le_value(b.skip(1))
    }
}

/// How many of `n` bytes `data` can give.
pub open spec fn available(data: Seq<u8>, n: nat) -> nat {
    if data.len() < n {
        data.len()
    } else {
        n
    }
}

/// The unsigned integer of `n` bytes drawn from `data`: its first bytes,
/// least significant first, zeros standing in for missing ones.
pub open spec fn uint_drawn(data: Seq<u8>, n: nat) -> nat {
    le_value(data.take(available(data, n) as int))
}

/// What is left of `data` after an integer of `n` bytes is drawn.
pub open spec fn after_uint(data: Seq<u8>, n: nat) -> Seq<u8> {
    data.skip(available(data, n) as int)
}

/// The signed integer of eight bytes drawn from `data`: the unsigned one, in
/// two's complement.
pub open spec fn i64_drawn(data: Seq<u8>) -> int {
    if uint_drawn(data, 8) < 0x8000_0000_0000_0000 {
        uint_drawn(data, 8) as int
    } else {
        uint_drawn(data, 8) - 0x1_0000_0000_0000_0000
    }
}

/// `n` booleans drawn from `data` one after the other, and what is left of
/// it.
pub open spec fn bools_drawn(data: Seq<u8>, n: nat) -> (Seq<bool>, Seq<u8>)
    decreases n,
{
    if n == 0 {
        (Seq::empty(), data)
    } else {
        let (bs, rest) = bools_drawn(data, (n - 1) as nat);
        (bs.push(uint_drawn(rest, 1) % 2 == 1), after_uint(rest, 1))
    }
}

/// The byte vector drawn from `data`, and what is left of it: a byte whose
/// lowest bit is set is followed by an element, any other byte (or the end
/// of the input) ends the vector; an element missing at the end is a zero.
pub open spec fn byte_vec_drawn(data: Seq<u8>) -> (Seq<u8>, Seq<u8>)
    decreases data.len(),
{
    if data.len() == 0 {
        (Seq::empty(), data)
    } else if data[0] % 2 == 0 {
        (Seq::empty(), data.skip(1))
    } else if data.len() == 1 {
        (seq![0u8], Seq::empty())
    } else {
        let (v, rest) = byte_vec_drawn(data.skip(2));
        (seq![data[1]] + v, rest)
    }
}

/// `Unstructured::choose_index`: fails with `EmptyChoose`, taking nothing,
/// exactly when there is nothing to choose from; otherwise gives the index
/// below `len` that it reads from the bytes left, and takes what it read.
#[verifier::external_body]
pub(crate) fn choose_index(e: &mut Entropy, len: usize) -> (r: Result<usize, DataError>)
    ensures
        r is Err <==> len == 0,
        r matches Ok(i) ==> i < len && i == index_drawn(old(e).data(), len).0,
        r is Ok ==> final(e).data() == index_drawn(old(e).data(), len).1,
        r matches Err(x) ==> x == DataError::EmptyChoose && final(e).data() == old(e).data(),
{
    match e.u.choose_index(len) {
        Ok(i) => Ok(i),
        Err(arbitrary::Error::EmptyChoose) => Err(DataError::EmptyChoose),
        Err(arbitrary::Error::NotEnoughData) => Err(DataError::NotEnoughData),
        Err(_) => Err(DataError::IncorrectFormat),
    }
}

/// `Unstructured::choose`: draws an index as `choose_index` does and gives
/// the choice at it; fails with `EmptyChoose`, taking nothing, exactly when
/// there is nothing to choose from.
#[verifier::external_body]
pub(crate) fn choose_item<'b, T>(e: &mut Entropy, choices: &'b [T]) -> (r: Result<&'b T, DataError>)
    ensures
        r is Err <==> choices@.len() == 0,
        r matches Ok(x) ==> index_drawn(old(e).data(), choices@.len() as usize).0 < choices@.len()
            && *x == choices@[index_drawn(old(e).data(), choices@.len() as usize).0 as int],
        r is Ok ==> final(e).data() == index_drawn(old(e).data(), choices@.len() as usize).1,
        r matches Err(x) ==> x == DataError::EmptyChoose && final(e).data() == old(e).data(),
{
    match e.u.choose(choices) {
        Ok(x) => Ok(x),
        Err(arbitrary::Error::EmptyChoose) => Err(DataError::EmptyChoose),
        Err(arbitrary::Error::NotEnoughData) => Err(DataError::NotEnoughData),
        Err(_) => Err(DataError::IncorrectFormat),
    }
}

/// `Unstructured::bytes`: takes the next `size` bytes of the input, and fails
/// with `NotEnoughData`, taking nothing, where fewer are left.
#[verifier::external_body]
pub(crate) fn take_bytes(e: &mut Entropy, size: usize) -> (r: Result<Vec<u8>, DataError>)
    ensures
        r is Err <==> old(e).data().len() < size,
        r matches Ok(b) ==> b@ == old(e).data().take(size as int),
        r is Ok ==> final(e).data() == old(e).data().skip(size as int),
        r matches Err(x) ==> x == DataError::NotEnoughData && final(e).data() == old(e).data(),
{
    match e.u.bytes(size) {
        Ok(b) => Ok(b.to_vec()),
        Err(arbitrary::Error::EmptyChoose) => Err(DataError::EmptyChoose),
        Err(arbitrary::Error::NotEnoughData) => Err(DataError::NotEnoughData),
        Err(_) => Err(DataError::IncorrectFormat),
    }
}

/// `Unstructured::arbitrary::<i64>`: never fails; the eight bytes read, least
/// significant first, zeros standing in for missing ones, in two's
/// complement.
#[verifier::external_body]
pub(crate) fn arbitrary_i64(e: &mut Entropy) -> (r: Result<i64, DataError>)
    ensures
        r matches Ok(x) && x == i64_drawn(old(e).data()),
        final(e).data() == after_uint(old(e).data(), 8),
{
    match e.u.arbitrary::<i64>() {
        Ok(x) => Ok(x),
        Err(_) => Err(DataError::IncorrectFormat),
    }
}

/// `Unstructured::arbitrary::<u64>`: never fails; the eight bytes read, least
/// significant first, zeros standing in for missing ones.
#[verifier::external_body]
pub(crate) fn arbitrary_u64(e: &mut Entropy) -> (r: Result<u64, DataError>)
    ensures
        r matches Ok(x) && x == uint_drawn(old(e).data(), 8),
        final(e).data() == after_uint(old(e).data(), 8),
{
    match e.u.arbitrary::<u64>() {
        Ok(x) => Ok(x),
        Err(_) => Err(DataError::IncorrectFormat),
    }
}

/// `Unstructured::arbitrary::<u32>`: never fails; as for `u64`, from four
/// bytes.
#[verifier::external_body]
pub(crate) fn arbitrary_u32(e: &mut Entropy) -> (r: Result<u32, DataError>)
    ensures
        r matches Ok(x) && x == uint_drawn(old(e).data(), 4),
        final(e).data() == after_uint(old(e).data(), 4),
{
    match e.u.arbitrary::<u32>() {
        Ok(x) => Ok(x),
        Err(_) => Err(DataError::IncorrectFormat),
    }
}

/// `Unstructured::arbitrary::<u16>`: never fails; as for `u64`, from two
/// bytes.
#[verifier::external_body]
pub(crate) fn arbitrary_u16(e: &mut Entropy) -> (r: Result<u16, DataError>)
    ensures
        r matches Ok(x) && x == uint_drawn(old(e).data(), 2),
        final(e).data() == after_uint(old(e).data(), 2),
{
    match e.u.arbitrary::<u16>() {
        Ok(x) => Ok(x),
        Err(_) => Err(DataError::IncorrectFormat),
    }
}

/// `Unstructured::arbitrary::<u8>`: never fails; the next byte, zero where
/// none is left.
#[verifier::external_body]
pub(crate) fn arbitrary_u8(e: &mut Entropy) -> (r: Result<u8, DataError>)
    ensures
        r matches Ok(x) && x == uint_drawn(old(e).data(), 1),
        final(e).data() == after_uint(old(e).data(), 1),
{
    match e.u.arbitrary::<u8>() {
        Ok(x) => Ok(x),
        Err(_) => Err(DataError::IncorrectFormat),
    }
}

/// `Unstructured::arbitrary::<bool>`: never fails; whether the lowest bit of
/// the byte drawn as for `u8` is set.
#[verifier::external_body]
pub(crate) fn arbitrary_bool(e: &mut Entropy) -> (r: Result<bool, DataError>)
    ensures
        r matches Ok(x) && x == (uint_drawn(old(e).data(), 1) % 2 == 1),
        final(e).data() == after_uint(old(e).data(), 1),
{
    match e.u.arbitrary::<bool>() {
        Ok(x) => Ok(x),
        Err(_) => Err(DataError::IncorrectFormat),
    }
}

/// `Unstructured::arbitrary::<Vec<u8>>`: never fails; the vector and what is
/// left are as `byte_vec_drawn` says.
#[verifier::external_body]
pub(crate) fn arbitrary_byte_vec(e: &mut Entropy) -> (r: Result<Vec<u8>, DataError>)
    ensures
        r matches Ok(x) && x@ == byte_vec_drawn(old(e).data()).0,
        final(e).data() == byte_vec_drawn(old(e).data()).1,
{
    match e.u.arbitrary::<Vec<u8>>() {
        Ok(x) => Ok(x),
        Err(_) => Err(DataError::IncorrectFormat),
    }
}

} // verus!
