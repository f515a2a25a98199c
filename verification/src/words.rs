//! Thirty-two-bit words and the bytes that make them up.
use vstd::prelude::*;
use vstd::slice::*;

verus! {

/// Which end of a word comes first.
#[derive(Clone, Copy, Debug, PartialEq, Eq, Structural)]
pub enum ByteOrder {
    Little,
    Big,
}

/// The number that four bytes make up, the lowest byte first.
pub open spec fn le_word(b: Seq<u8>) -> int
    recommends
        b.len() == 4,
{
    b[0] + 0x100 * b[1] + 0x1_0000 * b[2] + 0x100_0000 * b[3]
}

/// The number that four bytes make up, the highest byte first.
pub open spec fn be_word(b: Seq<u8>) -> int
    recommends
        b.len() == 4,
{
    b[3] + 0x100 * b[2] + 0x1_0000 * b[1] + 0x100_0000 * b[0]
}

/// The number that four bytes make up.
pub open spec fn word_of(order: ByteOrder, b: Seq<u8>) -> u32
    recommends
        b.len() == 4,
{
    match order {
        ByteOrder::Little => le_word(b) as u32,
        ByteOrder::Big => be_word(b) as u32,
    }
}

/// The four bytes of a number, the lowest first.
pub open spec fn le_bytes(x: u32) -> Seq<u8> {
    seq![
        (x % 0x100) as u8,
        (x / 0x100 % 0x100) as u8,
        (x / 0x1_0000 % 0x100) as u8,
        (x / 0x100_0000) as u8,
    ]
}

/// The words in a byte string; bytes that do not fill a word are left out.
pub open spec fn words_of(order: ByteOrder, bytes: Seq<u8>) -> Seq<u32> {
    Seq::new(bytes.len() / 4, |i: int| word_of(order, bytes.subrange(4 * i, 4 * i + 4)))
}

/// The word that starts at the given place.
pub fn word_at(order: ByteOrder, bytes: &[u8], at: usize) -> (r: u32)
    requires
        at + 4 <= bytes@.len(),
    ensures
        r == word_of(order, bytes@.subrange(at as int, at + 4)),
{
    let b0 = bytes[at] as u32;
    let b1 = bytes[at + 1] as u32;
    let b2 = bytes[at + 2] as u32;
    let b3 = bytes[at + 3] as u32;
    match order {
        ByteOrder::Little => b0 + 0x100 * b1 + 0x1_0000 * b2 + 0x100_0000 * b3,
        ByteOrder::Big => b3 + 0x100 * b2 + 0x1_0000 * b1 + 0x100_0000 * b0,
    }
}

/// The words in a byte string.
pub fn all_words(order: ByteOrder, bytes: &[u8]) -> (r: Vec<u32>)
    ensures
        r@ == words_of(order, bytes@),
{
    let mut out: Vec<u32> = Vec::new();
    let mut at: usize = 0;
    while bytes.len() - at >= 4
        invariant
            at <= bytes@.len(),
            at == 4 * out.len(),
            forall|k: int| 0 <= k < out.len() ==> #[trigger] out@[k] == words_of(order, bytes@)[k],
        decreases bytes@.len() - at,
    {
        out.push(word_at(order, bytes, at));
        at += 4;
    }
    assert(out@ =~= words_of(order, bytes@));
    out
}

/// Appends the four bytes of a number, the lowest first.
pub fn push_le_bytes(out: &mut Vec<u8>, x: u32)
    ensures
        final(out)@ == old(out)@ + le_bytes(x),
{
    out.push((x % 0x100) as u8);
    out.push((x / 0x100 % 0x100) as u8);
    out.push((x / 0x1_0000 % 0x100) as u8);
    out.push((x / 0x100_0000) as u8);
    assert(out@ =~= old(out)@ + le_bytes(x));
}

/// A number is what its bytes make up.
pub proof fn law_le_bytes_read_back(x: u32)
    ensures
        le_bytes(x).len() == 4,
        word_of(ByteOrder::Little, le_bytes(x)) == x,
{
}

/// Each word is made up of four bytes of its own, weighed by their place; bytes
/// that do not fill a word are left out.
pub proof fn law_words_weigh_their_bytes(bytes: Seq<u8>, i: int)
    ensures
        words_of(ByteOrder::Little, bytes).len() == bytes.len() / 4,
        words_of(ByteOrder::Big, bytes).len() == bytes.len() / 4,
        0 <= i < bytes.len() / 4 ==> words_of(ByteOrder::Little, bytes)[i] == bytes[4 * i] + 256
            * bytes[4 * i + 1] + 65536 * bytes[4 * i + 2] + 16777216 * bytes[4 * i + 3],
        0 <= i < bytes.len() / 4 ==> words_of(ByteOrder::Big, bytes)[i] == 16777216 * bytes[4 * i]
            + 65536 * bytes[4 * i + 1] + 256 * bytes[4 * i + 2] + bytes[4 * i + 3],
{
}

/// The bytes of a number, weighed by their place, add up to it.
pub proof fn law_le_bytes_add_up(x: u32)
    ensures
        le_bytes(x).len() == 4,
        le_bytes(x)[0] + 256 * le_bytes(x)[1] + 65536 * le_bytes(x)[2] + 16777216 * le_bytes(x)[3]
            == x,
{
}

/// Calls `u32::from_ne_bytes`: the result is the number that the bytes make up
/// in the byte order of the machine, which is one of the two.
#[verifier::external_body]
fn from_ne_bytes(bytes: [u8; 4]) -> (r: u32)
    ensures
        r == le_word(bytes@) || r == be_word(bytes@),
{
    u32::from_ne_bytes(bytes)
}

/// The byte order in which the bytes 1, 0, 0, 0 make up the given number.
pub fn order_of_probe(word: u32) -> (r: ByteOrder)
    ensures
        r == if word == 1 {
            ByteOrder::Little
        } else {
            ByteOrder::Big
        },
{
    if word == 1 {
        ByteOrder::Little
    } else {
        ByteOrder::Big
    }
}

/// Whether the machine can have this byte order: `u32::from_ne_bytes` can have
/// made of the bytes 1, 0, 0, 0 the number that they make up in this order.
pub closed spec fn is_native(order: ByteOrder) -> bool {
    exists|probe: [u8; 4], word: u32| #[trigger]
        call_ensures(from_ne_bytes, (probe,), word) && probe@ == seq![1u8, 0u8, 0u8, 0u8] && word
            == word_of(order, probe@)
}

/// The byte order of the machine. Which of the two it is depends on the
/// machine alone; it is the one in which the machine read four known bytes.
pub(crate) fn native_order() -> (r: ByteOrder)
    ensures
        is_native(r),
{
    let probe: [u8; 4] = [1, 0, 0, 0];
    assert(probe@ =~= seq![1u8, 0u8, 0u8, 0u8]);
    let word = from_ne_bytes(probe);
    assert(call_ensures(from_ne_bytes, (probe,), word));
    order_of_probe(word)
}

} // verus!
