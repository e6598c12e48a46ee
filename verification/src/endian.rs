//! Little-endian numbers.
use vstd::prelude::*;

verus! {

/// The number that the bytes stand for, lowest byte first.
pub open spec fn le_value(bytes: Seq<u8>) -> nat
    decreases bytes.len(),
{
    if bytes.len() == 0 {
        0
    } else {
        bytes[0] as nat + 256 * le_value(bytes.drop_first())
    }
}

/// The lowest `len` bytes of a number, lowest byte first.
pub open spec fn le_bytes(value: nat, len: nat) -> Seq<u8>
    decreases len,
{
    if len == 0 {
        Seq::empty()
    } else {
        seq![(value % 256) as u8] + le_bytes(value / 256, (len - 1) as nat)
    }
}

/// The number of different values of `len` bytes.
pub open spec fn le_limit(len: nat) -> nat
    decreases len,
{
    if len == 0 {
        1
    } else {
        256 * le_limit((len - 1) as nat)
    }
}

/// Four and eight bytes hold the values of the integers of that size.
pub proof fn lemma_le_limits()
    ensures
        le_limit(4) == 0x1_0000_0000,
        le_limit(8) == 0x1_0000_0000_0000_0000,
{
    reveal_with_fuel(le_limit, 9);
}

/// What four and eight bytes stand for, written out.
pub proof fn lemma_le_value_sums(bytes: Seq<u8>)
    ensures
        bytes.len() == 4 ==> le_value(bytes) == bytes[0] + 0x100 * bytes[1] + 0x1_0000 * bytes[2]
            + 0x100_0000 * bytes[3],
        bytes.len() == 8 ==> le_value(bytes) == bytes[0] + 0x100 * bytes[1] + 0x1_0000 * bytes[2]
            + 0x100_0000 * bytes[3] + 0x1_0000_0000 * bytes[4] + 0x100_0000_0000 * bytes[5]
            + 0x1_0000_0000_0000 * bytes[6] + 0x100_0000_0000_0000 * bytes[7],
{
    reveal_with_fuel(le_value, 9);
}

/// The first byte is the remainder by 256, and the others are the bytes of the quotient.
pub proof fn lemma_le_step(value: nat, bytes: Seq<u8>, len: nat)
    requires
        0 < len,
        bytes.len() == len,
    ensures
        le_bytes(value, len).len() == len,
        le_bytes(value, len)[0] == value % 256,
        le_bytes(value, len).drop_first() == le_bytes(value / 256, (len - 1) as nat),
        le_value(bytes) % 256 == bytes[0],
        le_value(bytes) / 256 == le_value(bytes.drop_first()),
{
    lemma_le_bytes(value, len);
    assert(le_bytes(value, len).drop_first() =~= le_bytes(value / 256, (len - 1) as nat));
}

/// A number that fits is read back from its bytes.
pub proof fn lemma_le_bytes(value: nat, len: nat)
    ensures
        le_bytes(value, len).len() == len,
        value < le_limit(len) ==> le_value(le_bytes(value, len)) == value,
    decreases len,
{
    if len > 0 {
        let rest: Seq<u8> = le_bytes(value / 256, (len - 1) as nat);
        lemma_le_bytes(value / 256, (len - 1) as nat);
        assert(le_bytes(value, len).drop_first() =~= rest);
    }
}

/// Bytes are given back by the number that they stand for, which fits.
pub proof fn lemma_le_value(bytes: Seq<u8>)
    ensures
        le_value(bytes) < le_limit(bytes.len()),
        le_bytes(le_value(bytes), bytes.len()) == bytes,
    decreases bytes.len(),
{
    if bytes.len() > 0 {
        let value: nat = le_value(bytes);
        let rest: nat = le_value(bytes.drop_first());
        lemma_le_value(bytes.drop_first());
        assert(value / 256 == rest && value % 256 == bytes[0]);
    }
    assert(le_bytes(le_value(bytes), bytes.len()) =~= bytes);
}

proof fn lemma_le_limit_grows(a: nat, b: nat)
    requires
        a <= b,
    ensures
        le_limit(a) <= le_limit(b),
    decreases b,
{
    if a < b {
        lemma_le_limit_grows(a, (b - 1) as nat);
    }
}

/// Returns the number that the bytes stand for.
pub fn from_le_bytes(bytes: &[u8]) -> (value: u64)
    requires
        bytes@.len() <= 8,
    ensures
        value == le_value(bytes@),
{
    let mut value: u64 = 0;
    let mut i: usize = bytes.len();
    while i > 0
        invariant
            i <= bytes@.len() <= 8,
            value == le_value(bytes@.skip(i as int)),
        decreases i,
    {
        i = i - 1;
        proof {
            lemma_le_value(bytes@.skip(i as int));
            lemma_le_limit_grows((bytes@.len() - i) as nat, 8);
            lemma_le_limits();
            assert(bytes@.skip(i as int).drop_first() =~= bytes@.skip(i + 1));
        }
        value = value * 256 + bytes[i] as u64;
    }
    assert(bytes@.skip(0) =~= bytes@);
    value
}

/// Returns the lowest `len` bytes of a number.
pub fn to_le_bytes(value: u64, len: usize) -> (bytes: Vec<u8>)
    ensures
        bytes@ == le_bytes(value as nat, len as nat),
{
    let mut bytes: Vec<u8> = Vec::with_capacity(len);
    let mut rest: u64 = value;
    let mut i: usize = 0;
    assert(bytes@ + le_bytes(rest as nat, len as nat) =~= le_bytes(value as nat, len as nat));
    while i < len
        invariant
            i <= len,
            bytes@ + le_bytes(rest as nat, (len - i) as nat) == le_bytes(value as nat, len as nat),
        decreases len - i,
    {
        let ghost before: Seq<u8> = bytes@;
        bytes.push((rest % 256) as u8);
        proof {
            assert(bytes@ + le_bytes(rest as nat / 256, (len - i - 1) as nat) =~= before + le_bytes(
                rest as nat,
                (len - i) as nat,
            ));
        }
        rest = rest / 256;
        i = i + 1;
    }
    assert(bytes@ + le_bytes(rest as nat, 0) =~= bytes@);
    bytes
}

} // verus!
