//! The byte encodings of the play packets that the scoreboard and the
//! advancements send: variable-length integers, length-prefixed UTF-8
//! strings, booleans and big-endian numbers.
//!
//! Text components, number formats and item stacks arrive already encoded,
//! as bytes that are copied into the packet.
use vstd::prelude::*;

use crate::identifier::{id_text, Identifier};
use vstd::utf8::encode_utf8;

verus! {

/// The bytes of a variable-length integer for a value of 32 bits taken as
/// unsigned: seven bits per byte, low bits first, the high bit of each byte
/// but the last set.
pub open spec fn var_u32(x: nat) -> Seq<u8>
    decreases x,
{
    if x < 128 {
        seq![x as u8]
    } else {
        seq![(x % 128 + 128) as u8] + var_u32(x / 128)
    }
}

/// A signed 32-bit integer is sent as its two's complement bits.
pub open spec fn var_int(v: i32) -> Seq<u8> {
    if v >= 0 {
        var_u32(v as nat)
    } else {
        var_u32((v + 0x1_0000_0000) as nat)
    }
}

/// A length or a count, sent as a variable-length integer of 32 bits.
pub open spec fn len_var(n: nat) -> Seq<u8> {
    var_u32(n % 0x1_0000_0000)
}

/// A string: the number of its UTF-8 bytes, then the bytes.
#[verifier::opaque]
pub open spec fn string_bytes(s: Seq<char>) -> Seq<u8> {
    len_var(encode_utf8(s).len()) + encode_utf8(s)
}

pub open spec fn bool_bytes(b: bool) -> Seq<u8> {
    if b {
        seq![1u8]
    } else {
        seq![0u8]
    }
}

/// The bytes of `x`, `n` of them, most significant first.
pub open spec fn be_bytes(x: nat, n: nat) -> Seq<u8>
    decreases n,
{
    if n == 0 {
        Seq::empty()
    } else {
        be_bytes(x / 256, (n - 1) as nat) + seq![(x % 256) as u8]
    }
}

/// A signed integer of `n` bytes as its two's complement bits.
pub open spec fn signed_be(v: int, n: nat) -> Seq<u8> {
    if v >= 0 {
        be_bytes(v as nat, n)
    } else {
        be_bytes((v + pow256(n)) as nat, n)
    }
}

pub open spec fn pow256(n: nat) -> nat
    decreases n,
{
    if n == 0 {
        1
    } else {
        256 * pow256((n - 1) as nat)
    }
}

fn write_var_u32(out: &mut Vec<u8>, value: u32)
    ensures
        final(out)@ == old(out)@ + var_u32(value as nat),
{
    let mut x = value;
    let ghost start = out@;
    while x >= 128
        invariant
            start == old(out)@,
            start + var_u32(value as nat) == out@ + var_u32(x as nat),
        decreases x,
    {
        let ghost before = out@;
        out.push((x % 128 + 128) as u8);
        proof {
            assert(var_u32(x as nat) == seq![(x % 128 + 128) as u8] + var_u32((x / 128) as nat));
            assert(out@ + var_u32((x / 128) as nat) =~= before + var_u32(x as nat));
        }
        x = x / 128;
    }
    let ghost before = out@;
    out.push(x as u8);
    assert(out@ =~= before + var_u32(x as nat));
}

/// Appends the variable-length encoding of `v`.
pub fn write_var_int(out: &mut Vec<u8>, v: i32)
    ensures
        final(out)@ == old(out)@ + var_int(v),
{
    let x: u32 = if v >= 0 {
        v as u32
    } else {
        (v as i64 + 0x1_0000_0000i64) as u32
    };
    write_var_u32(out, x);
}

/// Appends a length or a count.
pub fn write_len(out: &mut Vec<u8>, n: usize)
    ensures
        final(out)@ == old(out)@ + len_var(n as nat),
{
    write_var_u32(out, ((n as u64) % 0x1_0000_0000u64) as u32);
}

/// Appends a string: its byte length, then its UTF-8 bytes.
pub fn write_string(out: &mut Vec<u8>, s: &str)
    ensures
        final(out)@ == old(out)@ + string_bytes(s@),
{
    let bytes = s.as_bytes_vec();
    proof {
        reveal(string_bytes);
    }
    write_len(out, bytes.len());
    write_slice(out, &bytes);
    assert(final(out)@ =~= old(out)@ + string_bytes(s@));
}

/// Appends the bytes as they are.
pub fn write_slice(out: &mut Vec<u8>, bytes: &Vec<u8>)
    ensures
        final(out)@ == old(out)@ + bytes@,
{
    let mut i: usize = 0;
    let ghost start = out@;
    while i < bytes.len()
        invariant
            i <= bytes@.len(),
            out@ == start + bytes@.take(i as int),
        decreases bytes@.len() - i,
    {
        out.push(bytes[i]);
        i = i + 1;
        assert(out@ =~= start + bytes@.take(i as int));
    }
    assert(bytes@.take(bytes@.len() as int) =~= bytes@);
}

pub fn write_bool(out: &mut Vec<u8>, b: bool)
    ensures
        final(out)@ == old(out)@ + bool_bytes(b),
{
    out.push(if b {
        1u8
    } else {
        0u8
    });
    assert(final(out)@ =~= old(out)@ + bool_bytes(b));
}

/// Appends the `n` low bytes of `x`, most significant first.
fn write_be(out: &mut Vec<u8>, x: u64, n: usize)
    requires
        n <= 8,
    ensures
        final(out)@ == old(out)@ + be_bytes(x as nat, n as nat),
    decreases n,
{
    if n > 0 {
        write_be(out, x / 256, n - 1);
        out.push((x % 256) as u8);
        assert(final(out)@ =~= old(out)@ + be_bytes(x as nat, n as nat));
    }
}

pub fn write_i8(out: &mut Vec<u8>, v: i8)
    ensures
        final(out)@ == old(out)@ + signed_be(v as int, 1),
{
    let x: u64 = if v >= 0 {
        v as u64
    } else {
        (v as i64 + 256) as u64
    };
    proof {
        reveal_with_fuel(pow256, 2);
    }
    write_be(out, x, 1);
}

pub fn write_u8(out: &mut Vec<u8>, v: u8)
    ensures
        final(out)@ == old(out)@ + be_bytes(v as nat, 1),
{
    write_be(out, v as u64, 1);
}

pub fn write_i32_be(out: &mut Vec<u8>, v: i32)
    ensures
        final(out)@ == old(out)@ + signed_be(v as int, 4),
{
    let x: u64 = if v >= 0 {
        v as u64
    } else {
        (v as i64 + 0x1_0000_0000i64) as u64
    };
    proof {
        reveal_with_fuel(pow256, 5);
    }
    write_be(out, x, 4);
}

/// Appends the four bytes of a 32-bit pattern, such as that of a
/// floating-point number, most significant first.
pub fn write_u32_be(out: &mut Vec<u8>, bits: u32)
    ensures
        final(out)@ == old(out)@ + be_bytes(bits as nat, 4),
{
    write_be(out, bits as u64, 4);
}

pub fn write_i64_be(out: &mut Vec<u8>, v: i64)
    ensures
        final(out)@ == old(out)@ + signed_be(v as int, 8),
{
    proof {
        reveal_with_fuel(pow256, 9);
    }
    if v >= 0 {
        write_be(out, v as u64, 8);
    } else {
        let x: u64 = (v as i128 + 0x1_0000_0000_0000_0000i128) as u64;
        write_be(out, x, 8);
    }
}

} // verus!
