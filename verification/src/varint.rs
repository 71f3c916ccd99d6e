//! The protobuf varint of an unsigned 64-bit value, as a fixed buffer of
//! nine bytes: seven bits of the value in each byte, the least significant
//! group first, and the high bit of a byte set where a later byte still
//! carries a bit of the value.

use vstd::prelude::*;

verus! {

/// The number of bytes in a varint buffer.
pub const VARINT_BYTES: usize = 9;

/// The seven bits of `v` that byte `i` of its varint carries. Bit 63 of `v`
/// belongs to no group.
pub open spec fn septet(v: u64, i: int) -> int {
    ((v >> ((7 * i) as u64)) & 0x7f) as int
}

/// The nine groups of `v`, the least significant first.
pub open spec fn septets(v: u64) -> Seq<int> {
    Seq::new(9, |i: int| septet(v, i))
}

/// The greatest index below `k` at which `groups` is not zero, or zero
/// where there is none.
pub open spec fn last_seen(groups: Seq<int>, k: int) -> int
    decreases k,
{
    if k <= 0 {
        0
    } else if groups[k - 1] != 0 {
        k - 1
    } else {
        last_seen(groups, k - 1)
    }
}

/// The index of the last group of `v` that is not zero, or zero where all are.
pub open spec fn last_nonzero(v: u64) -> int {
    last_seen(septets(v), 9)
}

/// Byte `i` of the buffer: the group, with the high bit set where a later
/// group is not zero.
pub open spec fn varint_byte(v: u64, i: int) -> int {
    septet(v, i) + if i < last_nonzero(v) { 128int } else { 0int }
}

/// The nine bytes of the buffer.
pub open spec fn varint_buffer(v: u64) -> Seq<int> {
    Seq::new(9, |i: int| varint_byte(v, i))
}

/// The number of bytes of the buffer that make up the varint proper.
pub open spec fn varint_len(v: u64) -> int {
    last_nonzero(v) + 1
}

/// The value that the bytes of `buf` from `k` on spell as a varint: seven
/// bits from each byte up to the first whose high bit is not set, the least
/// significant first. Bytes after that one are not read.
pub open spec fn decode_from(buf: Seq<int>, k: int) -> int
    decreases buf.len() - k,
{
    if k < 0 || k >= buf.len() {
        0
    } else if buf[k] < 128 {
        buf[k]
    } else {
        (buf[k] - 128) + 128 * decode_from(buf, k + 1)
    }
}

/// The value that `buf` spells as a varint.
pub open spec fn decode(buf: Seq<int>) -> int {
    decode_from(buf, 0)
}

/// The number of bits that it takes to write `v`; one for zero.
pub open spec fn bit_length(v: int) -> int
    decreases v,
{
    if v < 2 {
        1
    } else {
        1 + bit_length(v / 2)
    }
}

/// What is left of `v` once `k` groups have been taken off.
pub open spec fn rest(v: u64, k: int) -> int {
    (v >> ((7 * k) as u64)) as int
}

proof fn lemma_rest_step(v: u64, k: int)
    requires
        0 <= k < 9,
    ensures
        rest(v, k) == septet(v, k) + 128 * rest(v, k + 1),
        0 <= septet(v, k) < 128,
        0 <= rest(v, k + 1),
{
    let a = (7 * k) as u64;
    let b = (7 * k + 7) as u64;
    assert((v >> a) == ((v >> a) & 0x7f) + 128 * (v >> b) && ((v >> a) & 0x7f) < 128) by (bit_vector)
        requires
            b == a + 7,
            a <= 56,
    ;
}

proof fn lemma_rest_ends(v: u64)
    ensures
        rest(v, 0) == v,
        v < 0x8000_0000_0000_0000 ==> rest(v, 9) == 0,
{
    assert(v >> 0u64 == v) by (bit_vector);
    assert(v < 0x8000_0000_0000_0000u64 ==> v >> 63u64 == 0) by (bit_vector);
}

/// The greatest index that `last_seen` finds lies below `n`, and the group
/// there is not zero unless the index is zero.
pub proof fn lemma_last_seen_range(groups: Seq<int>, n: int)
    requires
        0 <= n,
    ensures
        0 <= last_seen(groups, n),
        n > 0 ==> last_seen(groups, n) < n,
        last_seen(groups, n) > 0 ==> groups[last_seen(groups, n)] != 0,
    decreases n,
{
    if n > 0 {
        lemma_last_seen_range(groups, n - 1);
    }
}

proof fn lemma_zero_after_last(groups: Seq<int>, n: int, i: int)
    requires
        last_seen(groups, n) < i < n,
    ensures
        groups[i] == 0,
    decreases n,
{
    if n > 0 && i < n - 1 {
        lemma_last_seen_range(groups, n - 1);
        lemma_zero_after_last(groups, n - 1, i);
    }
}

proof fn lemma_rest_zero(v: u64, k: int)
    requires
        v < 0x8000_0000_0000_0000,
        last_nonzero(v) < k <= 9,
    ensures
        rest(v, k) == 0,
    decreases 9 - k,
{
    if k == 9 {
        lemma_rest_ends(v);
    } else {
        lemma_last_seen_range(septets(v), 9);
        lemma_rest_step(v, k);
        lemma_zero_after_last(septets(v), 9, k);
        lemma_rest_zero(v, k + 1);
    }
}

proof fn lemma_decode_from(v: u64, k: int)
    requires
        v < 0x8000_0000_0000_0000,
        0 <= k <= last_nonzero(v),
    ensures
        decode_from(varint_buffer(v), k) == rest(v, k),
    decreases last_nonzero(v) - k,
{
    lemma_last_seen_range(septets(v), 9);
    lemma_rest_step(v, k);
    if k == last_nonzero(v) {
        lemma_rest_zero(v, k + 1);
    } else {
        lemma_decode_from(v, k + 1);
    }
}

/// Decoding the buffer of a value below `2^63` gives the value back: the
/// bytes up to the first whose high bit is not set spell it.
pub proof fn lemma_decode_encode(v: u64)
    requires
        v < 0x8000_0000_0000_0000,
    ensures
        decode(varint_buffer(v)) == v,
{
    lemma_last_seen_range(septets(v), 9);
    lemma_decode_from(v, 0);
    lemma_rest_ends(v);
}

/// The shape of a buffer: every byte before the last group that is not zero
/// has its high bit set, no byte from there on has, and every byte after
/// that group is zero. The varint proper is the first `varint_len` bytes.
pub proof fn lemma_buffer_shape(v: u64, i: int)
    requires
        0 <= i < 9,
    ensures
        1 <= varint_len(v) <= 9,
        i < varint_len(v) - 1 ==> 128 <= varint_buffer(v)[i] < 256,
        i >= varint_len(v) - 1 ==> 0 <= varint_buffer(v)[i] < 128,
        i >= varint_len(v) ==> varint_buffer(v)[i] == 0,
{
    lemma_last_seen_range(septets(v), 9);
    lemma_rest_step(v, i);
    if i > last_nonzero(v) {
        lemma_zero_after_last(septets(v), 9, i);
    }
}

/// Bit 63 of a value is not read: the buffer is that of the value's low 63 bits.
pub proof fn lemma_bit_63_dropped(v: u64)
    ensures
        varint_buffer(v) == varint_buffer(v & 0x7fff_ffff_ffff_ffff),
{
    let low = v & 0x7fff_ffff_ffff_ffff;
    assert forall|i: int| 0 <= i < 9 implies septets(v)[i] == septets(low)[i] by {
        let a = (7 * i) as u64;
        assert((v >> a) & 0x7f == ((v & 0x7fff_ffff_ffff_ffff) >> a) & 0x7f) by (bit_vector)
            requires
                a <= 56,
        ;
    }
    assert(septets(v) =~= septets(low));
    assert forall|i: int| 0 <= i < 9 implies varint_byte(v, i) == varint_byte(low, i) by {
        assert(septets(v)[i] == septets(low)[i]);
    }
    assert(varint_buffer(v) =~= varint_buffer(low));
}

proof fn lemma_bit_length_small(x: int)
    requires
        1 <= x < 128,
    ensures
        1 <= bit_length(x) <= 7,
{
    reveal_with_fuel(bit_length, 8);
}

proof fn lemma_bit_length_step(x: int)
    requires
        128 <= x,
    ensures
        bit_length(x) == 7 + bit_length(x / 128),
{
    reveal_with_fuel(bit_length, 8);
    assert(x / 2 / 2 / 2 / 2 / 2 / 2 / 2 == x / 128);
}

proof fn lemma_bit_length_rest(v: u64, k: int)
    requires
        v < 0x8000_0000_0000_0000,
        0 <= k <= last_nonzero(v),
        last_nonzero(v) > 0,
    ensures
        rest(v, k) >= 1,
        7 * (last_nonzero(v) - k) + 1 <= bit_length(rest(v, k)) <= 7 * (last_nonzero(v) - k) + 7,
    decreases last_nonzero(v) - k,
{
    lemma_last_seen_range(septets(v), 9);
    lemma_rest_step(v, k);
    if k == last_nonzero(v) {
        lemma_rest_zero(v, k + 1);
        lemma_bit_length_small(rest(v, k));
    } else {
        lemma_bit_length_rest(v, k + 1);
        lemma_bit_length_step(rest(v, k));
    }
}

/// The varint of a value below `2^63` takes one byte for every seven bits
/// of the value, the last of them counted in full.
pub proof fn lemma_minimal_length(v: u64)
    requires
        v < 0x8000_0000_0000_0000,
    ensures
        varint_len(v) == (bit_length(v as int) + 6) / 7,
{
    lemma_last_seen_range(septets(v), 9);
    lemma_rest_ends(v);
    if last_nonzero(v) > 0 {
        lemma_bit_length_rest(v, 0);
    } else {
        lemma_rest_step(v, 0);
        lemma_rest_zero(v, 1);
        if v >= 1 {
            lemma_bit_length_small(v as int);
        }
    }
}

} // verus!
