//! The protobuf encoding of a Tendermint validator: the bytes
//! `10 34 10 32`, the 32 bytes of the public key, the byte `16`, and the
//! voting power as a varint.

use vstd::prelude::*;
use crate::circuit::{bit_of, val, BoolTarget, CircuitBuilder, Target};
use crate::field::{choose_by, either, mul_add, same, FIELD_ORDER};
use crate::u32::{two_32, U32Target};
use crate::varint::{
    decode,
    last_seen,
    lemma_decode_encode,
    lemma_last_seen_range,
    septet,
    septets,
    varint_buffer,
};

verus! {

/// The greatest length of an encoded validator, in bytes.
pub const VALIDATOR_BYTES_LEN_MAX: usize = 46;

/// The greatest length of an encoded validator, in bits.
pub const VALIDATOR_BITS_LEN_MAX: usize = 368;

/// The number of bytes in a public key.
pub const PUBKEY_BYTES_LEN: usize = 32;

/// The greatest length of an encoded voting power, in bytes.
pub const VOTING_POWER_BYTES_LEN_MAX: usize = 9;

/// The greatest length of an encoded voting power, in bits.
pub const VOTING_POWER_BITS_LEN_MAX: usize = 72;

/// An Ed25519 public key: the bits of its 32 bytes, in each byte the least
/// significant first.
#[derive(Debug, Clone, Copy)]
pub struct Ed25519PubkeyTarget(pub [BoolTarget; 256]);

/// A voting power as two 32-bit wires, the less significant first.
#[derive(Debug, Clone, Copy)]
pub struct I64Target(pub [U32Target; 2]);

/// The public key and the voting power of a validator.
#[derive(Debug, Clone, Copy)]
pub struct TendermintValidator {
    pub pubkey: Ed25519PubkeyTarget,
    pub voting_power: I64Target,
}

/// The wire of the less significant half of `num`.
pub open spec fn low_limb(num: I64Target) -> Target {
    num.0[0].0
}

/// The wire of the more significant half of `num`.
pub open spec fn high_limb(num: I64Target) -> Target {
    num.0[1].0
}

/// Whether `w` gives both halves of `num` a value below `2^32`.
pub open spec fn limbs_in_range(w: Seq<u64>, num: I64Target) -> bool {
    val(w, low_limb(num)) < two_32() && val(w, high_limb(num)) < two_32()
}

/// The value that `w` gives to `num`.
pub open spec fn int64_value(w: Seq<u64>, num: I64Target) -> int {
    val(w, low_limb(num)) + two_32() * val(w, high_limb(num))
}

/// The value of byte `i` of `bits` under `w`, each byte written with its
/// least significant bit first.
pub open spec fn le_byte(w: Seq<u64>, bits: Seq<BoolTarget>, i: int) -> int {
    val(w, bits[8 * i].target) + 2 * val(w, bits[8 * i + 1].target) + 4 * val(
        w,
        bits[8 * i + 2].target,
    ) + 8 * val(w, bits[8 * i + 3].target) + 16 * val(w, bits[8 * i + 4].target) + 32 * val(
        w,
        bits[8 * i + 5].target,
    ) + 64 * val(w, bits[8 * i + 6].target) + 128 * val(w, bits[8 * i + 7].target)
}

/// Whether under `w` every wire of `bits` holds zero or one and the bytes
/// that they spell are `bytes`.
pub open spec fn bits_hold(w: Seq<u64>, bits: Seq<BoolTarget>, bytes: Seq<int>) -> bool {
    &&& bits.len() == 8 * bytes.len()
    &&& forall|k: int| 0 <= k < bits.len() ==> 0 <= val(w, (#[trigger] bits[k]).target) <= 1
    &&& forall|i: int| 0 <= i < bytes.len() ==> le_byte(w, bits, i) == #[trigger] bytes[i]
}

/// What `marshal_int64_varint` adds to a circuit: the 72 wires `bits`, which
/// spell the varint buffer of `num` wherever both halves of `num` fit in 32
/// bits, and the constraint that they do.
pub open spec fn marshals_varint(
    before: CircuitBuilder,
    after: CircuitBuilder,
    num: I64Target,
    bits: Seq<BoolTarget>,
) -> bool {
    &&& after.grows(&before)
    &&& bits.len() == 72
    &&& forall|k: int| 0 <= k < 72 ==> after.has((#[trigger] bits[k]).target)
    &&& forall|w: Seq<u64>| #[trigger]
        after.defines(w) ==> before.defines(w) && (limbs_in_range(w, num) ==> bits_hold(
            w,
            bits,
            varint_buffer(int64_value(w, num) as u64),
        ))
    &&& forall|w: Seq<u64>| #[trigger]
        after.accepts(w) <==> before.accepts(w) && limbs_in_range(w, num)
}

/// The four bytes that open the record.
pub open spec fn pubkey_prefix() -> Seq<int> {
    seq![10int, 34int, 10int, 32int]
}

/// The byte that stands before the voting power.
pub open spec fn voting_power_prefix() -> int {
    16
}

/// The 46 bytes of the record of a validator with public key `pubkey` and
/// voting power `v`.
pub open spec fn validator_bytes(pubkey: Seq<int>, v: u64) -> Seq<int> {
    pubkey_prefix() + pubkey + seq![voting_power_prefix()] + varint_buffer(v)
}

/// The 32 bytes that `w` gives to `pubkey`.
pub open spec fn pubkey_bytes(w: Seq<u64>, pubkey: Ed25519PubkeyTarget) -> Seq<int> {
    Seq::new(32, |i: int| le_byte(w, pubkey.0@, i))
}

/// Whether `w` gives every wire of `pubkey` zero or one.
pub open spec fn pubkey_is_bits(w: Seq<u64>, pubkey: Ed25519PubkeyTarget) -> bool {
    forall|k: int| 0 <= k < 256 ==> 0 <= val(w, (#[trigger] pubkey.0@[k]).target) <= 1
}

/// What `marshal_tendermint_validator` adds to a circuit: the 368 wires
/// `bits`, of which those of the public key are the wires of `pubkey`
/// themselves, and which spell the record of the validator wherever the
/// public key is made of bits and both halves of the voting power fit in 32
/// bits; and the constraint that these halves do.
pub open spec fn marshals_validator(
    before: CircuitBuilder,
    after: CircuitBuilder,
    pubkey: Ed25519PubkeyTarget,
    voting_power: I64Target,
    bits: Seq<BoolTarget>,
) -> bool {
    &&& after.grows(&before)
    &&& bits.len() == 368
    &&& forall|k: int| 0 <= k < 368 ==> after.has((#[trigger] bits[k]).target)
    &&& forall|k: int| 32 <= k < 288 ==> (#[trigger] bits[k]) == pubkey.0@[k - 32]
    &&& forall|w: Seq<u64>| #[trigger]
        after.defines(w) ==> before.defines(w) && (limbs_in_range(w, voting_power)
            && pubkey_is_bits(w, pubkey) ==> bits_hold(
            w,
            bits,
            validator_bytes(pubkey_bytes(w, pubkey), int64_value(w, voting_power) as u64),
        ))
    &&& forall|w: Seq<u64>| #[trigger]
        after.accepts(w) <==> before.accepts(w) && limbs_in_range(w, voting_power)
}

/// Serialises voting powers and validators into the circuit.
pub trait TendermintMarshaller {
    /// The circuit that the marshaller builds.
    spec fn circuit(&self) -> CircuitBuilder;

    /// Serialises `num` as a varint: 72 wires, the bits of the nine bytes of
    /// the buffer, in each byte the least significant first.
    fn marshal_int64_varint(&mut self, num: I64Target) -> (bits: [BoolTarget; 72])
        requires
            old(self).circuit().wf(),
            old(self).circuit().has(low_limb(num)),
            old(self).circuit().has(high_limb(num)),
        ensures
            marshals_varint(old(self).circuit(), final(self).circuit(), num, bits@),
    ;

    /// Serialises a validator: 368 wires, the bits of the 46 bytes of the
    /// record, in each byte the least significant first.
    fn marshal_tendermint_validator(
        &mut self,
        pubkey: Ed25519PubkeyTarget,
        voting_power: I64Target,
    ) -> (bits: [BoolTarget; 368])
        requires
            old(self).circuit().wf(),
            old(self).circuit().has(low_limb(voting_power)),
            old(self).circuit().has(high_limb(voting_power)),
            forall|k: int| 0 <= k < 256 ==> old(self).circuit().has((#[trigger] pubkey.0@[k]).target),
        ensures
            marshals_validator(
                old(self).circuit(),
                final(self).circuit(),
                pubkey,
                voting_power,
                bits@,
            ),
    ;
}

impl TendermintMarshaller for CircuitBuilder {
    open spec fn circuit(&self) -> CircuitBuilder {
        *self
    }

    #[verifier::loop_isolation(false)]
    fn marshal_int64_varint(&mut self, num: I64Target) -> (bits: [BoolTarget; 72]) {
        let ghost start = *self;
        let ghost lo_t = low_limb(num);
        let ghost hi_t = high_limb(num);
        let zero = self.zero();
        let one = self.one();

        // The 64 bits of the value, the least significant first.
        let bits_lower = self.u32_to_bits_le(num.0[0]);
        let bits_upper = self.u32_to_bits_le(num.0[1]);
        let mut vp_bits: Vec<BoolTarget> = Vec::new();
        let mut k: usize = 0;
        while k < 32
            invariant
                k <= 32,
                vp_bits@.len() == k,
                forall|m: int| 0 <= m < k ==> (#[trigger] vp_bits@[m]) == bits_lower@[m],
            decreases 32 - k,
        {
            vp_bits.push(bits_lower[k]);
            k = k + 1;
        }
        k = 0;
        while k < 32
            invariant
                k <= 32,
                vp_bits@.len() == 32 + k,
                forall|m: int| 0 <= m < 32 ==> (#[trigger] vp_bits@[m]) == bits_lower@[m],
                forall|m: int| 32 <= m < 32 + k ==> (#[trigger] vp_bits@[m]) == bits_upper@[m - 32],
            decreases 32 - k,
        {
            vp_bits.push(bits_upper[k]);
            k = k + 1;
        }
        let ghost s1 = *self;
        assert(s1.grows(&start));
        assert forall|m: int| 0 <= m < 64 implies s1.has((#[trigger] vp_bits@[m]).target) by {
            if m < 32 {
                assert(s1.has(bits_lower@[m].target));
            } else {
                assert(s1.has(bits_upper@[m - 32].target));
            }
        }
        assert forall|w: Seq<u64>| #[trigger] s1.defines(w) implies start.defines(w) && bits_known(
            w,
            num,
            zero,
            one,
            vp_bits@,
        ) by {
            assert forall|m: int| 0 <= m < 64 implies val(w, (#[trigger] vp_bits@[m]).target)
                == limb_bit(w[lo_t.index as int], w[hi_t.index as int], m) by {
                if m < 32 {
                    assert(vp_bits@[m] == bits_lower@[m]);
                } else {
                    assert(vp_bits@[m] == bits_upper@[m - 32]);
                }
            }
        }
        assert forall|w: Seq<u64>| #[trigger]
            s1.accepts(w) <==> start.accepts(w) && limbs_in_range(w, num) by {}

        // The nine groups of seven bits.
        let mut septets: Vec<Target> = Vec::new();
        let mut i: usize = 0;
        while i < 9
            invariant
                i <= 9,
                septets@.len() == i,
                self.grows(&s1),
                forall|m: int| 0 <= m < i ==> self.has(#[trigger] septets@[m]),
                forall|w: Seq<u64>| #[trigger]
                    self.defines(w) ==> s1.defines(w) && forall|m: int|
                        0 <= m < i ==> val(w, #[trigger] septets@[m]) == groups_of(w, num)[m],
                forall|w: Seq<u64>| #[trigger] self.accepts(w) <==> s1.accepts(w),
            decreases 9 - i,
        {
            let ghost s2 = *self;
            let mut base: u64 = 1;
            let mut septet = self.zero();
            let mut j: usize = 0;
            while j < 7
                invariant
                    j <= 7,
                    i < 9,
                    base == weight(j as int),
                    self.grows(&s2),
                    self.has(septet),
                    forall|w: Seq<u64>| #[trigger]
                        self.defines(w) ==> s2.defines(w) && val(w, septet) == partial_group(
                            w[lo_t.index as int],
                            w[hi_t.index as int],
                            i as int,
                            j as int,
                        ),
                    forall|w: Seq<u64>| #[trigger] self.accepts(w) <==> s2.accepts(w),
                decreases 7 - j,
            {
                let ghost s3 = *self;
                let ghost prev = septet;
                let bit = vp_bits[i * 7 + j];
                septet = self.mul_const_add(base, bit.target, septet);
                proof {
                    assert forall|w: Seq<u64>| #[trigger] self.defines(w) implies s2.defines(w)
                        && val(w, septet) == partial_group(
                        w[lo_t.index as int],
                        w[hi_t.index as int],
                        i as int,
                        j as int + 1,
                    ) by {
                        let lo = w[lo_t.index as int];
                        let hi = w[hi_t.index as int];
                        assert(s3.defines(w));
                        assert(s1.defines(w));
                        assert(bits_known(w, num, zero, one, vp_bits@));
                        assert(val(w, vp_bits@[i * 7 + j].target) == limb_bit(lo, hi, i * 7 + j));
                        lemma_limb_bit_range(lo, hi, i * 7 + j);
                        lemma_partial_bound(lo, hi, i as int, j as int);
                        lemma_mul_add_bit(base as int, val(w, bit.target), val(w, prev));
                    }
                }
                base = base * 2;
                j = j + 1;
            }
            septets.push(septet);
            i = i + 1;
        }
        let ghost s4 = *self;

        // Whether each group is zero.
        let mut is_zero_septets: Vec<Target> = Vec::new();
        i = 0;
        while i < 9
            invariant
                i <= 9,
                is_zero_septets@.len() == i,
                self.grows(&s4),
                forall|m: int| 0 <= m < i ==> self.has(#[trigger] is_zero_septets@[m]),
                forall|w: Seq<u64>| #[trigger]
                    self.defines(w) ==> s4.defines(w) && forall|m: int|
                        0 <= m < i ==> val(w, #[trigger] is_zero_septets@[m]) == same(
                            groups_of(w, num)[m],
                            0,
                        ),
                forall|w: Seq<u64>| #[trigger] self.accepts(w) <==> s4.accepts(w),
            decreases 9 - i,
        {
            let ghost s5 = *self;
            let z = self.is_equal(septets[i], zero);
            is_zero_septets.push(z.target);
            proof {
                assert forall|w: Seq<u64>| #[trigger] self.defines(w) implies s4.defines(w)
                    && forall|m: int|
                    0 <= m < i + 1 ==> val(w, #[trigger] is_zero_septets@[m]) == same(
                        groups_of(w, num)[m],
                        0,
                    ) by {
                    assert(s5.defines(w));
                    assert(s4.defines(w));
                    assert(s1.defines(w));
                    assert(bits_known(w, num, zero, one, vp_bits@));
                    assert(val(w, septets@[i as int]) == groups_of(w, num)[i as int]);
                }
            }
            i = i + 1;
        }
        let ghost s6 = *self;

        // The index of the last group that is not zero.
        let mut last = self.zero();
        i = 0;
        while i < 9
            invariant
                i <= 9,
                self.grows(&s6),
                self.has(last),
                forall|w: Seq<u64>| #[trigger]
                    self.defines(w) ==> s6.defines(w) && val(w, last) == last_seen(
                        groups_of(w, num),
                        i as int,
                    ),
                forall|w: Seq<u64>| #[trigger] self.accepts(w) <==> s6.accepts(w),
            decreases 9 - i,
        {
            let ghost s7 = *self;
            let ghost prev = last;
            let is_nonzero_septet = self.sub(one, is_zero_septets[i]);
            let condition = BoolTarget::new_unsafe(is_nonzero_septet);
            let idx = self.constant(i as u64);
            last = self.select(condition, idx, last);
            proof {
                assert forall|w: Seq<u64>| #[trigger] self.defines(w) implies s6.defines(w)
                    && val(w, last) == last_seen(groups_of(w, num), i as int + 1) by {
                    assert(s7.defines(w));
                    assert(s6.defines(w));
                    assert(s4.defines(w));
                    assert(s1.defines(w));
                    assert(bits_known(w, num, zero, one, vp_bits@));
                    assert(val(w, is_zero_septets@[i as int]) == same(
                        groups_of(w, num)[i as int],
                        0,
                    ));
                    lemma_last_seen_range(groups_of(w, num), i as int);
                    lemma_choose_bit(val(w, is_nonzero_septet), val(w, idx), val(w, prev));
                }
            }
            i = i + 1;
        }
        let ghost s8 = *self;

        // Each byte takes its group, and its high bit where the byte stands
        // before the last group that is not zero.
        let filler = self._false();
        let mut buffer = [filler; 72];
        let ghost s9 = *self;
        i = 0;
        while i < 9
            invariant
                i <= 9,
                self.grows(&s9),
                forall|m: int| 0 <= m < 72 ==> self.has((#[trigger] buffer@[m]).target),
                forall|w: Seq<u64>| #[trigger]
                    self.defines(w) ==> s9.defines(w) && forall|m: int|
                        0 <= m < i ==> byte_known(w, num, buffer@, m),
                forall|w: Seq<u64>| #[trigger] self.accepts(w) <==> s9.accepts(w),
            decreases 9 - i,
        {
            let ghost s10 = *self;
            let ghost buffer_before = buffer@;
            // Where `i` is below the last index, `diff` is one of zero to eight.
            let idx = self.constant((i + 1) as u64);
            let diff_t = self.sub(last, idx);

            let mut is_lt = BoolTarget::new_unsafe(zero);
            let ghost s11 = *self;
            let mut j: usize = 0;
            while j < 9
                invariant
                    j <= 9,
                    i < 9,
                    self.grows(&s11),
                    self.has(is_lt.target),
                    forall|w: Seq<u64>| #[trigger]
                        self.defines(w) ==> s11.defines(w) && val(w, is_lt.target) == (if val(
                            w,
                            diff_t,
                        ) < j { 1int } else { 0int }),
                    forall|w: Seq<u64>| #[trigger] self.accepts(w) <==> s11.accepts(w),
                decreases 9 - j,
            {
                let ghost s12 = *self;
                let ghost prev = is_lt;
                let candidate_idx = self.constant(j as u64);
                let is_candidate = self.is_equal(diff_t, candidate_idx);
                is_lt = self.or(is_lt, is_candidate);
                proof {
                    assert forall|w: Seq<u64>| #[trigger] self.defines(w) implies s11.defines(w)
                        && val(w, is_lt.target) == (if val(w, diff_t) < j + 1 {
                        1int
                    } else {
                        0int
                    }) by {
                        assert(s12.defines(w));
                        assert(s11.defines(w));
                        assert(s1.defines(w));
                        assert(bits_known(w, num, zero, one, vp_bits@));
                        lemma_either_bits(val(w, prev.target), val(w, is_candidate.target));
                    }
                }
                j = j + 1;
            }

            let mut j: usize = 0;
            while j < 7
                invariant
                    j <= 7,
                    i < 9,
                    forall|m: int|
                        0 <= m < 72 && !(8 * i <= m < 8 * i + j) ==> (#[trigger] buffer@[m])
                            == buffer_before[m],
                    forall|m: int|
                        8 * i <= m < 8 * i + j ==> (#[trigger] buffer@[m]) == vp_bits@[m - i],
                decreases 7 - j,
            {
                let bit = vp_bits[i * 7 + j];
                buffer[i * 8 + j] = bit;
                j = j + 1;
            }
            buffer[i * 8 + 7] = is_lt;
            proof {
                assert forall|m: int| 0 <= m < 72 implies self.has((#[trigger] buffer@[m]).target) by {
                    if 8 * i <= m < 8 * i + 7 {
                        assert(buffer@[m] == vp_bits@[m - i]);
                    } else if m == 8 * i + 7 {
                    } else {
                        assert(s10.has(buffer_before[m].target));
                    }
                }
                assert forall|w: Seq<u64>| #[trigger] self.defines(w) implies s9.defines(w)
                    && forall|m: int| 0 <= m < i + 1 ==> byte_known(w, num, buffer@, m) by {
                    assert(s11.defines(w));
                    assert(s10.defines(w));
                    assert(s9.defines(w));
                    assert(s8.defines(w));
                    assert(s6.defines(w));
                    assert(s4.defines(w));
                    assert(s1.defines(w));
                    assert(bits_known(w, num, zero, one, vp_bits@));
                    lemma_last_seen_range(groups_of(w, num), 9);
                    assert forall|m: int| 0 <= m < i + 1 implies byte_known(
                        w,
                        num,
                        buffer@,
                        m,
                    ) by {
                        if m < i {
                            assert(byte_known(w, num, buffer_before, m));
                            assert forall|t: int| 8 * m <= t < 8 * m + 8 implies #[trigger] buffer@[t]
                                == buffer_before[t] by {}
                        } else {
                            assert forall|t: int| 8 * m <= t < 8 * m + 7 implies val(
                                w,
                                (#[trigger] buffer@[t]).target,
                            ) == limb_bit(
                                w[lo_t.index as int],
                                w[hi_t.index as int],
                                t - m,
                            ) by {
                                assert(buffer@[t] == vp_bits@[t - i]);
                            }
                        }
                    }
                }
            }
            i = i + 1;
        }
        proof {
            assert forall|w: Seq<u64>| #[trigger] self.defines(w) implies start.defines(w) && (
            limbs_in_range(w, num) ==> bits_hold(
                w,
                buffer@,
                varint_buffer(int64_value(w, num) as u64),
            )) by {
                assert(s9.defines(w));
                assert(s8.defines(w));
                assert(s6.defines(w));
                assert(s4.defines(w));
                assert(s1.defines(w));
                if limbs_in_range(w, num) {
                    lemma_bytes_spell_varint(w, num, buffer@);
                }
            }
        }
        buffer
    }

    #[verifier::loop_isolation(false)]
    fn marshal_tendermint_validator(
        &mut self,
        pubkey: Ed25519PubkeyTarget,
        voting_power: I64Target,
    ) -> (bits: [BoolTarget; 368]) {
        let ghost start = *self;
        let mut ptr: usize = 0;
        let filler = self._false();
        let mut buffer = [filler; 368];
        let ghost s0 = *self;

        // The first four bytes of the record are `10 34 10 32`.
        let prefix_pubkey_bytes: [u64; 4] = [10, 34, 10, 32];
        assert(prefix_pubkey_bytes@ =~= seq![10u64, 34u64, 10u64, 32u64]);
        let mut i: usize = 0;
        while i < 4
            invariant
                i <= 4,
                ptr == 8 * i,
                self.grows(&s0),
                forall|m: int| 0 <= m < 368 ==> self.has((#[trigger] buffer@[m]).target),
                forall|w: Seq<u64>| #[trigger]
                    self.defines(w) ==> s0.defines(w) && forall|m: int|
                        0 <= m < ptr ==> val(w, (#[trigger] buffer@[m]).target)
                            == byte_string_bit(pubkey_prefix(), m),
                forall|w: Seq<u64>| #[trigger] self.accepts(w) <==> s0.accepts(w),
            decreases 4 - i,
        {
            let mut j: u64 = 0;
            while j < 8
                invariant
                    j <= 8,
                    i < 4,
                    ptr == 8 * i + j,
                    self.grows(&s0),
                    forall|m: int| 0 <= m < 368 ==> self.has((#[trigger] buffer@[m]).target),
                    forall|w: Seq<u64>| #[trigger]
                        self.defines(w) ==> s0.defines(w) && forall|m: int|
                            0 <= m < ptr ==> val(w, (#[trigger] buffer@[m]).target)
                                == byte_string_bit(pubkey_prefix(), m),
                    forall|w: Seq<u64>| #[trigger] self.accepts(w) <==> s0.accepts(w),
                decreases 8 - j,
            {
                let ghost s1 = *self;
                let ghost buffer_before = buffer@;
                let byte = prefix_pubkey_bytes[i];
                assert((byte >> j) & 1 <= 1) by (bit_vector);
                let bit = self.constant((byte >> j) & 1);
                buffer[ptr] = BoolTarget::new_unsafe(bit);
                proof {
                    assert forall|m: int| 0 <= m < 368 implies self.has(
                        (#[trigger] buffer@[m]).target,
                    ) by {
                        if m != ptr {
                            assert(s1.has(buffer_before[m].target));
                        }
                    }
                    assert forall|w: Seq<u64>| #[trigger] self.defines(w) implies s0.defines(w)
                        && forall|m: int|
                        0 <= m < ptr + 1 ==> val(w, (#[trigger] buffer@[m]).target)
                            == byte_string_bit(pubkey_prefix(), m) by {
                        assert(s1.defines(w));
                        assert forall|m: int| 0 <= m < ptr + 1 implies val(
                            w,
                            (#[trigger] buffer@[m]).target,
                        ) == byte_string_bit(pubkey_prefix(), m) by {
                            if m < ptr {
                                assert(val(w, buffer_before[m].target) == byte_string_bit(
                                    pubkey_prefix(),
                                    m,
                                ));
                            } else {
                                assert(pubkey_prefix()[i as int] == prefix_pubkey_bytes@[i as int]);
                            }
                        }
                    }
                }
                ptr = ptr + 1;
                j = j + 1;
            }
            i = i + 1;
        }

        // The next 32 bytes are the public key.
        i = 0;
        while i < 32
            invariant
                i <= 32,
                ptr == 32 + 8 * i,
                forall|m: int| 0 <= m < 368 ==> self.has((#[trigger] buffer@[m]).target),
                forall|w: Seq<u64>| #[trigger]
                    self.defines(w) ==> forall|m: int|
                        0 <= m < 32 ==> val(w, (#[trigger] buffer@[m]).target)
                            == byte_string_bit(pubkey_prefix(), m),
                forall|m: int| 32 <= m < ptr ==> (#[trigger] buffer@[m]) == pubkey.0@[m - 32],
            decreases 32 - i,
        {
            let mut j: usize = 0;
            while j < 8
                invariant
                    j <= 8,
                    i < 32,
                    ptr == 32 + 8 * i + j,
                    forall|m: int| 0 <= m < 368 ==> self.has((#[trigger] buffer@[m]).target),
                    forall|w: Seq<u64>| #[trigger]
                        self.defines(w) ==> forall|m: int|
                            0 <= m < 32 ==> val(w, (#[trigger] buffer@[m]).target)
                                == byte_string_bit(pubkey_prefix(), m),
                    forall|m: int| 32 <= m < ptr ==> (#[trigger] buffer@[m]) == pubkey.0@[m - 32],
                decreases 8 - j,
            {
                let ghost buffer_before = buffer@;
                buffer[ptr] = pubkey.0[i * 8 + j];
                proof {
                    assert forall|m: int| 0 <= m < 368 implies self.has(
                        (#[trigger] buffer@[m]).target,
                    ) by {
                        if m != ptr {
                            assert(self.has(buffer_before[m].target));
                        } else {
                            assert(start.has(pubkey.0@[i * 8 + j].target));
                        }
                    }
                    assert forall|w: Seq<u64>| #[trigger] self.defines(w) implies forall|m: int|
                        0 <= m < 32 ==> val(w, (#[trigger] buffer@[m]).target)
                            == byte_string_bit(pubkey_prefix(), m) by {
                        assert forall|m: int| 0 <= m < 32 implies val(
                            w,
                            (#[trigger] buffer@[m]).target,
                        ) == byte_string_bit(pubkey_prefix(), m) by {
                            assert(val(w, buffer_before[m].target) == byte_string_bit(
                                pubkey_prefix(),
                                m,
                            ));
                        }
                    }
                    assert forall|m: int| 32 <= m < ptr + 1 implies (#[trigger] buffer@[m])
                        == pubkey.0@[m - 32] by {
                        if m < ptr {
                            assert(buffer_before[m] == pubkey.0@[m - 32]);
                        }
                    }
                }
                ptr = ptr + 1;
                j = j + 1;
            }
            i = i + 1;
        }
        let ghost buffer_keyed = buffer@;

        // The next byte is `16`.
        let prefix_voting_power_byte: u64 = 16;
        let ghost s2 = *self;
        let mut j: u64 = 0;
        while j < 8
            invariant
                j <= 8,
                ptr == 288 + j,
                self.grows(&s2),
                forall|m: int| 0 <= m < 368 ==> self.has((#[trigger] buffer@[m]).target),
                forall|m: int| 0 <= m < 288 ==> (#[trigger] buffer@[m]) == buffer_keyed[m],
                forall|w: Seq<u64>| #[trigger]
                    self.defines(w) ==> s2.defines(w) && forall|m: int|
                        288 <= m < ptr ==> val(w, (#[trigger] buffer@[m]).target) == bit_of(
                            16,
                            (m - 288) as u64,
                        ),
                forall|w: Seq<u64>| #[trigger] self.accepts(w) <==> s2.accepts(w),
            decreases 8 - j,
        {
            let ghost s3 = *self;
            let ghost buffer_before = buffer@;
            assert((prefix_voting_power_byte >> j) & 1 <= 1) by (bit_vector);
            let bit = self.constant((prefix_voting_power_byte >> j) & 1);
            buffer[ptr] = BoolTarget::new_unsafe(bit);
            proof {
                assert forall|m: int| 0 <= m < 368 implies self.has(
                    (#[trigger] buffer@[m]).target,
                ) by {
                    if m != ptr {
                        assert(s3.has(buffer_before[m].target));
                    }
                }
                assert forall|w: Seq<u64>| #[trigger] self.defines(w) implies s2.defines(w)
                    && forall|m: int|
                    288 <= m < ptr + 1 ==> val(w, (#[trigger] buffer@[m]).target) == bit_of(
                        16,
                        (m - 288) as u64,
                    ) by {
                    assert(s3.defines(w));
                    assert forall|m: int| 288 <= m < ptr + 1 implies val(
                        w,
                        (#[trigger] buffer@[m]).target,
                    ) == bit_of(16, (m - 288) as u64) by {
                        if m < ptr {
                            assert(val(w, buffer_before[m].target) == bit_of(
                                16,
                                (m - 288) as u64,
                            ));
                        }
                    }
                }
            }
            ptr = ptr + 1;
            j = j + 1;
        }
        let ghost buffer_tagged = buffer@;
        let ghost s4 = *self;

        // The remaining bytes are the voting power as a varint.
        let voting_power_bits = self.marshal_int64_varint(voting_power);
        i = 0;
        while i < 9
            invariant
                i <= 9,
                ptr == 296 + 8 * i,
                forall|m: int| 0 <= m < 296 ==> (#[trigger] buffer@[m]) == buffer_tagged[m],
                forall|m: int|
                    296 <= m < ptr ==> (#[trigger] buffer@[m]) == voting_power_bits@[m - 296],
                forall|m: int| ptr <= m < 368 ==> (#[trigger] buffer@[m]) == buffer_tagged[m],
            decreases 9 - i,
        {
            let mut j: usize = 0;
            while j < 8
                invariant
                    j <= 8,
                    i < 9,
                    ptr == 296 + 8 * i + j,
                    forall|m: int| 0 <= m < 296 ==> (#[trigger] buffer@[m]) == buffer_tagged[m],
                    forall|m: int|
                        296 <= m < ptr ==> (#[trigger] buffer@[m]) == voting_power_bits@[m - 296],
                    forall|m: int| ptr <= m < 368 ==> (#[trigger] buffer@[m]) == buffer_tagged[m],
                decreases 8 - j,
            {
                buffer[ptr] = voting_power_bits[i * 8 + j];
                ptr = ptr + 1;
                j = j + 1;
            }
            i = i + 1;
        }
        proof {
            assert forall|m: int| 0 <= m < 368 implies self.has((#[trigger] buffer@[m]).target) by {
                if m < 296 {
                    assert(s4.has(buffer_tagged[m].target));
                } else {
                    assert(self.has(voting_power_bits@[m - 296].target));
                }
            }
            assert forall|m: int| 32 <= m < 288 implies (#[trigger] buffer@[m]) == pubkey.0@[m
                - 32] by {
                assert(buffer_tagged[m] == buffer_keyed[m]);
            }
            assert forall|w: Seq<u64>| #[trigger] self.defines(w) implies start.defines(w) && (
            limbs_in_range(w, voting_power) && pubkey_is_bits(w, pubkey) ==> bits_hold(
                w,
                buffer@,
                validator_bytes(pubkey_bytes(w, pubkey), int64_value(w, voting_power) as u64),
            )) by {
                assert(s4.defines(w));
                assert(s2.defines(w));
                assert(s0.defines(w));
                if limbs_in_range(w, voting_power) && pubkey_is_bits(w, pubkey) {
                    assert forall|m: int| 0 <= m < 32 implies val(
                        w,
                        (#[trigger] buffer@[m]).target,
                    ) == byte_string_bit(pubkey_prefix(), m) by {
                        assert(buffer_tagged[m] == buffer_keyed[m]);
                        assert(val(w, buffer_keyed[m].target) == byte_string_bit(
                            pubkey_prefix(),
                            m,
                        ));
                    }
                    assert forall|m: int| 288 <= m < 296 implies val(
                        w,
                        (#[trigger] buffer@[m]).target,
                    ) == bit_of(16, (m - 288) as u64) by {
                        assert(val(w, buffer_tagged[m].target) == bit_of(16, (m - 288) as u64));
                    }
                    lemma_record_spelled(w, pubkey, voting_power, voting_power_bits@, buffer@);
                }
            }
        }
        buffer
    }
}

/// Bit `k` of the value whose halves are `lo` and `hi`.
/// The bytes that the wires `bits` spell under `w`, each byte written with
/// its least significant bit first.
pub open spec fn bytes_of_bits(w: Seq<u64>, bits: Seq<BoolTarget>) -> Seq<int> {
    Seq::new((bits.len() / 8) as nat, |i: int| le_byte(w, bits, i))
}

/// The marshalled varint of a voting power below `2^63` decodes to the
/// voting power: wherever both halves fit in 32 bits, the bytes that the
/// wires of `marshal_int64_varint` spell, read up to the first byte whose
/// high bit is not set, give the value back.
pub proof fn lemma_marshalled_varint_decodes(
    before: CircuitBuilder,
    after: CircuitBuilder,
    num: I64Target,
    bits: Seq<BoolTarget>,
    w: Seq<u64>,
)
    requires
        marshals_varint(before, after, num, bits),
        after.defines(w),
        limbs_in_range(w, num),
        int64_value(w, num) < 0x8000_0000_0000_0000,
    ensures
        bytes_of_bits(w, bits) == varint_buffer(int64_value(w, num) as u64),
        decode(bytes_of_bits(w, bits)) == int64_value(w, num),
{
    let v = int64_value(w, num) as u64;
    assert(bits_hold(w, bits, varint_buffer(v)));
    assert(bytes_of_bits(w, bits) =~= varint_buffer(v));
    lemma_decode_encode(v);
}

spec fn limb_bit(lo: u64, hi: u64, k: int) -> int {
    if k < 32 {
        bit_of(lo, k as u64)
    } else {
        bit_of(hi, (k - 32) as u64)
    }
}

/// `2^j` for `j` up to seven.
spec fn weight(j: int) -> int {
    if j <= 0 {
        1
    } else if j == 1 {
        2
    } else if j == 2 {
        4
    } else if j == 3 {
        8
    } else if j == 4 {
        16
    } else if j == 5 {
        32
    } else if j == 6 {
        64
    } else {
        128
    }
}

/// The value of the lowest `j` bits of group `i`.
spec fn partial_group(lo: u64, hi: u64, i: int, j: int) -> int
    decreases j,
{
    if j <= 0 {
        0
    } else {
        partial_group(lo, hi, i, j - 1) + if limb_bit(lo, hi, 7 * i + j - 1) == 1 {
            weight(j - 1)
        } else {
            0
        }
    }
}

/// The nine groups of the value whose halves are `lo` and `hi`.
spec fn groups(lo: u64, hi: u64) -> Seq<int> {
    Seq::new(9, |i: int| partial_group(lo, hi, i, 7))
}

/// The groups that `w` gives to `num`.
spec fn groups_of(w: Seq<u64>, num: I64Target) -> Seq<int> {
    groups(w[low_limb(num).index as int], w[high_limb(num).index as int])
}

/// What the first part of `marshal_int64_varint` has established of `w`:
/// the constants and the 64 bits of the value.
spec fn bits_known(
    w: Seq<u64>,
    num: I64Target,
    zero: Target,
    one: Target,
    vp_bits: Seq<BoolTarget>,
) -> bool {
    &&& val(w, zero) == 0
    &&& val(w, one) == 1
    &&& forall|k: int|
        0 <= k < 64 ==> val(w, (#[trigger] vp_bits[k]).target) == limb_bit(
            w[low_limb(num).index as int],
            w[high_limb(num).index as int],
            k,
        )
}

/// What `marshal_int64_varint` has established of byte `m` of its buffer:
/// the low seven wires hold the bits of group `m`, and the high wire is one
/// where `m` is below the index of the last group that is not zero.
spec fn byte_known(w: Seq<u64>, num: I64Target, buffer: Seq<BoolTarget>, m: int) -> bool {
    &&& forall|t: int|
        8 * m <= t < 8 * m + 7 ==> val(w, (#[trigger] buffer[t]).target) == limb_bit(
            w[low_limb(num).index as int],
            w[high_limb(num).index as int],
            t - m,
        )
    &&& val(w, buffer[8 * m + 7].target) == if m < last_seen(groups_of(w, num), 9) {
        1int
    } else {
        0int
    }
}

/// Bit `m` of the byte string `bytes`, in each byte the least significant
/// bit first.
spec fn byte_string_bit(bytes: Seq<int>, m: int) -> int {
    bit_of(bytes[m / 8] as u64, (m % 8) as u64)
}

proof fn lemma_bit_range(v: u64, i: u64)
    ensures
        0 <= bit_of(v, i) <= 1,
{
    assert((v >> i) & 1 <= 1) by (bit_vector);
}

proof fn lemma_limb_bit_range(lo: u64, hi: u64, k: int)
    requires
        0 <= k < 64,
    ensures
        0 <= limb_bit(lo, hi, k) <= 1,
{
    if k < 32 {
        lemma_bit_range(lo, k as u64);
    } else {
        lemma_bit_range(hi, (k - 32) as u64);
    }
}

proof fn lemma_partial_bound(lo: u64, hi: u64, i: int, j: int)
    requires
        0 <= j <= 7,
    ensures
        0 <= partial_group(lo, hi, i, j) < weight(j),
    decreases j,
{
    if j > 0 {
        lemma_partial_bound(lo, hi, i, j - 1);
    }
}

proof fn lemma_mul_add_bit(c: int, x: int, y: int)
    requires
        0 <= x <= 1,
        0 <= y,
        0 <= c,
        c + y < FIELD_ORDER,
    ensures
        mul_add(c, x, y) == if x == 1 { c + y } else { y },
{
    if x == 1 {
        assert(c * x == c);
    } else {
        assert(c * x == 0);
    }
}

proof fn lemma_choose_bit(b: int, x: int, y: int)
    requires
        0 <= b <= 1,
        0 <= x < FIELD_ORDER,
        0 <= y < FIELD_ORDER,
    ensures
        choose_by(b, x, y) == if b == 1 { x } else { y },
{
    if b == 1 {
        assert(b * x + (1 - b) * y == x) by (nonlinear_arith)
            requires
                b == 1,
        ;
    } else {
        assert(b * x + (1 - b) * y == y) by (nonlinear_arith)
            requires
                b == 0,
        ;
    }
}

proof fn lemma_either_bits(x: int, y: int)
    requires
        0 <= x <= 1,
        0 <= y <= 1,
    ensures
        either(x, y) == if x == 1 || y == 1 { 1int } else { 0int },
{
    assert(x * y == if x == 1 && y == 1 { 1int } else { 0int }) by (nonlinear_arith)
        requires
            0 <= x <= 1,
            0 <= y <= 1,
    ;
}

proof fn lemma_join_limbs(lo: u64, hi: u64) -> (v: u64)
    requires
        lo < two_32(),
        hi < two_32(),
    ensures
        v == lo + two_32() * hi,
        v == lo | (hi << 32u64),
{
    let v = lo | (hi << 32u64);
    assert(lo | (hi << 32u64) == lo + 0x1_0000_0000 * hi) by (bit_vector)
        requires
            lo < 0x1_0000_0000u64,
            hi < 0x1_0000_0000u64,
    ;
    v
}

proof fn lemma_group_is_septet(lo: u64, hi: u64, v: u64, i: int)
    requires
        lo < two_32(),
        hi < two_32(),
        v == lo | (hi << 32u64),
        0 <= i < 9,
    ensures
        partial_group(lo, hi, i, 7) == septet(v, i),
{
    reveal_with_fuel(partial_group, 8);
    assert forall|k: int| 0 <= k < 64 implies 0 <= #[trigger] limb_bit(lo, hi, k) <= 1 by {
        lemma_limb_bit_range(lo, hi, k);
    }
    assert(0 <= limb_bit(lo, hi, 7 * i) <= 1);
    assert(0 <= limb_bit(lo, hi, 7 * i + 1) <= 1);
    assert(0 <= limb_bit(lo, hi, 7 * i + 2) <= 1);
    assert(0 <= limb_bit(lo, hi, 7 * i + 3) <= 1);
    assert(0 <= limb_bit(lo, hi, 7 * i + 4) <= 1);
    assert(0 <= limb_bit(lo, hi, 7 * i + 5) <= 1);
    assert(0 <= limb_bit(lo, hi, 7 * i + 6) <= 1);
    if i == 0 {
        assert(((lo >> 0u64) & 1u64) + 2 * ((lo >> 1u64) & 1u64) + 4 * ((lo >> 2u64) & 1u64) + 8 * ((lo >> 3u64) & 1u64) + 16 * ((lo >> 4u64) & 1u64) + 32 * ((lo >> 5u64) & 1u64) + 64 * ((lo >> 6u64) & 1u64) == (v >> 0u64) & 0x7fu64) by (bit_vector)
            requires
                lo < 0x1_0000_0000u64,
                hi < 0x1_0000_0000u64,
                v == lo | (hi << 32u64),
        ;
    }
    if i == 1 {
        assert(((lo >> 7u64) & 1u64) + 2 * ((lo >> 8u64) & 1u64) + 4 * ((lo >> 9u64) & 1u64) + 8 * ((lo >> 10u64) & 1u64) + 16 * ((lo >> 11u64) & 1u64) + 32 * ((lo >> 12u64) & 1u64) + 64 * ((lo >> 13u64) & 1u64) == (v >> 7u64) & 0x7fu64) by (bit_vector)
            requires
                lo < 0x1_0000_0000u64,
                hi < 0x1_0000_0000u64,
                v == lo | (hi << 32u64),
        ;
    }
    if i == 2 {
        assert(((lo >> 14u64) & 1u64) + 2 * ((lo >> 15u64) & 1u64) + 4 * ((lo >> 16u64) & 1u64) + 8 * ((lo >> 17u64) & 1u64) + 16 * ((lo >> 18u64) & 1u64) + 32 * ((lo >> 19u64) & 1u64) + 64 * ((lo >> 20u64) & 1u64) == (v >> 14u64) & 0x7fu64) by (bit_vector)
            requires
                lo < 0x1_0000_0000u64,
                hi < 0x1_0000_0000u64,
                v == lo | (hi << 32u64),
        ;
    }
    if i == 3 {
        assert(((lo >> 21u64) & 1u64) + 2 * ((lo >> 22u64) & 1u64) + 4 * ((lo >> 23u64) & 1u64) + 8 * ((lo >> 24u64) & 1u64) + 16 * ((lo >> 25u64) & 1u64) + 32 * ((lo >> 26u64) & 1u64) + 64 * ((lo >> 27u64) & 1u64) == (v >> 21u64) & 0x7fu64) by (bit_vector)
            requires
                lo < 0x1_0000_0000u64,
                hi < 0x1_0000_0000u64,
                v == lo | (hi << 32u64),
        ;
    }
    if i == 4 {
        assert(((lo >> 28u64) & 1u64) + 2 * ((lo >> 29u64) & 1u64) + 4 * ((lo >> 30u64) & 1u64) + 8 * ((lo >> 31u64) & 1u64) + 16 * ((hi >> 0u64) & 1u64) + 32 * ((hi >> 1u64) & 1u64) + 64 * ((hi >> 2u64) & 1u64) == (v >> 28u64) & 0x7fu64) by (bit_vector)
            requires
                lo < 0x1_0000_0000u64,
                hi < 0x1_0000_0000u64,
                v == lo | (hi << 32u64),
        ;
    }
    if i == 5 {
        assert(((hi >> 3u64) & 1u64) + 2 * ((hi >> 4u64) & 1u64) + 4 * ((hi >> 5u64) & 1u64) + 8 * ((hi >> 6u64) & 1u64) + 16 * ((hi >> 7u64) & 1u64) + 32 * ((hi >> 8u64) & 1u64) + 64 * ((hi >> 9u64) & 1u64) == (v >> 35u64) & 0x7fu64) by (bit_vector)
            requires
                lo < 0x1_0000_0000u64,
                hi < 0x1_0000_0000u64,
                v == lo | (hi << 32u64),
        ;
    }
    if i == 6 {
        assert(((hi >> 10u64) & 1u64) + 2 * ((hi >> 11u64) & 1u64) + 4 * ((hi >> 12u64) & 1u64) + 8 * ((hi >> 13u64) & 1u64) + 16 * ((hi >> 14u64) & 1u64) + 32 * ((hi >> 15u64) & 1u64) + 64 * ((hi >> 16u64) & 1u64) == (v >> 42u64) & 0x7fu64) by (bit_vector)
            requires
                lo < 0x1_0000_0000u64,
                hi < 0x1_0000_0000u64,
                v == lo | (hi << 32u64),
        ;
    }
    if i == 7 {
        assert(((hi >> 17u64) & 1u64) + 2 * ((hi >> 18u64) & 1u64) + 4 * ((hi >> 19u64) & 1u64) + 8 * ((hi >> 20u64) & 1u64) + 16 * ((hi >> 21u64) & 1u64) + 32 * ((hi >> 22u64) & 1u64) + 64 * ((hi >> 23u64) & 1u64) == (v >> 49u64) & 0x7fu64) by (bit_vector)
            requires
                lo < 0x1_0000_0000u64,
                hi < 0x1_0000_0000u64,
                v == lo | (hi << 32u64),
        ;
    }
    if i == 8 {
        assert(((hi >> 24u64) & 1u64) + 2 * ((hi >> 25u64) & 1u64) + 4 * ((hi >> 26u64) & 1u64) + 8 * ((hi >> 27u64) & 1u64) + 16 * ((hi >> 28u64) & 1u64) + 32 * ((hi >> 29u64) & 1u64) + 64 * ((hi >> 30u64) & 1u64) == (v >> 56u64) & 0x7fu64) by (bit_vector)
            requires
                lo < 0x1_0000_0000u64,
                hi < 0x1_0000_0000u64,
                v == lo | (hi << 32u64),
        ;
    }
}

proof fn lemma_groups_are_septets(lo: u64, hi: u64, v: u64)
    requires
        lo < two_32(),
        hi < two_32(),
        v == lo | (hi << 32u64),
    ensures
        groups(lo, hi) == septets(v),
{
    assert forall|i: int| 0 <= i < 9 implies groups(lo, hi)[i] == septets(v)[i] by {
        lemma_group_is_septet(lo, hi, v, i);
    }
    assert(groups(lo, hi) =~= septets(v));
}

proof fn lemma_bytes_spell_varint(w: Seq<u64>, num: I64Target, buffer: Seq<BoolTarget>)
    requires
        buffer.len() == 72,
        limbs_in_range(w, num),
        forall|m: int| 0 <= m < 9 ==> byte_known(w, num, buffer, m),
    ensures
        bits_hold(w, buffer, varint_buffer(int64_value(w, num) as u64)),
{
    let lo = w[low_limb(num).index as int];
    let hi = w[high_limb(num).index as int];
    let v = lemma_join_limbs(lo, hi);
    lemma_groups_are_septets(lo, hi, v);
    let bytes = varint_buffer(v);
    assert forall|k: int| 0 <= k < 72 implies 0 <= val(w, (#[trigger] buffer[k]).target) <= 1 by {
        let m = k / 8;
        let t = k % 8;
        assert(byte_known(w, num, buffer, m));
        assert(k == 8 * m + t);
        if t < 7 {
            lemma_limb_bit_range(lo, hi, k - m);
        }
    }
    assert forall|i: int| 0 <= i < 9 implies le_byte(w, buffer, i) == #[trigger] bytes[i] by {
        assert(byte_known(w, num, buffer, i));
        reveal_with_fuel(partial_group, 8);
        assert(groups(lo, hi)[i] == septets(v)[i]);
        assert(val(w, buffer[8 * i + 0].target) == limb_bit(lo, hi, 7 * i + 0));
        assert(val(w, buffer[8 * i + 1].target) == limb_bit(lo, hi, 7 * i + 1));
        assert(val(w, buffer[8 * i + 2].target) == limb_bit(lo, hi, 7 * i + 2));
        assert(val(w, buffer[8 * i + 3].target) == limb_bit(lo, hi, 7 * i + 3));
        assert(val(w, buffer[8 * i + 4].target) == limb_bit(lo, hi, 7 * i + 4));
        assert(val(w, buffer[8 * i + 5].target) == limb_bit(lo, hi, 7 * i + 5));
        assert(val(w, buffer[8 * i + 6].target) == limb_bit(lo, hi, 7 * i + 6));
        lemma_limb_bit_range(lo, hi, 7 * i + 0);
        lemma_limb_bit_range(lo, hi, 7 * i + 1);
        lemma_limb_bit_range(lo, hi, 7 * i + 2);
        lemma_limb_bit_range(lo, hi, 7 * i + 3);
        lemma_limb_bit_range(lo, hi, 7 * i + 4);
        lemma_limb_bit_range(lo, hi, 7 * i + 5);
        lemma_limb_bit_range(lo, hi, 7 * i + 6);
    }
}

proof fn lemma_byte_from_bits(b: u64)
    requires
        b < 256,
    ensures
        bit_of(b, 0) + 2 * bit_of(b, 1) + 4 * bit_of(b, 2) + 8 * bit_of(b, 3) + 16 * bit_of(b, 4)
            + 32 * bit_of(b, 5) + 64 * bit_of(b, 6) + 128 * bit_of(b, 7) == b,
        forall|j: u64| 0 <= #[trigger] bit_of(b, j) <= 1,
{
    assert(((b >> 0u64) & 1u64) + 2 * ((b >> 1u64) & 1u64) + 4 * ((b >> 2u64) & 1u64) + 8 * ((b
        >> 3u64) & 1u64) + 16 * ((b >> 4u64) & 1u64) + 32 * ((b >> 5u64) & 1u64) + 64 * ((b
        >> 6u64) & 1u64) + 128 * ((b >> 7u64) & 1u64) == b) by (bit_vector)
        requires
            b < 256u64,
    ;
    assert forall|j: u64| 0 <= #[trigger] bit_of(b, j) <= 1 by {
        lemma_bit_range(b, j);
    }
}

proof fn lemma_record_spelled(
    w: Seq<u64>,
    pubkey: Ed25519PubkeyTarget,
    voting_power: I64Target,
    vp_bits: Seq<BoolTarget>,
    buffer: Seq<BoolTarget>,
)
    requires
        buffer.len() == 368,
        vp_bits.len() == 72,
        pubkey_is_bits(w, pubkey),
        bits_hold(w, vp_bits, varint_buffer(int64_value(w, voting_power) as u64)),
        forall|m: int|
            0 <= m < 32 ==> val(w, (#[trigger] buffer[m]).target) == byte_string_bit(
                pubkey_prefix(),
                m,
            ),
        forall|m: int| 32 <= m < 288 ==> (#[trigger] buffer[m]) == pubkey.0@[m - 32],
        forall|m: int|
            288 <= m < 296 ==> val(w, (#[trigger] buffer[m]).target) == bit_of(
                16,
                (m - 288) as u64,
            ),
        forall|m: int| 296 <= m < 368 ==> (#[trigger] buffer[m]) == vp_bits[m - 296],
    ensures
        bits_hold(
            w,
            buffer,
            validator_bytes(pubkey_bytes(w, pubkey), int64_value(w, voting_power) as u64),
        ),
{
    let v = int64_value(w, voting_power) as u64;
    let bytes = validator_bytes(pubkey_bytes(w, pubkey), v);
    assert(bytes.len() == 46);
    lemma_byte_from_bits(10);
    lemma_byte_from_bits(34);
    lemma_byte_from_bits(32);
    lemma_byte_from_bits(16);
    assert forall|k: int| 0 <= k < 368 implies 0 <= val(w, (#[trigger] buffer[k]).target) <= 1 by {
        if k < 32 {
            assert(val(w, buffer[k].target) == byte_string_bit(pubkey_prefix(), k));
            assert(0 <= k / 8 < 4);
        } else if k < 288 {
            assert(buffer[k] == pubkey.0@[k - 32]);
            assert(0 <= val(w, pubkey.0@[k - 32].target) <= 1);
        } else if k < 296 {
            assert(val(w, buffer[k].target) == bit_of(16, (k - 288) as u64));
        } else {
            assert(buffer[k] == vp_bits[k - 296]);
            assert(0 <= val(w, vp_bits[k - 296].target) <= 1);
        }
    }
    assert forall|i: int| 0 <= i < 46 implies le_byte(w, buffer, i) == #[trigger] bytes[i] by {
        if i < 4 {
            assert(bytes[i] == pubkey_prefix()[i]);
            assert(val(w, buffer[8 * i].target) == byte_string_bit(pubkey_prefix(), 8 * i));
            assert(val(w, buffer[8 * i + 1].target) == byte_string_bit(pubkey_prefix(), 8 * i + 1));
            assert(val(w, buffer[8 * i + 2].target) == byte_string_bit(pubkey_prefix(), 8 * i + 2));
            assert(val(w, buffer[8 * i + 3].target) == byte_string_bit(pubkey_prefix(), 8 * i + 3));
            assert(val(w, buffer[8 * i + 4].target) == byte_string_bit(pubkey_prefix(), 8 * i + 4));
            assert(val(w, buffer[8 * i + 5].target) == byte_string_bit(pubkey_prefix(), 8 * i + 5));
            assert(val(w, buffer[8 * i + 6].target) == byte_string_bit(pubkey_prefix(), 8 * i + 6));
            assert(val(w, buffer[8 * i + 7].target) == byte_string_bit(pubkey_prefix(), 8 * i + 7));
        } else if i < 36 {
            assert(bytes[i] == pubkey_bytes(w, pubkey)[i - 4]);
            assert(buffer[8 * i] == pubkey.0@[8 * (i - 4)]);
            assert(buffer[8 * i + 1] == pubkey.0@[8 * (i - 4) + 1]);
            assert(buffer[8 * i + 2] == pubkey.0@[8 * (i - 4) + 2]);
            assert(buffer[8 * i + 3] == pubkey.0@[8 * (i - 4) + 3]);
            assert(buffer[8 * i + 4] == pubkey.0@[8 * (i - 4) + 4]);
            assert(buffer[8 * i + 5] == pubkey.0@[8 * (i - 4) + 5]);
            assert(buffer[8 * i + 6] == pubkey.0@[8 * (i - 4) + 6]);
            assert(buffer[8 * i + 7] == pubkey.0@[8 * (i - 4) + 7]);
        } else if i == 36 {
            assert(bytes[i] == 16);
            assert(val(w, buffer[288].target) == bit_of(16, 0));
            assert(val(w, buffer[289].target) == bit_of(16, 1));
            assert(val(w, buffer[290].target) == bit_of(16, 2));
            assert(val(w, buffer[291].target) == bit_of(16, 3));
            assert(val(w, buffer[292].target) == bit_of(16, 4));
            assert(val(w, buffer[293].target) == bit_of(16, 5));
            assert(val(w, buffer[294].target) == bit_of(16, 6));
            assert(val(w, buffer[295].target) == bit_of(16, 7));
        } else {
            assert(bytes[i] == varint_buffer(v)[i - 37]);
            assert(le_byte(w, vp_bits, i - 37) == varint_buffer(v)[i - 37]);
            assert(buffer[8 * i] == vp_bits[8 * (i - 37)]);
            assert(buffer[8 * i + 1] == vp_bits[8 * (i - 37) + 1]);
            assert(buffer[8 * i + 2] == vp_bits[8 * (i - 37) + 2]);
            assert(buffer[8 * i + 3] == vp_bits[8 * (i - 37) + 3]);
            assert(buffer[8 * i + 4] == vp_bits[8 * (i - 37) + 4]);
            assert(buffer[8 * i + 5] == vp_bits[8 * (i - 37) + 5]);
            assert(buffer[8 * i + 6] == vp_bits[8 * (i - 37) + 6]);
            assert(buffer[8 * i + 7] == vp_bits[8 * (i - 37) + 7]);
        }
    }
}

} // verus!
