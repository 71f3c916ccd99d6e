use celestia_commitment::circuit::{BoolTarget, CircuitBuilder, Gate, Target};
use celestia_commitment::u32::U32Target;
use celestia_commitment::validator::{Ed25519PubkeyTarget, I64Target, TendermintMarshaller};

fn bits_to_bytes(w: &Vec<u64>, bits: &[BoolTarget]) -> Vec<u8> {
    let mut bytes = Vec::new();
    for chunk in bits.chunks(8) {
        let mut byte = 0u64;
        for (j, bit) in chunk.iter().enumerate() {
            let v = w[bit.target.index];
            assert!(v <= 1);
            byte |= v << j;
        }
        bytes.push(byte as u8);
    }
    bytes
}

fn constant_i64(builder: &mut CircuitBuilder, value: i64) -> I64Target {
    let lower = value & ((1 << 32) - 1);
    let upper = value >> 32;
    let lower_target = U32Target(builder.constant(lower as u64));
    let upper_target = U32Target(builder.constant(upper as u64));
    I64Target([lower_target, upper_target])
}

fn marshal_constant(value: i64) -> Vec<u8> {
    let mut builder = CircuitBuilder::new();
    let voting_power_target = constant_i64(&mut builder, value);
    let result = builder.marshal_int64_varint(voting_power_target);
    let w = builder.generate_witness(&Vec::new());
    assert!(builder.is_satisfied(&w));
    bits_to_bytes(&w, &result)
}

#[test]
fn test_marshal_int64_varint() {
    // The tuples hold the form: (voting_power_i64, voting_power_varint_bytes).
    let test_cases = [
        (1i64, vec![1u8]),
        (1234567890i64, vec![210, 133, 216, 204, 4]),
        (38957235239i64, vec![167, 248, 160, 144, 145, 1]),
        (9999999999999i64, vec![255, 191, 202, 243, 132, 163, 2]),
        (
            724325643436111i64,
            vec![207, 128, 183, 165, 211, 216, 164, 1],
        ),
        (
            9223372036854775807i64,
            vec![255, 255, 255, 255, 255, 255, 255, 255, 127],
        ),
    ];

    for test_case in test_cases {
        let marshalled_bytes = marshal_constant(test_case.0);
        let expected_bytes = test_case.1;

        println!("Voting Power: {:?}", test_case.0);
        println!("Expected Varint Encoding (Bytes): {:?}", expected_bytes);
        println!("Produced Varint Encoding (Bytes): {:?}", marshalled_bytes);

        assert_eq!(marshalled_bytes.len(), 9);
        for i in 0..marshalled_bytes.len() {
            if i >= expected_bytes.len() {
                assert_eq!(marshalled_bytes[i], 0);
                continue;
            }
            assert_eq!(marshalled_bytes[i], expected_bytes[i]);
        }
    }
}

#[test]
fn test_marshal_tendermint_validator() {
    let voting_power_i64 = 724325643436111i64;
    let pubkey_bits = [false; 256];
    let expected_marshal = [
        10u8, 34, 10, 32, 0, 0, 0, 0, 0, 0, 0, 0, 0, 0, 0, 0, 0, 0, 0, 0, 0, 0, 0, 0, 0, 0, 0,
        0, 0, 0, 0, 0, 0, 0, 0, 0, 16, 207, 128, 183, 165, 211, 216, 164, 1,
    ];

    let mut builder = CircuitBuilder::new();
    let voting_power_target = constant_i64(&mut builder, voting_power_i64);

    let mut pubkey = [builder._false(); 256];
    for i in 0..256 {
        pubkey[i] = if pubkey_bits[i] {
            builder._true()
        } else {
            builder._false()
        };
    }
    let pubkey = Ed25519PubkeyTarget(pubkey);
    let result = builder.marshal_tendermint_validator(pubkey, voting_power_target);

    let w = builder.generate_witness(&Vec::new());
    assert!(builder.is_satisfied(&w));
    let marshalled_bytes = bits_to_bytes(&w, &result);
    let expected_bytes = expected_marshal;

    println!("Voting Power: {:?}", voting_power_i64);
    println!("Expected Validator Encoding (Bytes): {:?}", expected_bytes);
    println!("Produced Validator Encoding (Bytes): {:?}", marshalled_bytes);

    assert_eq!(marshalled_bytes.len(), 46);
    for i in 0..marshalled_bytes.len() {
        if i >= expected_bytes.len() {
            assert_eq!(marshalled_bytes[i], 0);
            continue;
        }
        assert_eq!(marshalled_bytes[i], expected_bytes[i]);
    }
}

#[test]
fn varint_of_zero_is_nine_zero_bytes() {
    assert_eq!(marshal_constant(0), vec![0u8; 9]);
}

#[test]
fn varint_of_small_values_takes_one_byte() {
    assert_eq!(marshal_constant(127), vec![127, 0, 0, 0, 0, 0, 0, 0, 0]);
    assert_eq!(marshal_constant(128), vec![128, 1, 0, 0, 0, 0, 0, 0, 0]);
    assert_eq!(marshal_constant(300), vec![172, 2, 0, 0, 0, 0, 0, 0, 0]);
}

fn decode_varint(bytes: &[u8]) -> u64 {
    let mut value = 0u64;
    for (i, byte) in bytes.iter().enumerate() {
        value |= ((byte & 0x7f) as u64) << (7 * i);
        if byte & 0x80 == 0 {
            break;
        }
    }
    value
}

fn minimal_len(bytes: &[u8]) -> usize {
    bytes.iter().position(|b| b & 0x80 == 0).unwrap() + 1
}

fn bit_length(v: u64) -> usize {
    if v == 0 {
        1
    } else {
        64 - v.leading_zeros() as usize
    }
}

#[test]
fn varint_decodes_to_its_value() {
    let values = [
        0i64,
        1,
        127,
        128,
        16383,
        16384,
        3804,
        1 << 32,
        (1 << 32) - 1,
        (1 << 56) - 1,
        1 << 56,
        i64::MAX,
    ];
    for v in values {
        let bytes = marshal_constant(v);
        assert_eq!(decode_varint(&bytes), v as u64);
        let len = minimal_len(&bytes);
        assert_eq!(len, (bit_length(v as u64) + 6) / 7);
        for i in len..9 {
            assert_eq!(bytes[i], 0);
        }
    }
}

#[test]
fn varint_drops_bit_63() {
    // Both halves fit in 32 bits, so the circuit is satisfied; bit 63 is not read.
    let mut builder = CircuitBuilder::new();
    let lower = U32Target(builder.constant(5));
    let upper = U32Target(builder.constant(0x8000_0000));
    let result = builder.marshal_int64_varint(I64Target([lower, upper]));
    let w = builder.generate_witness(&Vec::new());
    assert!(builder.is_satisfied(&w));
    assert_eq!(bits_to_bytes(&w, &result), vec![5, 0, 0, 0, 0, 0, 0, 0, 0]);
}

#[test]
fn varint_rejects_a_half_beyond_32_bits() {
    let mut builder = CircuitBuilder::new();
    let lower = U32Target(builder.add_virtual_target());
    let upper = U32Target(builder.add_virtual_target());
    let _ = builder.marshal_int64_varint(I64Target([lower, upper]));
    assert_eq!(builder.num_slots(), 2);

    let w = builder.generate_witness(&vec![7, 9]);
    assert!(builder.is_satisfied(&w));
    let w = builder.generate_witness(&vec![1 << 32, 9]);
    assert!(!builder.is_satisfied(&w));
    let w = builder.generate_witness(&vec![7, 1 << 32]);
    assert!(!builder.is_satisfied(&w));
}

#[test]
fn varint_of_input_wires() {
    let mut builder = CircuitBuilder::new();
    let lower = U32Target(builder.add_virtual_target());
    let upper = U32Target(builder.add_virtual_target());
    let result = builder.marshal_int64_varint(I64Target([lower, upper]));
    match builder.gate(lower.0.index) {
        Gate::Input { slot, .. } => assert_eq!(slot, 0),
        _ => panic!("the first wire is an input"),
    }
    let v = 38957235239u64;
    let w = builder.generate_witness(&vec![v & 0xffff_ffff, v >> 32]);
    assert!(builder.is_satisfied(&w));
    assert_eq!(
        bits_to_bytes(&w, &result),
        vec![167, 248, 160, 144, 145, 1, 0, 0, 0]
    );
}

#[test]
fn validator_carries_its_public_key() {
    let mut builder = CircuitBuilder::new();
    let voting_power_target = constant_i64(&mut builder, 1);
    let mut pubkey = [builder._false(); 256];
    for i in 0..256 {
        pubkey[i] = BoolTarget::new_unsafe(builder.add_virtual_target());
    }
    let result =
        builder.marshal_tendermint_validator(Ed25519PubkeyTarget(pubkey), voting_power_target);
    for i in 0..256 {
        assert_eq!(result[32 + i], pubkey[i]);
    }
    let mut inputs = vec![0u64; 256];
    // Byte 0 of the key is 0x81, byte 31 is 0x01.
    inputs[0] = 1;
    inputs[7] = 1;
    inputs[31 * 8] = 1;
    let w = builder.generate_witness(&inputs);
    assert!(builder.is_satisfied(&w));
    let bytes = bits_to_bytes(&w, &result);
    let mut expected = vec![10u8, 34, 10, 32];
    let mut key = vec![0u8; 32];
    key[0] = 0x81;
    key[31] = 0x01;
    expected.extend(key);
    expected.push(16);
    expected.extend(vec![1u8, 0, 0, 0, 0, 0, 0, 0, 0]);
    assert_eq!(bytes, expected);
}

#[test]
fn field_gates_compute_in_the_field() {
    let mut builder = CircuitBuilder::new();
    let three = builder.constant(3);
    let five = builder.constant(5);
    let diff = builder.sub(three, five);
    let sum = builder.mul_const_add(7, three, five);
    let same = builder.is_equal(three, three);
    let other = builder.is_equal(three, five);
    let picked = builder.select(same, three, five);
    let not_picked = builder.select(other, three, five);
    let either = builder.or(same, other);
    let neither = builder.or(other, other);
    let w = builder.generate_witness(&Vec::new());
    assert_eq!(w[diff.index], 0xFFFF_FFFF_0000_0001 - 2);
    assert_eq!(w[sum.index], 26);
    assert_eq!(w[same.target.index], 1);
    assert_eq!(w[other.target.index], 0);
    assert_eq!(w[picked.index], 3);
    assert_eq!(w[not_picked.index], 5);
    assert_eq!(w[either.target.index], 1);
    assert_eq!(w[neither.target.index], 0);
    assert_eq!(builder.num_wires(), 10);
    let t: Target = diff;
    assert_eq!(t.index, 2);
}

#[test]
fn connect_is_met_only_by_equal_values() {
    let mut builder = CircuitBuilder::new();
    let a = builder.add_virtual_target();
    let b = builder.add_virtual_target();
    builder.connect(a, b);
    let w = builder.generate_witness(&vec![4, 4]);
    assert!(builder.is_satisfied(&w));
    let w = builder.generate_witness(&vec![4, 5]);
    assert!(!builder.is_satisfied(&w));
    // An input of the field must be below the order of the field.
    let w = builder.generate_witness(&vec![0xFFFF_FFFF_0000_0001, 0xFFFF_FFFF_0000_0001]);
    assert!(!builder.is_satisfied(&w));
}
