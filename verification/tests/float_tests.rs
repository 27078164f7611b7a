use frac_json::errors::CodecError;
use frac_json::floats::{f32_bits_to_f64_bits, f64_bits_to_f32_bits};
use frac_json::json::JsonValue;
use frac_json::{decode, encode};

#[test]
fn narrowing_matches_machine_cast() {
    for x in [
        1.5f64, -2.5, 3.14159, -3.14159, 0.1, 1000000.25, 16777216.0, -16777216.0,
        1.1754943508222875e-38, -1.1754943508222875e-38, 123.456, 2.0, 65504.3,
    ] {
        assert_eq!(f64_bits_to_f32_bits(x.to_bits()), (x as f32).to_bits());
    }
}

#[test]
fn widening_matches_machine_cast() {
    for f in [
        1.5f32, -2.5, 3.14159, 16777216.0, -16777216.0, 1.1754944e-38, 1e-45, -1e-45,
        3.4028235e38, -0.0, 0.25,
    ] {
        assert_eq!(f32_bits_to_f64_bits(f.to_bits()), (f as f64).to_bits());
    }
}

#[test]
fn float_zero_uses_zero_tag() {
    let bytes = encode(&JsonValue::Float(0.0f64.to_bits()), None, None).unwrap();
    assert_eq!(bytes, vec![0x46, 0x4A, 0x00, 0x66]);
    assert_eq!(decode(&bytes, None).unwrap(), JsonValue::Float(0.0f64.to_bits()));
    let negz = encode(&JsonValue::Float((-0.0f64).to_bits()), None, None).unwrap();
    assert_eq!(negz, vec![0x46, 0x4A, 0x00, 0x66]);
}

#[test]
fn in_band_float_round_trips_through_single_precision() {
    let x = 3.14f64;
    let bytes = encode(&JsonValue::Float(x.to_bits()), None, None).unwrap();
    assert_eq!(bytes[3], 0x46);
    let expected = ((x as f32) as f64).to_bits();
    assert_eq!(decode(&bytes, None).unwrap(), JsonValue::Float(expected));
}

#[test]
fn exactly_representable_float_round_trips_losslessly() {
    for x in [1.5f64, -0.25, 1024.5, 16777216.0] {
        let bytes = encode(&JsonValue::Float(x.to_bits()), None, None).unwrap();
        assert_eq!(bytes[3], 0x46);
        assert_eq!(decode(&bytes, None).unwrap(), JsonValue::Float(x.to_bits()));
    }
}

#[test]
fn out_of_band_float_keeps_full_precision() {
    for x in [1e300f64, -1e300, 1e-40, 2e38, 1.1f64 * 1e30] {
        let bytes = encode(&JsonValue::Float(x.to_bits()), None, None).unwrap();
        assert_eq!(bytes[3], 0x64);
        assert_eq!(decode(&bytes, None).unwrap(), JsonValue::Float(x.to_bits()));
    }
}

#[test]
fn non_finite_floats_are_rejected() {
    assert_eq!(
        encode(&JsonValue::Float(f64::NAN.to_bits()), None, None),
        Err(CodecError::NonFiniteNumber)
    );
    assert_eq!(
        encode(&JsonValue::Float(f64::INFINITY.to_bits()), None, None),
        Err(CodecError::NonFiniteNumber)
    );
    assert_eq!(
        encode(&JsonValue::Float(f64::NEG_INFINITY.to_bits()), None, None),
        Err(CodecError::NonFiniteNumber)
    );
    // a single-precision NaN payload is rejected on decode
    let mut bad = vec![0x46, 0x4A, 0x00, 0x46];
    bad.extend_from_slice(&f32::NAN.to_bits().to_le_bytes());
    assert_eq!(decode(&bad, None), Err(CodecError::NonFiniteNumber));
    let mut bad8 = vec![0x46, 0x4A, 0x00, 0x64];
    bad8.extend_from_slice(&f64::INFINITY.to_bits().to_le_bytes());
    assert_eq!(decode(&bad8, None), Err(CodecError::NonFiniteNumber));
}

#[test]
fn subnormal_single_payload_widens_exactly() {
    let f = 1e-45f32;
    let mut bytes = vec![0x46, 0x4A, 0x00, 0x46];
    bytes.extend_from_slice(&f.to_bits().to_le_bytes());
    assert_eq!(decode(&bytes, None).unwrap(), JsonValue::Float((f as f64).to_bits()));
}
