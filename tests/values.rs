use gpu_controls::align::aligned_len;
use gpu_controls::value::{float_bits_eq, ControlValue, ValueKind};

fn bytes_of(v: &ControlValue) -> Vec<u8> {
    v.get_bytes().to_vec()
}

#[test]
fn int_encoding_is_little_endian() {
    assert_eq!(bytes_of(&ControlValue::from_int(1)), vec![1, 0, 0, 0]);
    assert_eq!(bytes_of(&ControlValue::from_int(-1)), vec![255, 255, 255, 255]);
    assert_eq!(bytes_of(&ControlValue::from_int(0x0102_0304)), vec![4, 3, 2, 1]);
}

#[test]
fn bool_is_held_as_int() {
    let t = ControlValue::from_bool(true);
    let f = ControlValue::from_bool(false);
    assert_eq!(bytes_of(&t), vec![1, 0, 0, 0]);
    assert_eq!(bytes_of(&f), vec![0, 0, 0, 0]);
    assert!(matches!(t, ControlValue::Bool(1, _, _)));
    assert_eq!(t.kind(), ValueKind::Bool);
}

#[test]
fn float_encoding_matches_f32_bytes() {
    let x = 5.0f32;
    assert_eq!(bytes_of(&ControlValue::from_float_bits(x.to_bits())), x.to_le_bytes().to_vec());
    let v = [1.5f32, -2.25f32, 0.1f32];
    let mut expected = Vec::new();
    for c in v.iter() {
        expected.extend_from_slice(&c.to_le_bytes());
    }
    let bits = [v[0].to_bits(), v[1].to_bits(), v[2].to_bits()];
    assert_eq!(bytes_of(&ControlValue::from_vec3_bits(bits)), expected);
}

#[test]
fn sizes_by_kind() {
    assert_eq!(ControlValue::from_int(3).size(), 4);
    assert_eq!(ControlValue::from_bool(true).size(), 4);
    assert_eq!(ControlValue::from_float_bits(0).size(), 4);
    assert_eq!(ControlValue::from_vec2_bits([0; 2]).size(), 8);
    assert_eq!(ControlValue::from_vec3_bits([0; 3]).size(), 12);
    assert_eq!(ControlValue::from_vec4_bits([0; 4]).size(), 16);
    assert_eq!(bytes_of(&ControlValue::from_vec4_bits([1, 2, 3, 4])).len(), 16);
}

#[test]
fn decode_round_trip_every_kind() {
    let values = vec![
        ControlValue::from_int(-123456),
        ControlValue::from_bool(true),
        ControlValue::from_float_bits(3.75f32.to_bits()),
        ControlValue::from_vec2_bits([1.0f32.to_bits(), (-0.5f32).to_bits()]),
        ControlValue::from_vec3_bits([7, 8, 9]),
        ControlValue::from_vec4_bits([0.25f32.to_bits(), 2.0f32.to_bits(), 4.0f32.to_bits(), 8.0f32.to_bits()]),
    ];
    for v in values.iter() {
        let back = ControlValue::decode(v.kind(), v.get_bytes()).unwrap();
        assert_eq!(back.kind(), v.kind());
        assert_eq!(back.get_bytes(), v.get_bytes());
        assert!(back.same_as(v));
    }
    let back = ControlValue::decode(ValueKind::Int, &(-123456i32).to_le_bytes()).unwrap();
    assert!(matches!(back, ControlValue::Int(-123456, _, _)));
    let back = ControlValue::decode(ValueKind::Vec2, ControlValue::from_vec2_bits([1.0f32.to_bits(), (-0.5f32).to_bits()]).get_bytes()).unwrap();
    match back {
        ControlValue::Vec2(a, _, _) => {
            assert_eq!(f32::from_bits(a[0]), 1.0);
            assert_eq!(f32::from_bits(a[1]), -0.5);
        }
        _ => panic!("wrong kind"),
    }
}

#[test]
fn decode_rejects_wrong_length_and_bad_bool() {
    assert!(ControlValue::decode(ValueKind::Int, &[1, 2, 3]).is_none());
    assert!(ControlValue::decode(ValueKind::Vec2, &[0; 12]).is_none());
    assert!(ControlValue::decode(ValueKind::Bool, &[2, 0, 0, 0]).is_none());
    assert!(ControlValue::decode(ValueKind::Bool, &[1, 0, 0, 0]).is_some());
}

#[test]
fn float_equality_follows_ieee() {
    let samples = [0.0f32, -0.0, 1.0, -1.0, 5.0, f32::NAN, f32::INFINITY, f32::NEG_INFINITY, 1e-40, f32::MAX];
    for a in samples.iter() {
        for b in samples.iter() {
            assert_eq!(float_bits_eq(a.to_bits(), b.to_bits()), a == b, "{} vs {}", a, b);
        }
    }
}

#[test]
fn same_as_compares_components() {
    let a = ControlValue::from_vec2_bits([0.0f32.to_bits(), 1.0f32.to_bits()]);
    let b = ControlValue::from_vec2_bits([(-0.0f32).to_bits(), 1.0f32.to_bits()]);
    let c = ControlValue::from_vec2_bits([0.0f32.to_bits(), 2.0f32.to_bits()]);
    assert!(a.same_as(&b));
    assert!(!a.same_as(&c));
    assert!(!ControlValue::from_int(1).same_as(&ControlValue::from_bool(true)));
}

#[test]
fn alignment_cases() {
    assert_eq!(aligned_len(0), 0);
    assert_eq!(aligned_len(4), 16);
    assert_eq!(aligned_len(4) - 4, 12);
    assert_eq!(aligned_len(16), 16);
    assert_eq!(aligned_len(17), 32);
    assert_eq!(aligned_len(17) - 17, 15);
    for s in 0..100usize {
        let a = aligned_len(s);
        assert_eq!(a % 16, 0);
        assert!(a >= s && a - s < 16);
    }
}
