use gpu_controls::controls::{ControlError, ControlGroup, Controls};
use gpu_controls::value::{ControlValue, ValueKind};

#[test]
fn lighting_intensity_scenario() {
    let mut controls = Controls::new();
    let g = controls.group("lighting");
    assert_eq!(g.set_float("intensity", 1.0f32.to_bits(), None), Ok(1.0f32.to_bits()));
    assert_eq!(g.set_float("intensity", 1.0f32.to_bits(), Some(5.0f32.to_bits())), Ok(5.0f32.to_bits()));
    assert_eq!(g.size(), 4);
    assert_eq!(g.aligned_size(), 16);
    let mut expected = 5.0f32.to_le_bytes().to_vec();
    expected.extend_from_slice(&[0u8; 12]);
    assert_eq!(g.get_bytes().to_vec(), expected);
    assert_eq!(controls.get("lighting").name(), "lighting");
}

#[test]
fn new_group_is_empty_and_clean() {
    let mut g = ControlGroup::new("empty");
    assert_eq!(g.name(), "empty");
    assert_eq!(g.size(), 0);
    assert_eq!(g.aligned_size(), 0);
    assert!(!g.needs_update());
    assert!(g.get_bytes().is_empty());
}

#[test]
fn registration_sets_dirty_and_default() {
    let mut g = ControlGroup::new("g");
    assert_eq!(g.set_int("count", 7, None), Ok(7));
    assert!(g.needs_update());
    assert_eq!(g.size(), 4);
    assert_eq!(g.get_bytes().to_vec(), {
        let mut v = 7i32.to_le_bytes().to_vec();
        v.extend_from_slice(&[0u8; 12]);
        v
    });
    assert!(!g.needs_update());
    // the default is used only on first registration
    assert_eq!(g.set_int("count", 99, None), Ok(7));
    assert!(!g.needs_update());
}

#[test]
fn packing_is_idempotent() {
    let mut g = ControlGroup::new("g");
    g.set_vec3("pos", [1.0f32.to_bits(), 2.0f32.to_bits(), 3.0f32.to_bits()], None).unwrap();
    g.set_bool("on", true, None).unwrap();
    let first = g.get_bytes().to_vec();
    let first_ptr = g.get_bytes().as_ptr();
    let second = g.get_bytes().to_vec();
    let second_ptr = g.get_bytes().as_ptr();
    assert_eq!(first, second);
    assert_eq!(first_ptr, second_ptr);
    assert_eq!(first.len(), g.aligned_size());
    assert_eq!(first.len(), 16);
}

#[test]
fn no_op_set_keeps_cache_untouched() {
    let mut g = ControlGroup::new("g");
    g.set_float("x", 2.0f32.to_bits(), None).unwrap();
    let before = g.get_bytes().to_vec();
    let first_ptr = g.get_bytes().as_ptr();
    assert_eq!(g.set_float("x", 0, Some(2.0f32.to_bits())), Ok(2.0f32.to_bits()));
    assert!(!g.needs_update());
    let second_ptr = g.get_bytes().as_ptr();
    assert_eq!(first_ptr, second_ptr);
    assert_eq!(g.get_bytes().to_vec(), before);
}

#[test]
fn changed_set_marks_dirty_and_repacks() {
    let mut g = ControlGroup::new("g");
    g.set_float("a", 1.0f32.to_bits(), None).unwrap();
    g.set_int("b", 2, None).unwrap();
    g.get_bytes();
    assert!(!g.needs_update());
    assert_eq!(g.set_int("b", 0, Some(-3)), Ok(-3));
    assert!(g.needs_update());
    let bytes = g.get_bytes().to_vec();
    assert_eq!(&bytes[0..4], &1.0f32.to_le_bytes());
    assert_eq!(&bytes[4..8], &(-3i32).to_le_bytes());
    assert_eq!(&bytes[8..16], &[0u8; 8]);
    assert!(!g.needs_update());
}

#[test]
fn negative_zero_is_not_a_change_but_nan_is() {
    let mut g = ControlGroup::new("g");
    g.set_float("z", 0.0f32.to_bits(), None).unwrap();
    g.get_bytes();
    assert_eq!(g.set_float("z", 0, Some((-0.0f32).to_bits())), Ok(0.0f32.to_bits()));
    assert!(!g.needs_update());
    let nan = f32::NAN.to_bits();
    assert_eq!(g.set_float("z", 0, Some(nan)), Ok(nan));
    assert!(g.needs_update());
    g.get_bytes();
    assert_eq!(g.set_float("z", 0, Some(nan)), Ok(nan));
    assert!(g.needs_update());
}

#[test]
fn vector_change_in_one_component() {
    let mut g = ControlGroup::new("g");
    let d = [1.0f32.to_bits(), 2.0f32.to_bits()];
    g.set_vec2("v", d, None).unwrap();
    g.get_bytes();
    assert_eq!(g.set_vec2("v", d, Some(d)), Ok(d));
    assert!(!g.needs_update());
    let n = [1.0f32.to_bits(), 4.0f32.to_bits()];
    assert_eq!(g.set_vec2("v", d, Some(n)), Ok(n));
    assert!(g.needs_update());
    let bytes = g.get_bytes().to_vec();
    assert_eq!(&bytes[4..8], &4.0f32.to_le_bytes());
}

#[test]
fn kind_mismatch_is_an_error_and_changes_nothing() {
    let mut g = ControlGroup::new("g");
    g.set_int("n", 1, None).unwrap();
    g.get_bytes();
    assert_eq!(
        g.set_float("n", 0, Some(1.0f32.to_bits())),
        Err(ControlError::KindMismatch { expected: ValueKind::Float, found: ValueKind::Int })
    );
    assert_eq!(
        g.set_bool("n", true, None),
        Err(ControlError::KindMismatch { expected: ValueKind::Bool, found: ValueKind::Int })
    );
    assert!(!g.needs_update());
    assert_eq!(g.size(), 4);
    assert!(matches!(g.get("n"), Some(ControlValue::Int(1, _, _))));
}

#[test]
fn packs_in_registration_order_with_padding() {
    let mut g = ControlGroup::new("g");
    g.set_vec4("c", [1, 2, 3, 4], None).unwrap();
    g.set_int("i", 5, None).unwrap();
    g.set_vec2("v", [6, 7], None).unwrap();
    assert_eq!(g.size(), 28);
    assert_eq!(g.aligned_size(), 32);
    let bytes = g.get_bytes().to_vec();
    let mut expected = Vec::new();
    for w in [1u32, 2, 3, 4, 5, 6, 7].iter() {
        expected.extend_from_slice(&w.to_le_bytes());
    }
    expected.extend_from_slice(&[0u8; 4]);
    assert_eq!(bytes, expected);
    let names: Vec<String> = {
        let mut out = Vec::new();
        let mut it = g.values().iter();
        while let Some((k, _)) = it.next() {
            out.push(k.clone());
        }
        out
    };
    assert_eq!(names, vec!["c".to_string(), "i".to_string(), "v".to_string()]);
}

#[test]
fn sixteen_bytes_get_no_extra_padding() {
    let mut g = ControlGroup::new("g");
    g.set_vec4("c", [9, 9, 9, 9], None).unwrap();
    assert_eq!(g.size(), 16);
    assert_eq!(g.aligned_size(), 16);
    assert_eq!(g.get_bytes().len(), 16);
    g.set_int("d", 1, None).unwrap();
    assert_eq!(g.aligned_size(), 32);
    assert_eq!(g.get_bytes().len(), 32);
}

#[test]
fn controls_registry() {
    let mut c = Controls::new();
    assert!(!c.contains("a"));
    c.group("a").set_int("x", 1, None).unwrap();
    c.group("b");
    c.group("a").set_int("x", 0, Some(2)).unwrap();
    assert!(c.contains("a") && c.contains("b"));
    assert_eq!(c.get("a").size(), 4);
    assert_eq!(c.get_mut("a").set_int("x", 0, None), Ok(2));
    assert_eq!(c.get("b").size(), 0);
}
