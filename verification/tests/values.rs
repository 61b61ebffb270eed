use graph::binary32;
use graph::value::{Value, ValueKind};

#[test]
fn scalars_have_length_one() {
    assert_eq!(Value::Int(7).len(), 1);
    assert_eq!(Value::Float(1.5f32.to_bits()).len(), 1);
    assert_eq!(Value::String("abc".to_string()).len(), 1);
}

#[test]
fn lists_have_their_length() {
    assert_eq!(Value::IntList(vec![1, 2, 3]).len(), 3);
    assert_eq!(Value::FloatList(vec![0, 0]).len(), 2);
    assert_eq!(Value::StringList(vec![]).len(), 0);
    assert_eq!(Value::IntList(vec![]).len(), 0);
}

#[test]
fn get_int_of_a_scalar_ignores_the_index() {
    assert_eq!(Value::Int(-9).get_int(0), -9);
    assert_eq!(Value::Int(-9).get_int(1000), -9);
}

#[test]
fn get_int_wraps_around_a_list() {
    let list = Value::IntList(vec![10, 20, 30]);
    assert_eq!(list.get_int(0), 10);
    assert_eq!(list.get_int(2), 30);
    assert_eq!(list.get_int(3), 10);
    assert_eq!(list.get_int(7), 20);
    assert_eq!(list.get_int(usize::MAX), [10, 20, 30][usize::MAX % 3]);
}

#[test]
fn get_int_of_text_is_zero() {
    assert_eq!(Value::String("12".to_string()).get_int(0), 0);
    assert_eq!(Value::StringList(vec!["12".to_string()]).get_int(5), 0);
    assert_eq!(Value::StringList(vec![]).get_int(5), 0);
}

#[test]
fn get_int_truncates_a_float() {
    assert_eq!(Value::Float(2.75f32.to_bits()).get_int(0), 2);
    assert_eq!(Value::Float((-2.75f32).to_bits()).get_int(0), -2);
    let list = Value::FloatList(vec![1.9f32.to_bits(), (-0.5f32).to_bits()]);
    assert_eq!(list.get_int(0), 1);
    assert_eq!(list.get_int(1), 0);
    assert_eq!(list.get_int(2), 1);
}

#[test]
fn float_conversion_agrees_with_the_cast() {
    let samples: [f32; 34] = [
        0.0,
        -0.0,
        0.25,
        0.99999994,
        1.0,
        -1.0,
        1.5,
        -1.5,
        2.0,
        3.9999998,
        100.0,
        255.5,
        -255.5,
        8388607.5,
        8388608.0,
        16777215.0,
        16777216.0,
        -16777217.0,
        123456789.0,
        2147483520.0,
        2147483648.0,
        -2147483648.0,
        -2147483904.0,
        4294967296.0,
        1e20,
        -1e20,
        f32::MAX,
        f32::MIN,
        f32::MIN_POSITIVE,
        1e-45,
        f32::INFINITY,
        f32::NEG_INFINITY,
        f32::NAN,
        -f32::NAN,
    ];
    for sample in samples {
        assert_eq!(binary32::to_i32(sample.to_bits()), sample as i32, "{}", sample);
    }
}

#[test]
fn float_conversion_saturates() {
    assert_eq!(binary32::to_i32(3e9f32.to_bits()), i32::MAX);
    assert_eq!(binary32::to_i32((-3e9f32).to_bits()), i32::MIN);
    assert_eq!(binary32::to_i32(f32::INFINITY.to_bits()), i32::MAX);
    assert_eq!(binary32::to_i32(f32::NEG_INFINITY.to_bits()), i32::MIN);
    assert_eq!(binary32::to_i32(f32::NAN.to_bits()), 0);
}

#[test]
fn float_equality_agrees_with_the_operator() {
    let samples: [f32; 9] = [
        0.0,
        -0.0,
        1.0,
        -1.0,
        1.0000001,
        f32::INFINITY,
        f32::NEG_INFINITY,
        f32::NAN,
        f32::MIN_POSITIVE,
    ];
    for a in samples {
        for b in samples {
            assert_eq!(binary32::equal(a.to_bits(), b.to_bits()), a == b, "{} {}", a, b);
        }
    }
}

#[test]
fn values_of_one_variant_compare_by_content() {
    assert_eq!(Value::Int(3), Value::Int(3));
    assert_ne!(Value::Int(3), Value::Int(4));
    assert_eq!(Value::String("a".to_string()), Value::String("a".to_string()));
    assert_ne!(Value::String("a".to_string()), Value::String("b".to_string()));
    assert_eq!(Value::IntList(vec![1, 2]), Value::IntList(vec![1, 2]));
    assert_ne!(Value::IntList(vec![1, 2]), Value::IntList(vec![1, 3]));
    assert_ne!(Value::IntList(vec![1, 2]), Value::IntList(vec![1, 2, 3]));
    assert_eq!(
        Value::StringList(vec!["a".to_string(), "b".to_string()]),
        Value::StringList(vec!["a".to_string(), "b".to_string()])
    );
    assert_ne!(
        Value::StringList(vec!["a".to_string(), "b".to_string()]),
        Value::StringList(vec!["a".to_string(), "c".to_string()])
    );
    assert_ne!(
        Value::StringList(vec!["a".to_string()]),
        Value::StringList(vec!["a".to_string(), "a".to_string()])
    );
}

#[test]
fn values_of_different_variants_differ() {
    assert_ne!(Value::Int(1), Value::IntList(vec![1]));
    assert_ne!(Value::Int(1), Value::Float(1.0f32.to_bits()));
    assert_ne!(Value::String("1".to_string()), Value::Int(1));
    assert_ne!(Value::IntList(vec![]), Value::FloatList(vec![]));
}

#[test]
fn floats_compare_as_numbers() {
    assert_eq!(Value::Float(0.0f32.to_bits()), Value::Float((-0.0f32).to_bits()));
    assert_ne!(Value::Float(f32::NAN.to_bits()), Value::Float(f32::NAN.to_bits()));
    assert_eq!(
        Value::FloatList(vec![1.5f32.to_bits(), 0.0f32.to_bits()]),
        Value::FloatList(vec![1.5f32.to_bits(), (-0.0f32).to_bits()])
    );
    assert_ne!(
        Value::FloatList(vec![f32::NAN.to_bits()]),
        Value::FloatList(vec![f32::NAN.to_bits()])
    );
    assert_ne!(Value::FloatList(vec![0]), Value::FloatList(vec![0, 0]));
}

#[test]
fn a_clone_equals_its_source() {
    let values = vec![
        Value::Int(5),
        Value::Float(2.5f32.to_bits()),
        Value::String("text".to_string()),
        Value::IntList(vec![1, 2, 3]),
        Value::FloatList(vec![1.0f32.to_bits()]),
        Value::StringList(vec!["a".to_string(), "b".to_string()]),
    ];
    for value in &values {
        assert_eq!(&value.clone(), value);
    }
}

#[test]
fn kinds_of_values() {
    assert_eq!(Value::Int(1).kind(), ValueKind::Int);
    assert_eq!(Value::IntList(vec![]).kind(), ValueKind::Int);
    assert_eq!(Value::Float(0).kind(), ValueKind::Float);
    assert_eq!(Value::FloatList(vec![]).kind(), ValueKind::Float);
    assert_eq!(Value::String(String::new()).kind(), ValueKind::String);
    assert_eq!(Value::StringList(vec![]).kind(), ValueKind::String);
    assert!(!Value::Int(1).is_list());
    assert!(Value::IntList(vec![1]).is_list());
    assert!(Value::FloatList(vec![]).is_list());
    assert!(Value::StringList(vec![]).is_list());
    assert!(!Value::String(String::new()).is_list());
}

#[test]
fn value_kind_tags() {
    assert_eq!(ValueKind::Int.tag(), 1);
    assert_eq!(ValueKind::Float.tag(), 2);
    assert_eq!(ValueKind::String.tag(), 3);
    assert_eq!(ValueKind::from_tag(1), Some(ValueKind::Int));
    assert_eq!(ValueKind::from_tag(2), Some(ValueKind::Float));
    assert_eq!(ValueKind::from_tag(3), Some(ValueKind::String));
    assert_eq!(ValueKind::from_tag(0), None);
    assert_eq!(ValueKind::from_tag(4), None);
    let tag: u8 = ValueKind::Float.into();
    assert_eq!(tag, 2);
    assert_eq!(u8::from(ValueKind::String), 3);
}
