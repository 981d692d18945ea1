use dom_cloner::keys::{compare_keys, KeyOrder};
use dom_cloner::properties::Properties;
use dom_cloner::value::{
    is_unique_id_key, restamp, sanitize, GenerationError, UniqueStamp, Value, NO_REFERENCE,
};
use rbx_types::Variant;

fn order_of_str(a: &str, b: &str) -> KeyOrder {
    if a < b {
        KeyOrder::Before
    } else if a == b {
        KeyOrder::Same
    } else {
        KeyOrder::After
    }
}

#[test]
fn keys_compare_as_strings_do() {
    let keys = ["", "A", "Anchored", "Anchor", "UniqueId", "Uniqueid", "a", "ab", "b", "é", "z", "日本", "😀", "\u{7f}", "\u{80}"];
    for a in keys {
        for b in keys {
            assert_eq!(compare_keys(a, b), order_of_str(a, b), "{:?} against {:?}", a, b);
        }
    }
}

#[test]
fn keys_compare_exact() {
    assert_eq!(compare_keys("a", "b"), KeyOrder::Before);
    assert_eq!(compare_keys("b", "a"), KeyOrder::After);
    assert_eq!(compare_keys("a", "a"), KeyOrder::Same);
    assert_eq!(compare_keys("a", "ab"), KeyOrder::Before);
    assert_eq!(compare_keys("Z", "a"), KeyOrder::Before);
    assert_eq!(compare_keys("", ""), KeyOrder::Same);
}

#[test]
fn reserved_key_is_recognised() {
    assert!(is_unique_id_key("UniqueId"));
    assert!(!is_unique_id_key("uniqueid"));
    assert!(!is_unique_id_key("UniqueId "));
    assert!(!is_unique_id_key(""));
}

#[test]
fn sanitize_resets_references() {
    assert_eq!(sanitize("Target", &Value::Reference(12)), Value::Reference(NO_REFERENCE));
    assert_eq!(sanitize("Target", &Value::Reference(u128::MAX)), Value::Reference(NO_REFERENCE));
    assert_eq!(sanitize("Target", &Value::Reference(0)), Value::Reference(0));
}

#[test]
fn sanitize_keeps_everything_else() {
    let values = vec![
        Value::Other(Variant::String("x".to_string())),
        Value::Other(Variant::Bool(true)),
        Value::Other(Variant::Int64(i64::MIN)),
        Value::Other(Variant::Float64(0.25)),
        Value::UniqueId(UniqueStamp { index: 1, time: 2, random: 3 }),
    ];
    for value in &values {
        assert_eq!(&sanitize("Any", value), value);
    }
}

#[test]
fn duplicate_is_equal() {
    let value = Value::Other(Variant::String("payload".to_string()));
    assert_eq!(value.duplicate(), value);
    assert_eq!(Value::Reference(5).duplicate(), Value::Reference(5));
    let stamp = Value::UniqueId(UniqueStamp { index: 4, time: 5, random: -6 });
    assert_eq!(stamp.duplicate(), stamp);
}

#[test]
fn restamp_takes_a_new_stamp() {
    let old = Value::UniqueId(UniqueStamp { index: 1, time: 2, random: 3 });
    for new in [
        UniqueStamp { index: 2, time: 2, random: 3 },
        UniqueStamp { index: 1, time: 3, random: 3 },
        UniqueStamp { index: 1, time: 2, random: 4 },
    ] {
        assert_eq!(restamp(&old, Ok(new)), Some(Value::UniqueId(new)));
    }
}

#[test]
fn restamp_refuses_the_old_stamp() {
    let stamp = UniqueStamp { index: 1, time: 2, random: 3 };
    assert_eq!(restamp(&Value::UniqueId(stamp), Ok(stamp)), None);
}

#[test]
fn restamp_gives_nothing_on_failure() {
    let old = Value::UniqueId(UniqueStamp { index: 1, time: 2, random: 3 });
    assert_eq!(restamp(&old, Err(GenerationError)), None);
    assert_eq!(restamp(&Value::Reference(1), Err(GenerationError)), None);
}

#[test]
fn restamp_replaces_what_is_no_stamp() {
    let new = UniqueStamp { index: 0, time: 0, random: 0 };
    assert_eq!(restamp(&Value::Reference(0), Ok(new)), Some(Value::UniqueId(new)));
    assert_eq!(
        restamp(&Value::Other(Variant::String("id".to_string())), Ok(new)),
        Some(Value::UniqueId(new))
    );
}

#[test]
fn properties_start_empty() {
    let properties = Properties::new();
    assert_eq!(properties.len(), 0);
    assert!(!properties.contains_key("Name"));
    assert_eq!(properties.get("Name"), None);
}

#[test]
fn properties_are_kept_in_key_order() {
    let mut properties = Properties::new();
    for key in ["delta", "Alpha", "charlie", "Bravo", "alpha", ""] {
        properties.insert(key.to_string(), Value::Other(Variant::String(key.to_uppercase())));
    }
    let keys: Vec<&str> = (0..properties.len()).map(|i| properties.key(i)).collect();
    assert_eq!(keys, vec!["", "Alpha", "Bravo", "alpha", "charlie", "delta"]);
    assert_eq!(properties.value(1), &Value::Other(Variant::String("ALPHA".to_string())));
    assert_eq!(properties.value(5), &Value::Other(Variant::String("DELTA".to_string())));
}

#[test]
fn properties_replace_under_the_same_key() {
    let mut properties = Properties::new();
    properties.insert("Size".to_string(), Value::Other(Variant::Int32(1)));
    properties.insert("Colour".to_string(), Value::Other(Variant::Int32(2)));
    properties.insert("Size".to_string(), Value::Other(Variant::Int32(3)));
    assert_eq!(properties.len(), 2);
    assert_eq!(properties.get("Size"), Some(&Value::Other(Variant::Int32(3))));
    assert_eq!(properties.get("Colour"), Some(&Value::Other(Variant::Int32(2))));
    assert!(properties.contains_key("Size"));
    assert!(!properties.contains_key("size"));
    assert_eq!(properties.get("Siz"), None);
    assert_eq!(properties.get("Sizes"), None);
}
