use delta_backend::delta::{apply_delta, build_cfg_from_base_and_delta, calculate_delta};
use delta_backend::error::ConfigError;
use delta_backend::fingerprint::{calculate_cfg_hash, digest_keys, generate_keys};
use delta_backend::value::{ConfigValue, Object};

fn object(members: Vec<(&str, ConfigValue)>) -> ConfigValue {
    let mut object = Object::new();
    for (name, value) in members {
        object.insert(name.to_string(), value);
    }
    ConfigValue::Object(object)
}

fn num(n: i128) -> ConfigValue {
    ConfigValue::Int(n)
}

fn text(s: &str) -> ConfigValue {
    ConfigValue::Text(s.to_string())
}

/// `{"test": {"really": {"super": a}, "deep": b}}`
fn sample(a: i128, b: i128) -> ConfigValue {
    object(vec![(
        "test",
        object(vec![("really", object(vec![("super", num(a))])), ("deep", num(b))]),
    )])
}

/// `{"test": {"really": {"super": a, "duper": 0}, "deep": b}}`
fn wide_sample(a: i128, b: i128) -> ConfigValue {
    object(vec![(
        "test",
        object(vec![
            ("really", object(vec![("super", num(a)), ("duper", num(0))])),
            ("deep", num(b)),
        ]),
    )])
}

#[test]
fn test_hash_value_invariant() {
    let json = sample(0, 0);
    let json_2 = sample(1, 1);
    let hash = calculate_cfg_hash(&json).unwrap();
    let hash_2 = calculate_cfg_hash(&json_2).unwrap();
    assert_eq!(hash, hash_2);
}

#[test]
fn test_hash_differs_on_key() {
    let json = sample(0, 0);
    let json_2 = object(vec![(
        "test",
        object(vec![("really", object(vec![("super", num(0))])), ("deeper", num(0))]),
    )]);
    let hash = calculate_cfg_hash(&json).unwrap();
    let hash_2 = calculate_cfg_hash(&json_2).unwrap();
    assert_ne!(hash, hash_2);
}

#[test]
fn test_hash_fail_on_leaf() {
    let json = text("string");
    assert!(calculate_cfg_hash(&json).is_err());
}

#[test]
fn test_calculate_delta() {
    let json = sample(0, 0);
    let json_2 = sample(1, 1);
    assert!(calculate_delta(&json, &json_2).unwrap().is_some())
}

#[test]
fn test_calculate_delta_none() {
    let json = sample(0, 0);
    assert!(calculate_delta(&json, &json).unwrap().is_none())
}

#[test]
fn test_calculate_delta_structure() {
    let json = sample(0, 0);
    let json_2 = sample(1, 1);
    assert_eq!(calculate_delta(&json, &json_2).unwrap().unwrap(), json_2)
}

#[test]
fn test_calculate_delta_structure_drops_consistent_keys() {
    let json = wide_sample(0, 0);
    let json_2 = wide_sample(1, 1);
    let delta = sample(1, 1);
    assert_eq!(calculate_delta(&json, &json_2).unwrap().unwrap(), delta);
}

#[test]
fn test_delta_reconstruction() {
    let json = wide_sample(0, 0);
    let json_2 = wide_sample(1, 1);
    let delta = calculate_delta(&json, &json_2).unwrap().unwrap();
    assert_eq!(json_2, build_cfg_from_base_and_delta(json, delta))
}

#[test]
fn hash_rejects_every_root_that_is_no_object() {
    let roots = vec![
        ConfigValue::Null,
        ConfigValue::Bool(true),
        num(3),
        ConfigValue::Real(1.5f64.to_bits()),
        text("leaf"),
        ConfigValue::Array(vec![sample(0, 0)]),
    ];
    for root in roots {
        assert_eq!(calculate_cfg_hash(&root), Err(ConfigError::ShapeError));
    }
}

#[test]
fn hash_ignores_scalars_and_arrays() {
    let a = object(vec![
        ("list", ConfigValue::Array(vec![num(1), num(2)])),
        ("name", text("a")),
        ("on", ConfigValue::Bool(true)),
    ]);
    let b = object(vec![
        ("list", ConfigValue::Array(vec![object(vec![("inner", num(1))])])),
        ("name", ConfigValue::Null),
        ("on", ConfigValue::Real(0.25f64.to_bits())),
    ]);
    assert_eq!(calculate_cfg_hash(&a), calculate_cfg_hash(&b));
}

#[test]
fn hash_does_not_depend_on_the_order_of_insertion() {
    let a = object(vec![("a", num(1)), ("b", num(2)), ("c", num(3))]);
    let b = object(vec![("c", num(3)), ("a", num(1)), ("b", num(2))]);
    assert_eq!(a, b);
    assert_eq!(calculate_cfg_hash(&a), calculate_cfg_hash(&b));
}

#[test]
fn hash_tells_names_apart_that_share_their_letters() {
    let a = object(vec![("ab", num(1)), ("c", num(1))]);
    let b = object(vec![("a", num(1)), ("bc", num(1))]);
    assert_ne!(calculate_cfg_hash(&a).unwrap(), calculate_cfg_hash(&b).unwrap());
}

#[test]
fn hash_of_the_empty_object_is_that_of_no_names() {
    let empty = ConfigValue::Object(Object::new());
    assert_eq!(calculate_cfg_hash(&empty).unwrap(), digest_keys(&Vec::new()));
}

#[test]
fn generate_keys_walks_depth_first_in_the_order_of_the_names() {
    let cfg = object(vec![
        ("b", object(vec![("z", num(0)), ("y", object(vec![("k", num(0))]))])),
        ("a", num(0)),
        ("c", ConfigValue::Array(vec![object(vec![("hidden", num(0))])])),
    ]);
    let ConfigValue::Object(members) = &cfg else {
        panic!("an object was built");
    };
    let keys = generate_keys(members, vec!["first".to_string()]);
    assert_eq!(keys, vec!["first", "a", "b", "y", "k", "z", "c"]);
    let fresh = generate_keys(members, Vec::new());
    assert_eq!(calculate_cfg_hash(&cfg).unwrap(), digest_keys(&fresh));
}

#[test]
fn nesting_that_flattens_to_the_same_names_shares_a_fingerprint() {
    let nested = object(vec![("a", object(vec![("b", num(1))]))]);
    let flat = object(vec![("a", num(1)), ("b", num(1))]);
    assert_eq!(calculate_cfg_hash(&nested), calculate_cfg_hash(&flat));
}

#[test]
fn delta_holds_the_changed_leaves_only() {
    let base = object(vec![
        ("keep", num(1)),
        ("list", ConfigValue::Array(vec![num(1), num(2)])),
        ("nest", object(vec![("same", text("x")), ("turn", ConfigValue::Bool(false))])),
        ("quiet", object(vec![("still", num(7))])),
    ]);
    let other = object(vec![
        ("keep", num(1)),
        ("list", ConfigValue::Array(vec![num(1), num(3)])),
        ("nest", object(vec![("same", text("x")), ("turn", ConfigValue::Bool(true))])),
        ("quiet", object(vec![("still", num(7))])),
    ]);
    let expected = object(vec![
        ("list", ConfigValue::Array(vec![num(1), num(3)])),
        ("nest", object(vec![("turn", ConfigValue::Bool(true))])),
    ]);
    assert_eq!(calculate_delta(&base, &other), Ok(Some(expected)));
}

#[test]
fn delta_of_two_roots_that_are_no_objects_is_none() {
    assert_eq!(calculate_delta(&num(1), &num(2)), Ok(None));
    assert_eq!(calculate_delta(&text("a"), &ConfigValue::Null), Ok(None));
}

#[test]
fn delta_refuses_different_fingerprints() {
    let base = object(vec![("a", num(1))]);
    let other = object(vec![("b", num(1))]);
    assert_eq!(calculate_delta(&base, &other), Err(ConfigError::ShapeMismatch));
    assert_eq!(calculate_delta(&base, &num(1)), Err(ConfigError::ShapeMismatch));
    assert_eq!(calculate_delta(&num(1), &base), Err(ConfigError::ShapeMismatch));
}

#[test]
fn delta_refuses_a_missing_member_under_equal_fingerprints() {
    let base = object(vec![("a", num(1)), ("b", object(vec![("c", num(1))]))]);
    let other = object(vec![("a", object(vec![("b", num(1))])), ("c", num(1))]);
    assert_eq!(calculate_cfg_hash(&base), calculate_cfg_hash(&other));
    assert_eq!(calculate_delta(&base, &other), Err(ConfigError::ShapeMismatch));
}

#[test]
fn delta_refuses_nested_objects_of_different_fingerprints() {
    let base = object(vec![("a", object(vec![("b", num(1))])), ("c", object(vec![]))]);
    let other = object(vec![("a", object(vec![])), ("b", num(1)), ("c", object(vec![]))]);
    assert_eq!(calculate_cfg_hash(&base), calculate_cfg_hash(&other));
    assert_eq!(calculate_delta(&base, &other), Err(ConfigError::ShapeMismatch));
}

#[test]
fn delta_replaces_an_object_by_a_scalar_in_full() {
    let base = object(vec![("a", object(vec![("b", num(1))]))]);
    let other = object(vec![("a", num(1)), ("b", num(1))]);
    let delta = calculate_delta(&base, &other).unwrap().unwrap();
    assert_eq!(delta, object(vec![("a", num(1))]));
    assert_eq!(apply_delta(&base, &delta), object(vec![("a", num(1))]));
}

#[test]
fn patch_with_null_returns_the_base() {
    let base = sample(0, 0);
    assert_eq!(build_cfg_from_base_and_delta(base.clone(), ConfigValue::Null), base);
    assert_eq!(build_cfg_from_base_and_delta(num(4), ConfigValue::Null), num(4));
}

#[test]
fn patch_with_a_scalar_or_an_array_replaces_the_base() {
    let base = sample(0, 0);
    assert_eq!(build_cfg_from_base_and_delta(base.clone(), num(9)), num(9));
    let list = ConfigValue::Array(vec![num(1)]);
    assert_eq!(build_cfg_from_base_and_delta(base, list.clone()), list);
    assert_eq!(build_cfg_from_base_and_delta(num(1), sample(0, 0)), sample(0, 0));
}

#[test]
fn patch_ignores_members_that_the_base_lacks() {
    let base = object(vec![("a", num(1)), ("b", num(2))]);
    let delta = object(vec![("b", num(5)), ("extra", num(9))]);
    let merged = build_cfg_from_base_and_delta(base, delta);
    assert_eq!(merged, object(vec![("a", num(1)), ("b", num(5))]));
}

#[test]
fn patch_does_not_restore_a_leaf_that_became_null() {
    let base = object(vec![("a", num(1))]);
    let other = object(vec![("a", ConfigValue::Null)]);
    let delta = calculate_delta(&base, &other).unwrap().unwrap();
    assert_eq!(delta, other);
    assert_eq!(apply_delta(&base, &delta), base);
}

#[test]
fn round_trip_restores_the_other_configuration() {
    let base = object(vec![
        ("a", ConfigValue::Null),
        ("b", object(vec![("c", text("x")), ("d", ConfigValue::Array(vec![]))])),
        ("e", ConfigValue::Real(2.5f64.to_bits())),
    ]);
    let other = object(vec![
        ("a", ConfigValue::Null),
        ("b", object(vec![("c", text("y")), ("d", ConfigValue::Array(vec![num(1)]))])),
        ("e", ConfigValue::Real(2.5f64.to_bits())),
    ]);
    let delta = calculate_delta(&base, &other).unwrap().unwrap_or(ConfigValue::Null);
    assert_eq!(apply_delta(&base, &delta), other);
    let none = calculate_delta(&other, &other).unwrap().unwrap_or(ConfigValue::Null);
    assert_eq!(none, ConfigValue::Null);
    assert_eq!(apply_delta(&other, &none), other);
}

#[test]
fn a_zero_that_changes_its_sign_is_no_change() {
    let base = object(vec![("x", ConfigValue::Real(0.0f64.to_bits()))]);
    let other = object(vec![("x", ConfigValue::Real((-0.0f64).to_bits()))]);
    assert_eq!(calculate_delta(&base, &other), Ok(None));
}

#[test]
fn configurations_of_one_layout_are_accepted() {
    let base = object(vec![
        ("a", num(1)),
        ("b", object(vec![("c", ConfigValue::Null), ("d", object(vec![]))])),
    ]);
    let other = object(vec![
        ("a", ConfigValue::Null),
        ("b", object(vec![("c", text("x")), ("d", object(vec![]))])),
    ]);
    assert!(calculate_delta(&base, &other).is_ok());
    assert!(calculate_delta(&other, &base).is_ok());
}
