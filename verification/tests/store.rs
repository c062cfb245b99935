use delta_backend::error::ConfigError;
use delta_backend::fingerprint::calculate_cfg_hash;
use delta_backend::store::{BaseConfig, Delta, Store};
use delta_backend::value::{ConfigValue, Object};

fn object(members: Vec<(&str, ConfigValue)>) -> ConfigValue {
    let mut object = Object::new();
    for (name, value) in members {
        object.insert(name.to_string(), value);
    }
    ConfigValue::Object(object)
}

fn num(n: i128) -> ConfigValue {
    ConfigValue::Int(n)
}

/// `{root: {"really": {"super": a, "duper": 0}, "deep": b}}`
fn wide_sample(root: &str, a: i128, b: i128) -> ConfigValue {
    object(vec![(
        root,
        object(vec![
            ("really", object(vec![("super", num(a)), ("duper", num(0))])),
            ("deep", num(b)),
        ]),
    )])
}

fn mock_db() -> Store {
    Store::new()
}

#[test]
fn test_add() {
    let mut s = mock_db();
    let json = object(vec![("test", num(200))]);
    s.add_base_config("Test", json).unwrap();
}

#[test]
fn test_add_get() {
    let mut s = mock_db();
    let json = object(vec![("test", num(200))]);
    s.add_base_config("Test", json.clone()).unwrap();
    let cfg = s.get_base_config("Test", None).unwrap();
    assert_eq!(cfg, json)
}

#[test]
fn test_add_multi() {
    let mut s = mock_db();
    let mut c: i64 = -1;
    let mut id = 0;
    for i in 0..10 {
        let json = object(vec![(format!("test{}", i).as_str(), num(200))]);
        c = s.add_base_config("test", json.clone()).unwrap();
        id = i;
    }
    assert_eq!(c, id);
}

#[test]
fn test_insert_read() {
    let mut db = mock_db();
    let json = wide_sample("test", 0, 0);
    db.add_config("test_ins", json.clone()).unwrap();
    let json_out = db.get_latest_config("test_ins", None).unwrap();
    assert_eq!(json, json_out);
}

#[test]
fn test_insert_read_version() {
    let mut db = mock_db();
    let json = wide_sample("test", 0, 0);
    let json_2 = wide_sample("tester", 0, 0);
    db.add_config("test_ins", json.clone()).unwrap();
    db.add_config("test_ins", json_2.clone()).unwrap();
    let json_out = db.get_latest_config("test_ins", Some(1)).unwrap();
    assert_eq!(json_2, json_out);
}

#[test]
fn test_read_from_delta() {
    let mut db = mock_db();
    let json = wide_sample("test", 0, 0);
    let json_2 = wide_sample("test", 1, 1);
    db.add_config("test_ins", json.clone()).unwrap();
    db.add_config("test_ins", json_2.clone()).unwrap();
    let json_out = db.get_latest_config("test_ins", None).unwrap();
    assert_eq!(json_2, json_out);
}

#[test]
fn test_read_all() {
    let mut db = mock_db();
    let json = wide_sample("test", 0, 0);
    let json_2 = wide_sample("tester", 1, 1);
    db.add_config("test_ins", json.clone()).unwrap();
    db.add_config("test_ins", json_2.clone()).unwrap();
    let cfgs = db.get_base_configs().unwrap();
    assert_eq!(cfgs, vec![("test_ins".to_string(), 1)]);
}

#[test]
fn version_bump() {
    let mut store = Store::new();
    let first = object(vec![("a", num(1))]);
    let h1 = calculate_cfg_hash(&first).unwrap();
    store.add_config("x", first.clone()).unwrap();
    assert_eq!(store.get_base_config("x", Some(0)), Ok(first.clone()));
    assert_eq!(store.get_base_config_hash("x", Some(0)), Ok(h1));
    assert_eq!(store.get_all_deltas("x", None), Ok(vec![(1, ConfigValue::Null)]));

    let second = object(vec![("a", num(2))]);
    store.add_config("x", second.clone()).unwrap();
    assert_eq!(
        store.get_all_deltas("x", Some(0)),
        Ok(vec![(1, ConfigValue::Null), (2, second.clone())])
    );
    assert_eq!(store.get_latest_config("x", None), Ok(second.clone()));
    assert_eq!(store.get_base_config("x", None), Ok(first.clone()));

    let third = object(vec![("a", num(1)), ("b", num(1))]);
    let h2 = calculate_cfg_hash(&third).unwrap();
    assert_ne!(h1, h2);
    store.add_config("x", third.clone()).unwrap();
    assert_eq!(store.get_base_config("x", Some(1)), Ok(third.clone()));
    assert_eq!(store.get_base_config("x", None), Ok(third.clone()));
    assert_eq!(store.get_base_config_hash("x", None), Ok(h2));
    assert_eq!(store.get_base_configs(), Ok(vec![("x".to_string(), 1)]));
    assert_eq!(store.get_latest_config("x", Some(0)), Ok(second));
    assert_eq!(store.get_latest_config("x", Some(1)), Ok(third));
}

#[test]
fn cross_name_sharing() {
    let mut store = Store::new();
    let x = object(vec![("a", num(1))]);
    let y = object(vec![("a", num(5))]);
    assert_eq!(calculate_cfg_hash(&x), calculate_cfg_hash(&y));
    store.add_config("x", x.clone()).unwrap();
    store.add_config("y", y.clone()).unwrap();
    let shared = calculate_cfg_hash(&y).unwrap();
    assert_eq!(store.base_count(), 1);
    assert_eq!(store.get_base_configs(), Ok(vec![("x".to_string(), 0)]));
    assert_eq!(store.get_base_config_by_hash(shared), Ok(Some(x.clone())));
    assert_ne!(store.get_base_config_by_hash(shared), Ok(Some(y.clone())));
    assert_eq!(store.get_base_config("y", Some(0)), Err(ConfigError::NotFound));
    assert_eq!(store.get_base_config("y", None), Err(ConfigError::NotFound));
    assert_eq!(store.get_base_config("x", Some(0)), Ok(x.clone()));
    assert_eq!(store.get_all_deltas("x", None), Ok(vec![(1, ConfigValue::Null), (2, y.clone())]));
    assert_eq!(store.get_latest_config("x", None), Ok(y.clone()));
    assert_eq!(store.get_latest_config("y", None), Err(ConfigError::NotFound));
    assert_eq!(store.get_delta(2), Ok(y));
    assert_eq!(store.get_delta(1), Ok(x));
}

#[test]
fn unknown_lookup() {
    let store = Store::new();
    assert_eq!(store.get_delta(9999), Err(ConfigError::NotFound));
    assert_eq!(store.get_delta(0), Err(ConfigError::NotFound));
    assert_eq!(store.get_delta(-1), Err(ConfigError::NotFound));
    assert_eq!(store.get_delta(1), Err(ConfigError::NotFound));
    assert_eq!(store.get_base_config("x", None), Err(ConfigError::NotFound));
    assert_eq!(store.get_base_config("x", Some(0)), Err(ConfigError::NotFound));
    assert_eq!(store.get_base_config_hash("x", None), Err(ConfigError::NotFound));
    assert_eq!(store.get_all_deltas("x", None), Err(ConfigError::NotFound));
    assert_eq!(store.get_latest_config("x", None), Err(ConfigError::NotFound));
    assert_eq!(store.get_base_config_by_hash(7), Ok(None));
    assert_eq!(store.get_base_configs(), Ok(Vec::new()));
}

#[test]
fn unknown_version_of_a_known_name() {
    let mut store = Store::new();
    store.add_config("x", object(vec![("a", num(1))])).unwrap();
    assert_eq!(store.get_base_config("x", Some(1)), Err(ConfigError::NotFound));
    assert_eq!(store.get_base_config("x", Some(-1)), Err(ConfigError::NotFound));
    assert_eq!(store.get_base_config_hash("x", Some(3)), Err(ConfigError::NotFound));
    assert_eq!(store.get_all_deltas("x", Some(1)), Err(ConfigError::NotFound));
    assert_eq!(store.get_all_deltas("x", Some(u64::MAX)), Err(ConfigError::NotFound));
    assert_eq!(store.get_latest_config("x", Some(1)), Err(ConfigError::NotFound));
    assert_eq!(store.get_delta(2), Err(ConfigError::NotFound));
}

#[test]
fn add_rejects_a_root_that_is_no_object() {
    let mut store = Store::new();
    assert_eq!(store.add_config("x", num(1)), Err(ConfigError::ShapeError));
    assert_eq!(
        store.add_config("x", ConfigValue::Array(vec![object(vec![("a", num(1))])])),
        Err(ConfigError::ShapeError)
    );
    assert_eq!(store.add_base_config("x", ConfigValue::Null), Err(ConfigError::ShapeError));
    assert_eq!(store.get_base_configs(), Ok(Vec::new()));
    assert_eq!(store.get_delta(1), Err(ConfigError::NotFound));
}

#[test]
fn add_of_an_equal_configuration_stores_nothing() {
    let mut store = Store::new();
    let cfg = object(vec![("a", num(1)), ("b", object(vec![("c", num(2))]))]);
    store.add_config("x", cfg.clone()).unwrap();
    store.add_config("x", cfg.clone()).unwrap();
    store.add_config("other", cfg.clone()).unwrap();
    assert_eq!(store.get_all_deltas("x", None), Ok(vec![(1, ConfigValue::Null)]));
    assert_eq!(store.get_delta(2), Err(ConfigError::NotFound));
    assert_eq!(store.get_base_configs(), Ok(vec![("x".to_string(), 0)]));
}

#[test]
fn add_reports_a_mismatch_under_equal_fingerprints_and_stores_nothing() {
    let mut store = Store::new();
    let base = object(vec![("a", num(1)), ("b", object(vec![("c", num(1))]))]);
    let other = object(vec![("a", object(vec![("b", num(1))])), ("c", num(1))]);
    store.add_config("x", base.clone()).unwrap();
    assert_eq!(store.add_config("x", other), Err(ConfigError::ShapeMismatch));
    assert_eq!(store.get_all_deltas("x", None), Ok(vec![(1, ConfigValue::Null)]));
    assert_eq!(store.get_latest_config("x", None), Ok(base));
}

#[test]
fn add_base_config_refuses_a_fingerprint_that_is_stored() {
    let mut store = Store::new();
    assert_eq!(store.add_base_config("x", object(vec![("a", num(1))])), Ok(0));
    assert_eq!(
        store.add_base_config("y", object(vec![("a", num(2))])),
        Err(ConfigError::StorageError)
    );
    assert_eq!(store.add_base_config("y", object(vec![("b", num(2))])), Ok(0));
    assert_eq!(store.add_base_config("x", object(vec![("c", num(2))])), Ok(1));
    assert_eq!(
        store.get_base_configs(),
        Ok(vec![("x".to_string(), 1), ("y".to_string(), 0)])
    );
}

#[test]
fn versions_count_the_layouts_seen_under_a_name() {
    let mut store = Store::new();
    store.add_config("x", object(vec![("a", num(1))])).unwrap();
    store.add_config("y", object(vec![("b", num(1))])).unwrap();
    store.add_config("x", object(vec![("c", num(1))])).unwrap();
    store.add_config("x", object(vec![("a", num(9))])).unwrap();
    store.add_config("y", object(vec![("d", num(1))])).unwrap();
    store.add_config("x", object(vec![("e", num(1))])).unwrap();
    assert_eq!(
        store.get_base_configs(),
        Ok(vec![("x".to_string(), 2), ("y".to_string(), 1)])
    );
    assert_eq!(store.get_base_config("x", Some(1)), Ok(object(vec![("c", num(1))])));
    assert_eq!(store.get_base_config("x", None), Ok(object(vec![("e", num(1))])));
    assert_eq!(store.get_base_config("y", Some(0)), Ok(object(vec![("b", num(1))])));
    assert_eq!(store.get_base_config("y", None), Ok(object(vec![("d", num(1))])));
    assert_eq!(store.get_latest_config("x", Some(0)), Ok(object(vec![("a", num(9))])));
}

#[test]
fn deltas_are_numbered_from_one_over_all_bases() {
    let mut store = Store::new();
    let a1 = object(vec![("a", num(1))]);
    let b1 = object(vec![("b", num(1))]);
    let a2 = object(vec![("a", num(2))]);
    let b2 = object(vec![("b", num(2))]);
    let a3 = object(vec![("a", num(3))]);
    store.add_config("x", a1.clone()).unwrap();
    store.add_config("y", b1.clone()).unwrap();
    store.add_config("x", a2.clone()).unwrap();
    store.add_config("y", b2.clone()).unwrap();
    store.add_config("x", a3.clone()).unwrap();
    assert_eq!(
        store.get_all_deltas("x", None),
        Ok(vec![(1, ConfigValue::Null), (3, a2.clone()), (5, a3.clone())])
    );
    assert_eq!(
        store.get_all_deltas("y", Some(0)),
        Ok(vec![(2, ConfigValue::Null), (4, b2.clone())])
    );
    assert_eq!(store.get_delta(1), Ok(a1));
    assert_eq!(store.get_delta(2), Ok(b1));
    assert_eq!(store.get_delta(3), Ok(a2));
    assert_eq!(store.get_delta(4), Ok(b2));
    assert_eq!(store.get_delta(5), Ok(a3.clone()));
    assert_eq!(store.get_delta(6), Err(ConfigError::NotFound));
    assert_eq!(store.get_latest_config("x", None), Ok(a3));
}

#[test]
fn base_is_found_by_its_fingerprint() {
    let mut store = Store::new();
    let cfg = object(vec![("a", num(1))]);
    let hash = calculate_cfg_hash(&cfg).unwrap();
    store.add_config("x", cfg.clone()).unwrap();
    store.add_config("x", object(vec![("a", num(2))])).unwrap();
    assert_eq!(store.get_base_config_by_hash(hash), Ok(Some(cfg)));
    assert_eq!(store.get_base_config_by_hash(hash.wrapping_add(1)), Ok(None));
}

fn rows_of_two_bases() -> (Vec<BaseConfig>, Vec<Delta>) {
    let a = object(vec![("a", num(1))]);
    let b = object(vec![("b", num(1))]);
    let ha = calculate_cfg_hash(&a).unwrap();
    let hb = calculate_cfg_hash(&b).unwrap();
    let bases = vec![
        BaseConfig { name: "x".to_string(), version: 0, value: a, fingerprint: ha },
        BaseConfig { name: "x".to_string(), version: 1, value: b, fingerprint: hb },
    ];
    let deltas = vec![
        Delta { id: 1, fingerprint: ha, value: ConfigValue::Null },
        Delta { id: 2, fingerprint: ha, value: object(vec![("a", num(2))]) },
        Delta { id: 3, fingerprint: hb, value: ConfigValue::Null },
    ];
    (bases, deltas)
}

#[test]
fn restore_takes_the_rows_of_a_store() {
    let (bases, deltas) = rows_of_two_bases();
    let store = Store::restore(bases, deltas).unwrap();
    assert_eq!(store.base_count(), 2);
    assert_eq!(store.delta_count(), 3);
    assert_eq!(store.base(1).name, "x");
    assert_eq!(store.base(1).version, 1);
    assert_eq!(store.delta(1).id, 2);
    assert_eq!(store.delta(1).value, object(vec![("a", num(2))]));
    assert_eq!(store.get_base_configs(), Ok(vec![("x".to_string(), 1)]));
    assert_eq!(store.get_latest_config("x", Some(0)), Ok(object(vec![("a", num(2))])));
    assert_eq!(Store::restore(Vec::new(), Vec::new()).unwrap().base_count(), 0);
}

#[test]
fn restore_gives_back_what_a_store_holds() {
    let mut store = Store::new();
    store.add_config("x", object(vec![("a", num(1))])).unwrap();
    store.add_config("y", object(vec![("a", num(2))])).unwrap();
    store.add_config("y", object(vec![("b", num(2))])).unwrap();
    let mut bases = Vec::new();
    for i in 0..store.base_count() {
        let base = store.base(i);
        bases.push(BaseConfig {
            name: base.name.clone(),
            version: base.version,
            value: base.value.clone(),
            fingerprint: base.fingerprint,
        });
    }
    let mut deltas = Vec::new();
    for d in 0..store.delta_count() {
        let delta = store.delta(d);
        deltas.push(Delta {
            id: delta.id,
            fingerprint: delta.fingerprint,
            value: delta.value.clone(),
        });
    }
    let restored = Store::restore(bases, deltas).unwrap();
    assert_eq!(restored.get_base_configs(), store.get_base_configs());
    assert_eq!(restored.get_all_deltas("x", None), store.get_all_deltas("x", None));
    assert_eq!(restored.get_all_deltas("y", None), store.get_all_deltas("y", None));
    assert_eq!(restored.get_delta(2), Ok(object(vec![("a", num(2))])));
}

#[test]
fn restore_refuses_rows_that_do_not_belong_together() {
    let refused = |bases: Vec<BaseConfig>, deltas: Vec<Delta>| match Store::restore(bases, deltas) {
        Ok(_) => None,
        Err(e) => Some(e),
    };
    let (mut bases, deltas) = rows_of_two_bases();
    bases[0].fingerprint = bases[0].fingerprint.wrapping_add(1);
    assert_eq!(refused(bases, deltas), Some(ConfigError::StorageError));

    let (mut bases, deltas) = rows_of_two_bases();
    bases[1].version = 0;
    assert_eq!(refused(bases, deltas), Some(ConfigError::StorageError));

    let (mut bases, deltas) = rows_of_two_bases();
    bases[0].value = num(1);
    assert_eq!(refused(bases, deltas), Some(ConfigError::StorageError));

    let (mut bases, deltas) = rows_of_two_bases();
    bases[1].name = "y".to_string();
    assert_eq!(refused(bases, deltas), Some(ConfigError::StorageError));

    let (bases, mut deltas) = rows_of_two_bases();
    deltas[1].id = 5;
    assert_eq!(refused(bases, deltas), Some(ConfigError::StorageError));

    let (bases, mut deltas) = rows_of_two_bases();
    deltas[2].fingerprint = deltas[2].fingerprint.wrapping_add(1);
    assert_eq!(refused(bases, deltas), Some(ConfigError::StorageError));

    let (bases, mut deltas) = rows_of_two_bases();
    deltas[0].value = object(vec![("a", num(3))]);
    assert_eq!(refused(bases, deltas), Some(ConfigError::StorageError));

    let (mut bases, mut deltas) = rows_of_two_bases();
    let again = BaseConfig {
        name: "z".to_string(),
        version: 0,
        value: bases[0].value.clone(),
        fingerprint: bases[0].fingerprint,
    };
    bases.push(again);
    deltas.push(Delta { id: 4, fingerprint: bases[0].fingerprint, value: ConfigValue::Null });
    assert_eq!(refused(bases, deltas), Some(ConfigError::StorageError));

    let (bases, mut deltas) = rows_of_two_bases();
    deltas[1].value = num(3);
    assert_eq!(refused(bases, deltas), Some(ConfigError::StorageError));

    let (bases, mut deltas) = rows_of_two_bases();
    deltas[1].value = object(vec![]);
    assert_eq!(refused(bases, deltas), Some(ConfigError::StorageError));

    let (bases, mut deltas) = rows_of_two_bases();
    deltas.swap(0, 1);
    deltas[0].id = 1;
    deltas[1].id = 2;
    assert_eq!(refused(bases, deltas), Some(ConfigError::StorageError));

    let (bases, _) = rows_of_two_bases();
    assert_eq!(refused(bases, Vec::new()), Some(ConfigError::StorageError));
}

#[test]
fn every_error_has_its_words() {
    assert_eq!(
        ConfigError::ShapeError.message(),
        "Json object, should be a tree not a single leaf."
    );
    assert_eq!(
        ConfigError::ShapeMismatch.message(),
        "Key structure must be the same in the jsons."
    );
    assert_eq!(
        ConfigError::NotFound.message(),
        "No config or delta is stored under what was asked for."
    );
    assert_eq!(ConfigError::StorageError.message(), "The store cannot take another row.");
}
