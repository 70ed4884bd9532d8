use asset_aggregation::env::EnvMap;
use asset_aggregation::env::EnvValue;
use asset_aggregation::env::ProcessEnv;
use asset_aggregation::env::StaticProcessEnv;
use asset_aggregation::env::to_uppercase_map;

fn string_value(s: &str) -> EnvValue {
    EnvValue::String(s.to_string())
}

fn value_str(v: &EnvValue) -> &str {
    v.to_str()
}

#[test]
fn to_str_returns_the_string() {
    let v = string_value("hello");
    assert_eq!(value_str(&v), "hello");
}

#[test]
fn empty_map_has_no_entries() {
    let m = EnvMap::empty();
    assert_eq!(m.len(), 0);
    assert!(m.get("PATH").is_none());
}

#[test]
fn insert_and_get() {
    let mut m = EnvMap::empty();
    assert!(m.insert("HOME".to_string(), string_value("/root")).is_none());
    assert_eq!(m.len(), 1);
    let got = m.get("HOME").expect("present");
    assert_eq!(value_str(got), "/root");
    assert!(m.get("home").is_none());
}

#[test]
fn insert_existing_key_keeps_position_and_returns_old() {
    let mut m = EnvMap::empty();
    m.insert("A".to_string(), string_value("1"));
    m.insert("B".to_string(), string_value("2"));
    let old = m.insert("A".to_string(), string_value("3")).expect("old value");
    assert_eq!(value_str(&old), "1");
    let pairs = m.pairs();
    assert_eq!(pairs.len(), 2);
    assert_eq!(pairs[0].0, "A");
    assert_eq!(value_str(&pairs[0].1), "3");
    assert_eq!(pairs[1].0, "B");
}

#[test]
fn pairs_keep_insertion_order() {
    let mut m = EnvMap::empty();
    m.insert("ZEBRA".to_string(), string_value("z"));
    m.insert("ALPHA".to_string(), string_value("a"));
    let pairs = m.pairs();
    assert_eq!(pairs[0].0, "ZEBRA");
    assert_eq!(pairs[1].0, "ALPHA");
}

#[test]
fn uppercase_map_uppercases_keys_and_keeps_values() {
    let mut m = EnvMap::empty();
    m.insert("path".to_string(), string_value("/bin"));
    m.insert("Home".to_string(), string_value("/root"));
    let upper = to_uppercase_map(&m);
    let pairs = upper.pairs();
    assert_eq!(pairs.len(), 2);
    assert_eq!(pairs[0].0, "PATH");
    assert_eq!(value_str(&pairs[0].1), "/bin");
    assert_eq!(pairs[1].0, "HOME");
    assert_eq!(value_str(&pairs[1].1), "/root");
}

#[test]
fn uppercase_map_merges_keys_equal_up_to_case() {
    let mut m = EnvMap::empty();
    m.insert("path".to_string(), string_value("/bin"));
    m.insert("PATH".to_string(), string_value("/usr/bin"));
    let upper = to_uppercase_map(&m);
    let pairs = upper.pairs();
    assert_eq!(pairs.len(), 1);
    assert_eq!(pairs[0].0, "PATH");
    assert_eq!(value_str(&pairs[0].1), "/usr/bin");
}

#[test]
fn read_ignores_casing() {
    let mut m = EnvMap::empty();
    m.insert("Path".to_string(), string_value("/bin"));
    let env = StaticProcessEnv::new(m);
    let hit = env.read("pAtH").0.expect("case-insensitive hit");
    assert_eq!(value_str(&hit), "/bin");
    assert!(env.read("TERM").0.is_none());
}

#[test]
fn read_all_returns_the_snapshot() {
    let mut m = EnvMap::empty();
    m.insert("A".to_string(), string_value("1"));
    let env = StaticProcessEnv::new(m);
    let all = env.read_all();
    assert_eq!(all.len(), 1);
    assert_eq!(value_str(all.get("A").expect("present")), "1");
}

#[test]
fn dup_copies_all_entries() {
    let mut m = EnvMap::empty();
    m.insert("A".to_string(), string_value("1"));
    m.insert("B".to_string(), string_value("2"));
    let copy = m.dup();
    assert_eq!(copy.len(), 2);
    assert_eq!(value_str(copy.get("B").expect("present")), "2");
}
