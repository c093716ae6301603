use gitea_mirror_sync::names::NameSet;
use gitea_mirror_sync::state::{fingerprint, temp_file_name, to_hex, State, StateRecord};

fn strings(names: &[&str]) -> Vec<String> {
    names.iter().map(|n| n.to_string()).collect()
}

#[test]
fn fingerprint_is_stable_and_distinct() {
    assert_eq!(fingerprint("abc"), fingerprint("abc"));
    assert_ne!(fingerprint("abc"), fingerprint("abd"));
    assert_eq!(fingerprint("abc").len(), 64); // sha-256 hex
}

#[test]
fn load_missing_file_is_empty() {
    let s = State::load(None);
    assert!(s.managed.is_empty());
    assert!(s.blacklist.is_empty());
    assert!(s.token_fingerprint.is_none());
}

#[test]
fn save_then_load_roundtrip() {
    let mut s = State::load(None);
    s.managed.insert("repo-a".into());
    s.blacklist.insert("repo-b".into());
    s.token_fingerprint = Some("deadbeef".into());
    let saved = s.save();

    let loaded = State::load(Some(saved));
    assert!(loaded.managed.contains("repo-a"));
    assert!(loaded.blacklist.contains("repo-b"));
    assert_eq!(loaded.token_fingerprint.as_deref(), Some("deadbeef"));
}

#[test]
fn fingerprint_is_the_sha_256_in_hexadecimal() {
    assert_eq!(
        fingerprint("abc"),
        "ba7816bf8f01cfea414140de5dae2223b00361a396177a9cb410ff61f20015ad"
    );
    assert_eq!(
        fingerprint(""),
        "e3b0c44298fc1c149afbf4c8996fb92427ae41e4649b934ca495991b7852b855"
    );
}

#[test]
fn hexadecimal_has_two_digits_a_byte() {
    assert_eq!(to_hex(&vec![0, 9, 10, 15, 16, 171, 255]), "00090a0f10abff");
    assert_eq!(to_hex(&vec![]), "");
}

#[test]
fn a_saved_state_lists_its_names_in_order_and_once() {
    let record = StateRecord {
        managed: strings(&["b", "a", "b", "B"]),
        blacklist: strings(&[]),
        token_fingerprint: None,
    };
    let saved = State::load(Some(record)).save();
    assert_eq!(saved.managed, strings(&["B", "a", "b"]));
    assert!(saved.blacklist.is_empty());
}

#[test]
fn the_temporary_file_stands_beside_the_state() {
    assert_eq!(temp_file_name("gms-state.json"), "gms-state.json.tmp");
}

#[test]
fn a_name_set_tells_what_changed() {
    let mut names = NameSet::new();
    assert!(names.insert("x".into()));
    assert!(!names.insert("x".into()));
    assert!(names.insert("w".into()));
    assert_eq!(names.len(), 2);
    assert_eq!(names.to_vec(), strings(&["w", "x"]));
    assert!(names.remove("x"));
    assert!(!names.remove("x"));
    assert!(!names.contains("x"));
    assert!(names.contains("w"));
}
