use modman::{change_mod_version, decode_state, encode_state, ignore_update, ModId, ModManager};

fn word(x: u128) -> Vec<u8> {
    x.to_le_bytes().to_vec()
}

fn doc(words: &[u128]) -> Vec<u8> {
    words.iter().flat_map(|w| word(*w)).collect()
}

#[test]
fn new_manager_document_layout() {
    let m = ModManager::new();
    let bytes = encode_state(&m);
    // one profile, active 0, no mods, no ignored identifiers
    assert_eq!(bytes, doc(&[1, 0, 0, 0]));
    assert_eq!(bytes.len(), 64);
    assert_eq!(bytes[0], 1);
}

#[test]
fn document_layout_with_mods_and_ignored() {
    let mut m = ModManager::new();
    change_mod_version(&mut m, ModId { package: 7, version: 70 }, Ok(())).unwrap();
    change_mod_version(&mut m, ModId { package: 8, version: 80 }, Ok(())).unwrap();
    ignore_update(&mut m, 71);
    let bytes = encode_state(&m);
    assert_eq!(bytes, doc(&[1, 0, 2, 7, 70, 8, 80, 1, 71]));
}

#[test]
fn changed_version_survives_reload() {
    let mut m = ModManager::new();
    change_mod_version(&mut m, ModId { package: 0xa, version: 0x10 }, Ok(())).unwrap();
    change_mod_version(&mut m, ModId { package: 0xa, version: u128::MAX }, Ok(())).unwrap();
    let loaded = decode_state(&encode_state(&m)).expect("document reloads");
    assert_eq!(loaded.active_profile().installed_version(0xa), Some(u128::MAX));
    assert_eq!(loaded.active_profile().mods, m.active_profile().mods);
    assert_eq!(loaded.active, m.active);
}

#[test]
fn ignored_update_survives_reload() {
    let mut m = ModManager::new();
    change_mod_version(&mut m, ModId { package: 0xa, version: 0x10 }, Ok(())).unwrap();
    ignore_update(&mut m, 0x20);
    let loaded = decode_state(&encode_state(&m)).expect("document reloads");
    assert!(loaded.active_profile().is_ignored(0x20));
    assert_eq!(loaded.active_profile().ignored_updates, vec![0x20]);
}

#[test]
fn several_profiles_reload() {
    let bytes = doc(&[2, 1, 1, 5, 50, 0, 0, 2, 9, 10]);
    let m = decode_state(&bytes).expect("valid document");
    assert_eq!(m.profiles.len(), 2);
    assert_eq!(m.active, 1);
    assert_eq!(m.profiles[0].installed_version(5), Some(50));
    assert_eq!(m.active_profile().ignored_updates, vec![9, 10]);
    assert_eq!(encode_state(&m), bytes);
}

#[test]
fn length_not_whole_words_is_rejected() {
    let mut bytes = encode_state(&ModManager::new());
    bytes.push(0);
    assert!(decode_state(&bytes).is_none());
    assert!(decode_state(&vec![]).is_none());
}

#[test]
fn truncated_document_is_rejected() {
    assert!(decode_state(&doc(&[1, 0, 2, 7, 70])).is_none());
    assert!(decode_state(&doc(&[1, 0, 0])).is_none());
    assert!(decode_state(&doc(&[1])).is_none());
}

#[test]
fn trailing_words_are_rejected() {
    assert!(decode_state(&doc(&[1, 0, 0, 0, 0])).is_none());
}

#[test]
fn duplicate_package_is_rejected() {
    assert!(decode_state(&doc(&[1, 0, 2, 7, 70, 7, 71, 0])).is_none());
}

#[test]
fn duplicate_ignored_is_rejected() {
    assert!(decode_state(&doc(&[1, 0, 0, 2, 9, 9])).is_none());
}

#[test]
fn active_out_of_range_is_rejected() {
    assert!(decode_state(&doc(&[1, 1, 0, 0])).is_none());
}

#[test]
fn no_profiles_is_rejected() {
    assert!(decode_state(&doc(&[0, 0])).is_none());
}

#[test]
fn huge_counts_are_rejected() {
    assert!(decode_state(&doc(&[1, 0, u128::MAX, 0])).is_none());
    assert!(decode_state(&doc(&[1, 0, 0, u128::MAX])).is_none());
    assert!(decode_state(&doc(&[u128::MAX, 0, 0, 0])).is_none());
}
