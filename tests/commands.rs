use modman::{
    change_mod_version, ignore_update, update_mods, CmdError, ModId, ModManager,
};

const A: u128 = 0xa;
const A_1_0: u128 = 0x10;
const A_2_0: u128 = 0x20;
const B: u128 = 0xb;
const B_1_0: u128 = 0x31;

fn manager_with(mods: &[(u128, u128)]) -> ModManager {
    let mut m = ModManager::new();
    for &(p, v) in mods {
        change_mod_version(&mut m, ModId { package: p, version: v }, Ok(())).unwrap();
    }
    m
}

fn run_batch(
    m: &mut ModManager,
    candidates: Vec<ModId>,
    respect_ignored: bool,
    fails: &[u128],
) -> (Vec<ModId>, Result<(), CmdError>) {
    let mut batch = update_mods(candidates, respect_ignored);
    let mut installed = Vec::new();
    while let Some(c) = batch.next_candidate(m) {
        installed.push(c);
        let outcome = if fails.contains(&c.version) {
            Err(format!("download of {} failed", c.version))
        } else {
            Ok(())
        };
        batch.record(m, c, outcome);
    }
    (installed, batch.finish())
}

#[test]
fn update_applies_when_not_ignored() {
    let mut m = manager_with(&[(A, A_1_0)]);
    let (installed, r) = run_batch(&mut m, vec![ModId { package: A, version: A_2_0 }], true, &[]);
    assert!(r.is_ok());
    assert_eq!(installed, vec![ModId { package: A, version: A_2_0 }]);
    assert_eq!(m.active_profile().installed_version(A), Some(A_2_0));
}

#[test]
fn update_skipped_when_ignored() {
    let mut m = manager_with(&[(A, A_1_0)]);
    ignore_update(&mut m, A_2_0);
    let (installed, r) = run_batch(&mut m, vec![ModId { package: A, version: A_2_0 }], true, &[]);
    assert!(r.is_ok());
    assert!(installed.is_empty());
    assert_eq!(m.active_profile().installed_version(A), Some(A_1_0));
}

#[test]
fn ignored_update_installed_when_not_respected() {
    let mut m = manager_with(&[(A, A_1_0)]);
    ignore_update(&mut m, A_2_0);
    let (installed, r) = run_batch(&mut m, vec![ModId { package: A, version: A_2_0 }], false, &[]);
    assert!(r.is_ok());
    assert_eq!(installed.len(), 1);
    assert_eq!(m.active_profile().installed_version(A), Some(A_2_0));
}

#[test]
fn batch_failure_keeps_successes() {
    let mut m = manager_with(&[(A, A_1_0)]);
    let cands = vec![
        ModId { package: A, version: A_2_0 },
        ModId { package: B, version: B_1_0 },
    ];
    let (installed, r) = run_batch(&mut m, cands, true, &[A_2_0]);
    assert_eq!(installed.len(), 2);
    match r {
        Err(CmdError::Batch { failures }) => {
            assert_eq!(failures.len(), 1);
            assert_eq!(failures[0].mod_ref, ModId { package: A, version: A_2_0 });
            assert_eq!(failures[0].message, format!("download of {} failed", A_2_0));
        }
        other => panic!("unexpected {:?}", other),
    }
    assert_eq!(m.active_profile().installed_version(A), Some(A_1_0));
    assert_eq!(m.active_profile().installed_version(B), Some(B_1_0));
}

#[test]
fn empty_batch_succeeds() {
    let mut m = manager_with(&[(A, A_1_0)]);
    let (installed, r) = run_batch(&mut m, vec![], true, &[]);
    assert!(r.is_ok());
    assert!(installed.is_empty());
    assert_eq!(m.active_profile().mods.len(), 1);
}

#[test]
fn duplicate_package_in_batch_last_wins() {
    let mut m = manager_with(&[(A, A_1_0)]);
    let cands = vec![
        ModId { package: A, version: A_2_0 },
        ModId { package: A, version: 0x30 },
    ];
    let (_, r) = run_batch(&mut m, cands, true, &[]);
    assert!(r.is_ok());
    assert_eq!(m.active_profile().installed_version(A), Some(0x30));
    assert_eq!(m.active_profile().mods.len(), 1);
}

#[test]
fn change_version_replaces_entry() {
    let mut m = manager_with(&[(A, A_1_0), (B, B_1_0)]);
    let r = change_mod_version(&mut m, ModId { package: A, version: A_2_0 }, Ok(()));
    assert!(r.is_ok());
    let p = m.active_profile();
    assert_eq!(p.mods.len(), 2);
    assert_eq!(p.mods[0].version, A_2_0);
    assert_eq!(p.installed_version(B), Some(B_1_0));
}

#[test]
fn change_version_adds_missing_package() {
    let mut m = manager_with(&[(A, A_1_0)]);
    change_mod_version(&mut m, ModId { package: B, version: B_1_0 }, Ok(())).unwrap();
    assert_eq!(m.active_profile().installed_version(B), Some(B_1_0));
    assert_eq!(m.active_profile().installed_version(A), Some(A_1_0));
    assert_eq!(m.active_profile().installed_version(0x99), None);
}

#[test]
fn failed_change_leaves_entry() {
    let mut m = manager_with(&[(A, A_1_0)]);
    let target = ModId { package: A, version: A_2_0 };
    let r = change_mod_version(&mut m, target, Err("no such version".to_string()));
    match r {
        Err(CmdError::Install { mod_ref, message }) => {
            assert_eq!(mod_ref, target);
            assert_eq!(message, "no such version");
        }
        other => panic!("unexpected {:?}", other),
    }
    assert_eq!(m.active_profile().installed_version(A), Some(A_1_0));
    assert_eq!(m.active_profile().mods.len(), 1);
}

#[test]
fn ignore_twice_is_ignore_once() {
    let mut m = ModManager::new();
    ignore_update(&mut m, A_2_0);
    let once = m.active_profile().ignored_updates.clone();
    ignore_update(&mut m, A_2_0);
    assert_eq!(m.active_profile().ignored_updates, once);
    assert_eq!(once, vec![A_2_0]);
    assert!(m.active_profile().is_ignored(A_2_0));
    assert!(!m.active_profile().is_ignored(A_1_0));
}
