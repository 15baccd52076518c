use runcher_core::game_config::GameConfig;
use runcher_core::mods::{Mod, OnlineRecord};
use runcher_core::registry::{populate_mods, populate_mods_with_online_data};

fn workshop_mod(id: &str, path: &str) -> Mod {
    Mod::from_scan(id.as_bytes().to_vec(), path.as_bytes().to_vec(), 10, true)
}

fn record(id: &str, title: &str, time_updated: u64) -> OnlineRecord {
    OnlineRecord {
        id: id.as_bytes().to_vec(),
        title: title.as_bytes().to_vec(),
        creator: b"someone".to_vec(),
        file_size: 999,
        file_url: b"https://example.invalid/file".to_vec(),
        preview_url: b"https://example.invalid/preview".to_vec(),
        description: b"[b]great[/b]".to_vec(),
        time_created: 50,
        time_updated,
    }
}

#[test]
fn records_older_than_the_last_update_are_skipped() {
    // Online record for id "123" with time_updated = 100 against
    // last_update_ts = 200: the local entry stays untouched.
    let mut mods = vec![workshop_mod("123", "mods/123.pack")];
    populate_mods_with_online_data(&mut mods, &vec![record("123", "New Title", 100)], 200);
    assert_eq!(mods[0].name, b"".to_vec());
    assert!(!mods[0].online);
    assert_eq!(mods[0].size, 10);
}

#[test]
fn fresh_records_overwrite_the_volatile_metadata() {
    let mut mods = vec![workshop_mod("123", "mods/123.pack")];
    mods[0].enabled = true;
    populate_mods_with_online_data(&mut mods, &vec![record("123", "New Title", 300)], 200);
    let m = &mods[0];
    assert_eq!(m.name, b"New Title".to_vec());
    assert_eq!(m.creator, b"someone".to_vec());
    assert_eq!(m.size, 999);
    assert_eq!(m.time_created, 50);
    assert_eq!(m.time_updated, 300);
    assert!(m.online);
    // User intent and identity survive the merge.
    assert!(m.enabled);
    assert_eq!(m.id, b"123".to_vec());
    assert_eq!(m.path, b"mods/123.pack".to_vec());
}

#[test]
fn mods_absent_online_are_left_untouched() {
    let mut mods = vec![workshop_mod("123", "a.pack"), workshop_mod("456", "b.pack")];
    populate_mods(&mut mods, &vec![record("123", "Title", 7)]);
    assert!(mods[0].online);
    assert!(!mods[1].online);
    assert_eq!(mods.len(), 2);
}

#[test]
fn local_only_mods_never_match_workshop_records() {
    let mut mods = vec![Mod::from_scan(b"123".to_vec(), b"a.pack".to_vec(), 10, false)];
    populate_mods(&mut mods, &vec![record("123", "Title", 7)]);
    assert!(!mods[0].online);
}

#[test]
fn merge_through_the_config_keeps_categories_and_order() {
    let mut c = GameConfig::empty();
    c.register_mod(workshop_mod("123", "a.pack")).unwrap();
    c.set_enabled(b"123", true).unwrap();
    c.refresh_load_order();
    c.merge_online(&vec![record("123", "Title", 7)], 0);
    assert_eq!(c.load_order, vec![b"123".to_vec()]);
    assert_eq!(c.categories[0].mod_ids, vec![b"123".to_vec()]);
    assert_eq!(c.mods[0].name, b"Title".to_vec());
}

#[test]
fn rescan_reconciles_scan_and_persisted_state() {
    // Persisted: A (enabled, categorized) and B; the fresh scan finds A with
    // new file data, plus a newcomer C; B's backing file vanished.
    let mut c = GameConfig::empty();
    c.register_mod(workshop_mod("A", "old/a.pack")).unwrap();
    c.register_mod(workshop_mod("B", "old/b.pack")).unwrap();
    c.add_category(b"Maps".to_vec()).unwrap();
    c.move_mod(b"A", b"Maps", 0).unwrap();
    c.set_enabled(b"A", true).unwrap();
    c.set_enabled(b"B", true).unwrap();
    c.refresh_load_order();
    let scannedv = vec![
        Mod::from_scan(b"A".to_vec(), b"new/a.pack".to_vec(), 77, true),
        Mod::from_scan(b"C".to_vec(), b"new/c.pack".to_vec(), 5, true),
    ];
    c.rescan(&scannedv);
    // A: scan wins for file data, persisted wins for user fields.
    let a = c.find_mod_index(b"A").map(|i| &c.mods[i]).unwrap();
    assert_eq!(a.path, b"new/a.pack".to_vec());
    assert_eq!(a.size, 77);
    assert!(a.enabled);
    // B is gone everywhere; C is appended to Unassigned, disabled.
    assert!(c.find_mod_index(b"B").is_none());
    assert_eq!(c.load_order, vec![b"A".to_vec()]);
    assert_eq!(c.categories[0].mod_ids, vec![b"C".to_vec()]);
    assert_eq!(c.categories[1].mod_ids, vec![b"A".to_vec()]);
    let cm = c.find_mod_index(b"C").map(|i| &c.mods[i]).unwrap();
    assert!(!cm.enabled);
}

#[test]
fn display_name_defaults_to_the_filename_stem() {
    let m = Mod::from_scan(b"x".to_vec(), b"C:/mods/cool_mod.pack".to_vec(), 1, false);
    assert_eq!(m.display_name(), b"cool_mod".to_vec());
    let bare = Mod::from_scan(b"y".to_vec(), b"plain".to_vec(), 1, false);
    assert_eq!(bare.display_name(), b"plain".to_vec());
    let mut online = Mod::from_scan(b"z".to_vec(), b"a/b.pack".to_vec(), 1, true);
    online.online = true;
    online.name = b"Fancy Title".to_vec();
    assert_eq!(online.display_name(), b"Fancy Title".to_vec());
}

#[test]
fn later_records_for_the_same_id_win() {
    let mut mods = vec![workshop_mod("1", "a.pack")];
    populate_mods(
        &mut mods,
        &vec![record("1", "First", 10), record("1", "Second", 20)],
    );
    assert_eq!(mods[0].name, b"Second".to_vec());
    assert_eq!(mods[0].time_updated, 20);
}
