use runcher_core::error::CoreError;
use runcher_core::game_config::GameConfig;
use runcher_core::mods::Mod;

fn scanned(id: &str, path: &str) -> Mod {
    Mod::from_scan(id.as_bytes().to_vec(), path.as_bytes().to_vec(), 10, false)
}

#[test]
fn empty_config_has_only_unassigned() {
    let c = GameConfig::empty();
    assert_eq!(c.categories.len(), 1);
    assert_eq!(c.categories[0].name, b"Unassigned".to_vec());
    assert!(c.mods.is_empty());
    assert!(c.load_order.is_empty());
}

#[test]
fn add_category_rejects_duplicates_and_reserved_name() {
    let mut c = GameConfig::empty();
    assert_eq!(c.add_category(b"Raids".to_vec()), Ok(()));
    assert_eq!(c.add_category(b"Raids".to_vec()), Err(CoreError::DuplicateName));
    assert_eq!(c.add_category(b"Unassigned".to_vec()), Err(CoreError::DuplicateName));
    assert_eq!(c.categories.len(), 2);
}

#[test]
fn delete_category_appends_mods_to_unassigned_in_order() {
    // "Raids" holds [A, B]; "Unassigned" already holds [C]. Deleting "Raids"
    // must leave Unassigned = [C, A, B] and no "Raids" category.
    let mut c = GameConfig::empty();
    c.register_mod(scanned("C", "mods/c.pack")).unwrap();
    c.add_category(b"Raids".to_vec()).unwrap();
    c.register_mod(scanned("A", "mods/a.pack")).unwrap();
    c.register_mod(scanned("B", "mods/b.pack")).unwrap();
    assert_eq!(c.delete_category(b"Raids"), Ok(()));
    assert_eq!(c.categories.len(), 1);
    assert_eq!(c.categories[0].name, b"Unassigned".to_vec());
    assert_eq!(
        c.categories[0].mod_ids,
        vec![b"C".to_vec(), b"A".to_vec(), b"B".to_vec()]
    );
    assert!(c.find_category_index(b"Raids").is_none());
}

#[test]
fn delete_category_rejects_unknown_and_reserved() {
    let mut c = GameConfig::empty();
    assert_eq!(c.delete_category(b"Nope"), Err(CoreError::NotFound));
    assert_eq!(c.delete_category(b"Unassigned"), Err(CoreError::NotFound));
}

#[test]
fn move_mod_reassigns_category_and_inserts_at_index() {
    let mut c = GameConfig::empty();
    c.register_mod(scanned("A", "a.pack")).unwrap();
    c.register_mod(scanned("B", "b.pack")).unwrap();
    c.add_category(b"Maps".to_vec()).unwrap();
    c.register_mod(scanned("M", "m.pack")).unwrap();
    // Move A into "Maps" at the front.
    assert_eq!(c.move_mod(b"A", b"Maps", 0), Ok(()));
    assert_eq!(c.categories[0].mod_ids, vec![b"B".to_vec()]);
    assert_eq!(c.categories[1].mod_ids, vec![b"A".to_vec(), b"M".to_vec()]);
    // An out-of-range index clamps to the end.
    assert_eq!(c.move_mod(b"B", b"Maps", 99), Ok(()));
    assert_eq!(
        c.categories[1].mod_ids,
        vec![b"A".to_vec(), b"M".to_vec(), b"B".to_vec()]
    );
    assert_eq!(c.move_mod(b"Zed", b"Maps", 0), Err(CoreError::NotFound));
    assert_eq!(c.move_mod(b"A", b"Nope", 0), Err(CoreError::NotFound));
}

#[test]
fn resolve_enabled_order_walks_categories_in_display_order() {
    let mut c = GameConfig::empty();
    c.register_mod(scanned("u1", "u1.pack")).unwrap();
    c.add_category(b"First".to_vec()).unwrap();
    c.register_mod(scanned("f1", "f1.pack")).unwrap();
    c.register_mod(scanned("f2", "f2.pack")).unwrap();
    c.set_enabled(b"u1", true).unwrap();
    c.set_enabled(b"f1", true).unwrap();
    c.set_enabled(b"f2", true).unwrap();
    // Unassigned is first in display order, then "First" in stored order.
    let order = c.resolve_enabled_order();
    assert_eq!(order, vec![b"u1".to_vec(), b"f1".to_vec(), b"f2".to_vec()]);
}

#[test]
fn resolve_enabled_order_is_idempotent_and_skips_disabled() {
    let mut c = GameConfig::empty();
    c.register_mod(scanned("A", "a.pack")).unwrap();
    c.register_mod(scanned("B", "b.pack")).unwrap();
    c.register_mod(scanned("X", "x.pack")).unwrap();
    c.set_enabled(b"A", true).unwrap();
    c.set_enabled(b"B", true).unwrap();
    let first = c.resolve_enabled_order();
    let second = c.resolve_enabled_order();
    assert_eq!(first, second);
    assert_eq!(first, vec![b"A".to_vec(), b"B".to_vec()]);
    // No duplicates and only enabled ids.
    assert!(!first.contains(&b"X".to_vec()));
}

#[test]
fn disabling_removes_the_mod_from_the_load_order() {
    let mut c = GameConfig::empty();
    c.register_mod(scanned("A", "a.pack")).unwrap();
    c.register_mod(scanned("B", "b.pack")).unwrap();
    c.set_enabled(b"A", true).unwrap();
    c.set_enabled(b"B", true).unwrap();
    c.refresh_load_order();
    assert_eq!(c.load_order, vec![b"A".to_vec(), b"B".to_vec()]);
    c.set_enabled(b"A", false).unwrap();
    assert_eq!(c.load_order, vec![b"B".to_vec()]);
    assert_eq!(c.set_enabled(b"Zed", true), Err(CoreError::NotFound));
}

#[test]
fn push_load_order_accepts_enabled_mods_once() {
    let mut c = GameConfig::empty();
    c.register_mod(scanned("A", "a.pack")).unwrap();
    assert_eq!(c.push_load_order(b"A"), Err(CoreError::NotFound));
    c.set_enabled(b"A", true).unwrap();
    assert_eq!(c.push_load_order(b"A"), Ok(()));
    assert_eq!(c.push_load_order(b"A"), Err(CoreError::DuplicateName));
    assert_eq!(c.load_order, vec![b"A".to_vec()]);
}

#[test]
fn register_mod_rejects_duplicate_ids() {
    let mut c = GameConfig::empty();
    c.register_mod(scanned("A", "a.pack")).unwrap();
    assert_eq!(
        c.register_mod(scanned("A", "elsewhere.pack")),
        Err(CoreError::DuplicateName)
    );
}

#[test]
fn move_within_one_category_reorders() {
    let mut c = GameConfig::empty();
    c.register_mod(scanned("A", "a.pack")).unwrap();
    c.register_mod(scanned("B", "b.pack")).unwrap();
    c.register_mod(scanned("C", "c.pack")).unwrap();
    assert_eq!(c.move_mod(b"C", b"Unassigned", 0), Ok(()));
    assert_eq!(
        c.categories[0].mod_ids,
        vec![b"C".to_vec(), b"A".to_vec(), b"B".to_vec()]
    );
}

#[test]
fn a_deleted_category_name_can_be_reused() {
    let mut c = GameConfig::empty();
    c.add_category(b"Raids".to_vec()).unwrap();
    c.delete_category(b"Raids").unwrap();
    assert_eq!(c.add_category(b"Raids".to_vec()), Ok(()));
    assert_eq!(c.categories.len(), 2);
}
