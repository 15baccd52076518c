use runcher_core::config_text::{parse_game_config, serialize_game_config};
use runcher_core::error::CoreError;
use runcher_core::game_config::GameConfig;
use runcher_core::mods::Mod;
use runcher_core::session::{step, SessionEvent, SessionState};
use runcher_core::settings::detect_steam_user_id;
use runcher_core::store::{
    game_config_path, load_game_config, profiles_path, save_commit, save_file, save_game_config,
    save_stage, schemas_path, temp_packs_folder, FileStore, LoadOutcome,
};

fn scanned(id: &str, path: &str, size: u64) -> Mod {
    Mod::from_scan(id.as_bytes().to_vec(), path.as_bytes().to_vec(), size, true)
}

#[test]
fn config_round_trips_through_its_text() {
    let mut c = GameConfig::empty();
    c.register_mod(scanned("111", "mods/a.pack", 42)).unwrap();
    c.add_category(b"Maps".to_vec()).unwrap();
    c.register_mod(scanned("222", "mods/b.pack", 7)).unwrap();
    c.set_enabled(b"111", true).unwrap();
    c.refresh_load_order();
    let text = serialize_game_config(&c);
    let back = parse_game_config(&text).unwrap();
    assert_eq!(back.mods.len(), 2);
    let a = back.find_mod_index(b"111").map(|i| &back.mods[i]).unwrap();
    assert_eq!(a.path, b"mods/a.pack".to_vec());
    assert_eq!(a.size, 42);
    assert!(a.enabled && a.workshop && !a.online);
    assert_eq!(back.categories.len(), 2);
    assert_eq!(back.categories[1].name, b"Maps".to_vec());
    assert_eq!(back.categories[1].mod_ids, vec![b"222".to_vec()]);
    assert_eq!(back.load_order, vec![b"111".to_vec()]);
}

#[test]
fn unknown_fields_are_ignored_and_known_fields_kept() {
    let text = b"mod:1:0:1:42:5:6:alpha:mods/alpha.pack\nfuturefield:whatever\norder:alpha\n";
    let c = parse_game_config(text).unwrap();
    assert_eq!(c.mods.len(), 1);
    let m = &c.mods[0];
    assert_eq!(m.id, b"alpha".to_vec());
    assert_eq!(m.path, b"mods/alpha.pack".to_vec());
    assert_eq!(m.size, 42);
    assert_eq!(m.time_created, 5);
    assert_eq!(m.time_updated, 6);
    assert!(m.enabled && !m.workshop && m.online);
    assert_eq!(c.load_order, vec![b"alpha".to_vec()]);
}

#[test]
fn malformed_known_lines_are_reported_with_their_line() {
    assert_eq!(
        parse_game_config(b"mod:9:0:0:x\n").unwrap_err(),
        CoreError::Parse { line: 1 }
    );
    assert_eq!(
        parse_game_config(b"category:Maps\nmod:1:0:0:1:1:1::p\n").unwrap_err(),
        CoreError::Parse { line: 2 }
    );
    // A mod id may not repeat, an order entry must name an enabled mod.
    assert_eq!(
        parse_game_config(b"mod:1:0:0:1:1:1:a:p\nmod:1:0:0:1:1:1:a:q\n").unwrap_err(),
        CoreError::Parse { line: 2 }
    );
    assert_eq!(
        parse_game_config(b"mod:0:0:0:1:1:1:a:p\norder:a\n").unwrap_err(),
        CoreError::Parse { line: 2 }
    );
    // A number too large for its field is malformed.
    assert_eq!(
        parse_game_config(b"mod:1:0:0:18446744073709551616:1:1:a:p\n").unwrap_err(),
        CoreError::Parse { line: 1 }
    );
}

#[test]
fn paths_containing_colons_survive() {
    let text = b"mod:0:0:0:1:2:3:alpha:C:\\games\\mods\\alpha.pack\n";
    let c = parse_game_config(text).unwrap();
    assert_eq!(c.mods[0].path, b"C:\\games\\mods\\alpha.pack".to_vec());
}

#[test]
fn loading_a_missing_file_yields_a_fresh_config() {
    let mut store = FileStore::new();
    let (c, outcome) = load_game_config(&mut store, b"cfg/wh3");
    assert_eq!(outcome, LoadOutcome::Fresh);
    assert!(c.mods.is_empty());
    assert_eq!(c.categories.len(), 1);
}

#[test]
fn loading_a_corrupt_file_renames_it_aside() {
    let mut store = FileStore::new();
    let corrupt = b"mod:not-a-real-line\n".to_vec();
    store.put(b"cfg/wh3".to_vec(), corrupt.clone());
    let (c, outcome) = load_game_config(&mut store, b"cfg/wh3");
    assert_eq!(outcome, LoadOutcome::Recovered);
    assert!(c.mods.is_empty());
    // The original is renamed aside, not deleted or overwritten.
    assert!(!store.contains(b"cfg/wh3"));
    assert_eq!(store.get(b"cfg/wh3.invalid").unwrap(), &corrupt);
}

#[test]
fn interrupted_save_leaves_the_previous_file_intact() {
    let mut store = FileStore::new();
    store.put(b"cfg/wh3".to_vec(), b"previous good state".to_vec());
    // Simulated crash: the temp file is written but never renamed.
    save_stage(&mut store, b"cfg/wh3", b"half-finished".to_vec());
    assert_eq!(store.get(b"cfg/wh3").unwrap(), &b"previous good state".to_vec());
    assert_eq!(store.get(b"cfg/wh3.tmp").unwrap(), &b"half-finished".to_vec());
    // Committing later completes the save.
    save_commit(&mut store, b"cfg/wh3").unwrap();
    assert_eq!(store.get(b"cfg/wh3").unwrap(), &b"half-finished".to_vec());
    assert!(!store.contains(b"cfg/wh3.tmp"));
}

#[test]
fn save_writes_atomically_and_reloads() {
    let mut store = FileStore::new();
    let mut c = GameConfig::empty();
    c.register_mod(scanned("9", "m.pack", 3)).unwrap();
    save_game_config(&mut store, b"cfg/wh3", &c);
    assert!(!store.contains(b"cfg/wh3.tmp"));
    let (back, outcome) = load_game_config(&mut store, b"cfg/wh3");
    assert_eq!(outcome, LoadOutcome::Loaded);
    assert_eq!(back.mods.len(), 1);
    assert_eq!(back.mods[0].id, b"9".to_vec());
}

#[test]
fn save_file_overwrites_previous_content() {
    let mut store = FileStore::new();
    save_file(&mut store, b"f", b"one".to_vec());
    save_file(&mut store, b"f", b"two".to_vec());
    assert_eq!(store.get(b"f").unwrap(), &b"two".to_vec());
}

#[test]
fn store_rename_fails_on_missing_source() {
    let mut store = FileStore::new();
    assert_eq!(store.rename(b"a", b"b"), Err(CoreError::NotFound));
    store.put(b"a".to_vec(), b"x".to_vec());
    assert_eq!(store.rename(b"a", b"b"), Ok(()));
    assert!(!store.contains(b"a"));
    assert_eq!(store.get(b"b").unwrap(), &b"x".to_vec());
}

#[test]
fn per_game_paths_are_namespaced() {
    assert_eq!(
        temp_packs_folder(b"cfg", b"warhammer_3"),
        b"cfg/temp_packs/warhammer_3".to_vec()
    );
    assert_eq!(schemas_path(b"cfg"), b"cfg/schemas".to_vec());
    assert_eq!(game_config_path(b"cfg"), b"cfg/game_config".to_vec());
    assert_eq!(profiles_path(b"cfg"), b"cfg/profiles".to_vec());
}

#[test]
fn session_walks_unloaded_loaded_dirty_saved() {
    let s = SessionState::Unloaded;
    assert_eq!(step(s, SessionEvent::Mutate), SessionState::Unloaded);
    let s = step(s, SessionEvent::Load);
    assert_eq!(s, SessionState::Loaded);
    let s = step(s, SessionEvent::Mutate);
    assert_eq!(s, SessionState::Dirty);
    let s = step(s, SessionEvent::Save);
    assert_eq!(s, SessionState::Saved);
    assert_eq!(step(s, SessionEvent::Mutate), SessionState::Dirty);
    assert_eq!(step(s, SessionEvent::Load), SessionState::Loaded);
}

#[test]
fn steam_user_id_is_the_first_digit_run() {
    let manifest = b"\"users\"\n{\n\t\"76561198012345678\"\n\t{\n\t\t\"AccountName\"\t\"someone\"\n";
    assert_eq!(
        detect_steam_user_id(manifest),
        b"76561198012345678".to_vec()
    );
    assert_eq!(detect_steam_user_id(b"no digits here"), b"".to_vec());
    // A run too large for a u64 is rejected, as the settings bootstrap does.
    assert_eq!(
        detect_steam_user_id(b"x184467440737095516159999y12"),
        b"".to_vec()
    );
}

#[test]
fn error_kinds_have_stable_names() {
    assert_eq!(CoreError::Io.kind_name(), "io");
    assert_eq!(CoreError::Parse { line: 3 }.kind_name(), "parse");
    assert_eq!(CoreError::NotFound.kind_name(), "not found");
    assert_eq!(CoreError::DuplicateName.kind_name(), "duplicate name");
    assert_eq!(
        CoreError::MissingMod { id: b"x".to_vec() }.kind_name(),
        "missing mod"
    );
    assert_eq!(CoreError::Codec.kind_name(), "codec");
}

#[test]
fn empty_text_parses_to_the_empty_config() {
    let c = parse_game_config(b"").unwrap();
    assert!(c.mods.is_empty());
    assert_eq!(c.categories.len(), 1);
    assert_eq!(c.categories[0].name, b"Unassigned".to_vec());
}

#[test]
fn redeclaring_the_reserved_category_is_corrupt() {
    assert_eq!(
        parse_game_config(b"category:Unassigned\n").unwrap_err(),
        CoreError::Parse { line: 1 }
    );
}
