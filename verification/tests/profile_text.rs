use runcher_core::error::CoreError;
use runcher_core::profile::{from_shareable_string, to_shareable_string, ShareableMod, SourceTag};
use runcher_core::store::{load_profile, save_profile, FileStore};

#[test]
fn canonical_text_round_trips_exactly() {
    let text = b"steam:123:1\nlocal:my_mod:0\n";
    let list = from_shareable_string(text).unwrap();
    assert_eq!(list.len(), 2);
    assert_eq!(list[0].tag, SourceTag::Steam);
    assert_eq!(list[0].id, b"123".to_vec());
    assert!(list[0].enabled);
    assert_eq!(list[1].tag, SourceTag::Local);
    assert_eq!(list[1].id, b"my_mod".to_vec());
    assert!(!list[1].enabled);
    assert_eq!(to_shareable_string(&list), text.to_vec());
}

#[test]
fn reserialization_normalizes_whitespace_and_enabled_suffix() {
    // Empty lines and trailing whitespace are ignored; a missing enabled
    // suffix means enabled. Re-serializing yields the canonical form.
    let text = b" \nsteam:42  \n\nlocal:a\n";
    let list = from_shareable_string(text).unwrap();
    assert_eq!(list.len(), 2);
    assert!(list[0].enabled && list[1].enabled);
    assert_eq!(
        to_shareable_string(&list),
        b"steam:42:1\nlocal:a:1\n".to_vec()
    );
}

#[test]
fn final_line_without_newline_is_still_read() {
    let list = from_shareable_string(b"steam:7:0").unwrap();
    assert_eq!(list.len(), 1);
    assert_eq!(list[0].id, b"7".to_vec());
    assert!(!list[0].enabled);
}

#[test]
fn identifiers_may_contain_colons() {
    let list = from_shareable_string(b"local:C:/mods/x.pack:1\n").unwrap();
    assert_eq!(list.len(), 1);
    assert_eq!(list[0].id, b"C:/mods/x.pack".to_vec());
    let back = to_shareable_string(&list);
    assert_eq!(back, b"local:C:/mods/x.pack:1\n".to_vec());
}

#[test]
fn unknown_source_tag_fails_with_its_line_number() {
    let err = from_shareable_string(b"steam:1:1\nworkshop:2:1\n").unwrap_err();
    assert_eq!(err, CoreError::Parse { line: 2 });
}

#[test]
fn empty_identifier_fails_with_its_line_number() {
    assert_eq!(
        from_shareable_string(b"steam:\n").unwrap_err(),
        CoreError::Parse { line: 1 }
    );
    assert_eq!(
        from_shareable_string(b"local::1\n").unwrap_err(),
        CoreError::Parse { line: 1 }
    );
}

#[test]
fn empty_text_is_an_empty_list() {
    assert_eq!(from_shareable_string(b"").unwrap().len(), 0);
    assert_eq!(from_shareable_string(b"\n\n  \n").unwrap().len(), 0);
}

#[test]
fn profiles_persist_under_their_name() {
    let mut store = FileStore::new();
    let list = vec![
        ShareableMod { tag: SourceTag::Steam, id: b"123".to_vec(), enabled: true },
        ShareableMod { tag: SourceTag::Local, id: b"extra".to_vec(), enabled: false },
    ];
    save_profile(&mut store, b"profiles/alpha", &list);
    let loaded = load_profile(&store, b"profiles/alpha").unwrap();
    assert_eq!(loaded.len(), 2);
    assert_eq!(loaded[0].id, b"123".to_vec());
    assert_eq!(loaded[1].id, b"extra".to_vec());
    assert!(!loaded[1].enabled);
}

#[test]
fn loading_an_unknown_profile_fails_with_not_found() {
    let store = FileStore::new();
    assert_eq!(
        load_profile(&store, b"profiles/ghost").unwrap_err(),
        CoreError::NotFound
    );
}

#[test]
fn inner_whitespace_in_identifiers_is_kept() {
    // Only trailing line whitespace is trimmed; spaces inside the identifier
    // survive, including before an explicit suffix.
    let list = from_shareable_string(b"local:my mod :1\n").unwrap();
    assert_eq!(list[0].id, b"my mod ".to_vec());
    assert_eq!(to_shareable_string(&list), b"local:my mod :1\n".to_vec());
}

#[test]
fn saving_a_profile_twice_overwrites_it() {
    let mut store = FileStore::new();
    let one = vec![ShareableMod { tag: SourceTag::Steam, id: b"1".to_vec(), enabled: true }];
    let two = vec![ShareableMod { tag: SourceTag::Steam, id: b"2".to_vec(), enabled: true }];
    save_profile(&mut store, b"profiles/p", &one);
    save_profile(&mut store, b"profiles/p", &two);
    let loaded = load_profile(&store, b"profiles/p").unwrap();
    assert_eq!(loaded.len(), 1);
    assert_eq!(loaded[0].id, b"2".to_vec());
}
