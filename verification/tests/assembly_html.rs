use runcher_core::assembly::{
    assemble, base_name_of, effective_unit_multiplier, plan_assembly, prepare_script_logging,
    prepare_skip_intro_videos, prepare_unit_multiplier, setup_launch_options, GameFamily,
};
use runcher_core::error::CoreError;
use runcher_core::game_config::GameConfig;
use runcher_core::html::parse_to_html;
use runcher_core::mods::Mod;
use runcher_core::store::FileStore;

fn config_with_enabled(ids_and_paths: &[(&str, &str)]) -> GameConfig {
    let mut c = GameConfig::empty();
    for (id, path) in ids_and_paths {
        c.register_mod(Mod::from_scan(
            id.as_bytes().to_vec(),
            path.as_bytes().to_vec(),
            1,
            true,
        ))
        .unwrap();
        c.set_enabled(id.as_bytes(), true).unwrap();
    }
    c
}

#[test]
fn launch_options_follow_the_capability_table() {
    let wh3 = setup_launch_options(GameFamily::Warhammer3, true);
    assert!(wh3.logging && wh3.skip_intro && wh3.merge_all && wh3.unit_multiplier);
    let wh3_no_schema = setup_launch_options(GameFamily::Warhammer3, false);
    assert!(!wh3_no_schema.unit_multiplier);
    for family in [
        GameFamily::Warhammer2,
        GameFamily::Warhammer,
        GameFamily::Troy,
        GameFamily::ThreeKingdoms,
        GameFamily::ThronesOfBritannia,
        GameFamily::Attila,
        GameFamily::Rome2,
        GameFamily::Shogun2,
        GameFamily::Napoleon,
        GameFamily::Empire,
    ] {
        let opts = setup_launch_options(family, true);
        assert!(!opts.logging && !opts.skip_intro && !opts.unit_multiplier);
        assert!(opts.merge_all);
    }
}

#[test]
fn pre_launch_transforms_are_independently_gated() {
    let opts = setup_launch_options(GameFamily::Warhammer3, true);
    assert!(prepare_script_logging(&opts, true));
    assert!(!prepare_script_logging(&opts, false));
    assert!(prepare_skip_intro_videos(&opts, true));
    // The unit-scale patch is a no-op at the neutral multiplier.
    assert!(!prepare_unit_multiplier(&opts, 1000));
    assert!(prepare_unit_multiplier(&opts, 1500));
    let troy = setup_launch_options(GameFamily::Troy, true);
    assert!(!prepare_script_logging(&troy, true));
    assert!(!prepare_unit_multiplier(&troy, 1500));
}

#[test]
fn unset_unit_multiplier_defaults_to_neutral() {
    assert_eq!(effective_unit_multiplier(0), 1000);
    assert_eq!(effective_unit_multiplier(1250), 1250);
}

#[test]
fn assembly_fails_on_the_first_missing_backing_file() {
    // Enabled order [X, Y]; Y's backing file has been deleted: assembly
    // fails naming Y and stages nothing.
    let c = config_with_enabled(&[("X", "mods/x.pack"), ("Y", "mods/y.pack")]);
    let mut files = FileStore::new();
    files.put(b"mods/x.pack".to_vec(), b"xdata".to_vec());
    let opts = setup_launch_options(GameFamily::Warhammer3, true);
    let mut staging = FileStore::new();
    let err = assemble(
        &c, &opts, true, true, false, 1000, &files, &mut staging, b"stage/wh3".to_vec(),
    )
    .unwrap_err();
    assert_eq!(err, CoreError::MissingMod { id: b"Y".to_vec() });
    assert!(staging.files.is_empty());
}

#[test]
fn assembly_stages_every_pack_under_the_staging_directory() {
    let c = config_with_enabled(&[("X", "mods/x.pack"), ("Y", "mods/y.pack")]);
    let mut files = FileStore::new();
    files.put(b"mods/x.pack".to_vec(), b"xdata".to_vec());
    files.put(b"mods/y.pack".to_vec(), b"ydata".to_vec());
    let opts = setup_launch_options(GameFamily::Warhammer3, true);
    let mut staging = FileStore::new();
    let plan = assemble(
        &c, &opts, true, false, true, 1500, &files, &mut staging, b"stage/wh3".to_vec(),
    )
    .unwrap();
    assert_eq!(plan.order, vec![b"X".to_vec(), b"Y".to_vec()]);
    assert_eq!(
        plan.pack_paths,
        vec![b"mods/x.pack".to_vec(), b"mods/y.pack".to_vec()]
    );
    assert!(plan.inject_script_logging);
    assert!(!plan.inject_intro_skip);
    assert!(plan.apply_unit_multiplier);
    assert!(plan.merge_all);
    assert_eq!(staging.get(b"stage/wh3/x.pack").unwrap(), &b"xdata".to_vec());
    assert_eq!(staging.get(b"stage/wh3/y.pack").unwrap(), &b"ydata".to_vec());
}

#[test]
fn planning_alone_never_stages() {
    let c = config_with_enabled(&[("X", "mods/x.pack")]);
    let mut files = FileStore::new();
    files.put(b"mods/x.pack".to_vec(), b"xdata".to_vec());
    let opts = setup_launch_options(GameFamily::Empire, false);
    let plan = plan_assembly(&c, &opts, false, false, false, 0, &files, b"stage/emp".to_vec())
        .unwrap();
    assert_eq!(plan.order, vec![b"X".to_vec()]);
    assert!(!plan.merge_all);
}

#[test]
fn base_name_strips_directories() {
    assert_eq!(base_name_of(b"a/b/c.pack"), b"c.pack".to_vec());
    assert_eq!(base_name_of(b"C:\\mods\\m.pack"), b"m.pack".to_vec());
    assert_eq!(base_name_of(b"plain.pack"), b"plain.pack".to_vec());
}

#[test]
fn bbcode_becomes_html() {
    let html = parse_to_html(b"[h1]Title[/h1]\n[b]bold[/b] and [i]italic[/i]");
    assert_eq!(
        html,
        b"<html><h1>Title</h1><br/><b>bold</b> and <i>italic</i></html>".to_vec()
    );
}

#[test]
fn bbcode_lists_and_tables_convert() {
    let html = parse_to_html(b"[list][*]one[*]two[/list]");
    assert_eq!(
        html,
        b"<html><ul></li><li>one</li><li>two</ul></html>".to_vec()
    );
}

#[test]
fn url_tags_go_through_the_tag_rewriter() {
    // The url pass must actually transform the wrapped text; handing it back
    // unchanged would leave the [url=..]..[/url] tags in place.
    let html = parse_to_html(b"[url=https://example.invalid]here[/url]");
    assert_eq!(
        html,
        b"<html><url src='\\2>\\4</url></html>".to_vec()
    );
}

#[test]
fn image_tags_produce_quoted_sources() {
    let html = parse_to_html(b"[img]http://example.invalid/p.png[/img]");
    assert_eq!(
        html,
        b"<html><img src=\"http://example.invalid/p.png\"/></html>".to_vec()
    );
}

#[test]
fn plain_text_is_only_wrapped() {
    assert_eq!(parse_to_html(b"hello"), b"<html>hello</html>".to_vec());
    assert_eq!(parse_to_html(b""), b"<html></html>".to_vec());
}
