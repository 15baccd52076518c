//! The package assembly pipeline: from a well-formed configuration and its
//! resolved enabled order to the staging work the launcher performs before
//! starting the game. Assembly is all-or-nothing: a missing backing file
//! aborts it with `MissingModError` naming the id, and nothing is staged.
//! Game-specific pre-launch transforms (script logging, intro skip, unit
//! multiplier, merge-all-mods) are decided here per game family; the opaque
//! package codec and the staging directory writes are carried out by the
//! launcher shell, replaying the plan.

use vstd::prelude::*;

use crate::error::CoreError;
use crate::game_config::{
    has_mod, lemma_mod_index_unique, lemma_resolve_order_invariants, mod_enabled, mod_index,
    resolve_order_spec, GameConfig, GameConfigView,
};
use crate::mods::base_name;
use crate::store::FileStore;
use crate::text::copy_range;

verus! {

/// The supported game families; pre-launch transforms are resolved per
/// family once at game-selection time.
#[derive(Clone, Copy, Debug, PartialEq, Eq, Structural)]
pub enum GameFamily {
    Warhammer3,
    Warhammer2,
    Warhammer,
    Troy,
    ThreeKingdoms,
    ThronesOfBritannia,
    Attila,
    Rome2,
    Shogun2,
    Napoleon,
    Empire,
}

/// Which launch options a game family supports.
#[derive(Clone, Copy, Debug, PartialEq, Eq, Structural)]
pub struct LaunchOptions {
    pub logging: bool,
    pub skip_intro: bool,
    pub merge_all: bool,
    pub unit_multiplier: bool,
}

/// Capability table: script-logging injection is supported on the newest
/// family only.
pub fn supports_script_logging(family: GameFamily) -> (r: bool)
    ensures
        r == (family == GameFamily::Warhammer3),
{
    matches!(family, GameFamily::Warhammer3)
}

/// Capability table: the intro-skip stub is supported on the newest family
/// only.
pub fn supports_skip_intro(family: GameFamily) -> (r: bool)
    ensures
        r == (family == GameFamily::Warhammer3),
{
    matches!(family, GameFamily::Warhammer3)
}

/// Capability table: merge-all-mods consolidation works on every family.
pub fn supports_merge_all(family: GameFamily) -> (r: bool)
    ensures
        r == true,
{
    true
}

/// Resolves the launch options once per selected game: what the family
/// supports, with the unit-scale patch additionally needing a loaded schema.
pub fn setup_launch_options(family: GameFamily, schema_present: bool) -> (r: LaunchOptions)
    ensures
        r.logging == (family == GameFamily::Warhammer3),
        r.skip_intro == (family == GameFamily::Warhammer3),
        r.merge_all == true,
        r.unit_multiplier == (family == GameFamily::Warhammer3 && schema_present),
{
    LaunchOptions {
        logging: supports_script_logging(family),
        skip_intro: supports_skip_intro(family),
        merge_all: supports_merge_all(family),
        unit_multiplier: supports_script_logging(family) && schema_present,
    }
}

/// The unit-scale multiplier, in thousandths; a stored zero means "unset"
/// and defaults to the neutral 1.000.
pub fn effective_unit_multiplier(stored_milli: u64) -> (r: u64)
    ensures
        r == (if stored_milli == 0 {
            1000u64
        } else {
            stored_milli
        }),
{
    if stored_milli == 0 {
        1000
    } else {
        stored_milli
    }
}

/// Whether the unit-scale patch runs: the option must be available (family
/// support plus a loaded schema) and the multiplier must not be neutral.
pub fn prepare_unit_multiplier(options: &LaunchOptions, multiplier_milli: u64) -> (r: bool)
    ensures
        r == (options.unit_multiplier && multiplier_milli != 1000),
{
    options.unit_multiplier && multiplier_milli != 1000
}

/// Whether script logging is injected: available for the family and switched
/// on.
pub fn prepare_script_logging(options: &LaunchOptions, checked: bool) -> (r: bool)
    ensures
        r == (options.logging && checked),
{
    options.logging && checked
}

/// Whether the intro-skip stubs are injected: available for the family and
/// switched on.
pub fn prepare_skip_intro_videos(options: &LaunchOptions, checked: bool) -> (r: bool)
    ensures
        r == (options.skip_intro && checked),
{
    options.skip_intro && checked
}

/// Everything the launcher shell needs to stage one launch: the resolved
/// order, each mod's backing file, the per-game staging directory and the
/// transforms to apply.
#[derive(Debug)]
pub struct AssemblyPlan {
    pub order: Vec<Vec<u8>>,
    pub pack_paths: Vec<Vec<u8>>,
    pub staging_dir: Vec<u8>,
    pub inject_script_logging: bool,
    pub inject_intro_skip: bool,
    pub apply_unit_multiplier: bool,
    pub merge_all: bool,
}

/// The backing file of the mod with the given id.
pub open spec fn path_of(c: GameConfigView, id: Seq<u8>) -> Seq<u8> {
    c.mods[mod_index(c.mods, id)].path
}

/// Index of the first entry of `order` whose backing file is missing from
/// `fm`, or `order.len()` if every file is present.
pub open spec fn first_missing(c: GameConfigView, fm: Map<Seq<u8>, Seq<u8>>, order: Seq<Seq<u8>>)
    -> int
    decreases order.len(),
{
    if order.len() == 0 {
        0
    } else if !fm.contains_key(path_of(c, order[0])) {
        0
    } else {
        1 + first_missing(c, fm, order.drop_first())
    }
}

/// `first_missing` is the unique index with the scanning properties.
pub proof fn lemma_first_missing_char(
    c: GameConfigView,
    fm: Map<Seq<u8>, Seq<u8>>,
    order: Seq<Seq<u8>>,
    n: int,
)
    requires
        0 <= n <= order.len(),
        forall|i: int| 0 <= i < n ==> fm.contains_key(path_of(c, #[trigger] order[i])),
        n < order.len() ==> !fm.contains_key(path_of(c, order[n])),
    ensures
        first_missing(c, fm, order) == n,
    decreases order.len(),
{
    if order.len() > 0 && fm.contains_key(path_of(c, order[0])) {
        assert forall|i: int| 0 <= i < n - 1 implies fm.contains_key(
            path_of(c, #[trigger] order.drop_first()[i]),
        ) by {
            assert(order.drop_first()[i] == order[i + 1]);
        }
        assert(n - 1 < order.drop_first().len() ==> !fm.contains_key(
            path_of(c, order.drop_first()[n - 1]),
        ));
        lemma_first_missing_char(c, fm, order.drop_first(), n - 1);
    }
}

/// Validates and plans one assembly. Every id of the resolved enabled order
/// must name an existing backing file in `files`; the first missing one
/// aborts with `MissingModError` carrying its id, and nothing is staged.
pub fn plan_assembly(
    config: &GameConfig,
    options: &LaunchOptions,
    logging_checked: bool,
    skip_intro_checked: bool,
    merge_all_checked: bool,
    multiplier_milli: u64,
    files: &FileStore,
    staging_dir: Vec<u8>,
) -> (r: Result<AssemblyPlan, CoreError>)
    requires
        config@.wf(),
    ensures
        ({
            let order = resolve_order_spec(config@);
            let miss = first_missing(config@, files@, order);
            &&& miss < order.len() ==> ((r matches Err(CoreError::MissingMod { id })) && {
                let id = r->Err_0->MissingMod_id;
                id@ == order[miss]
            })
            &&& miss >= order.len() ==> ((r matches Ok(p)) && {
                let p = r->Ok_0;
                &&& p.order.deep_view() == order
                &&& p.pack_paths.deep_view() == Seq::new(
                    order.len(),
                    |i: int| path_of(config@, order[i]),
                )
                &&& p.staging_dir@ == staging_dir@
                &&& p.inject_script_logging == (options.logging && logging_checked)
                &&& p.inject_intro_skip == (options.skip_intro && skip_intro_checked)
                &&& p.apply_unit_multiplier == (options.unit_multiplier && multiplier_milli
                    != 1000)
                &&& p.merge_all == (options.merge_all && merge_all_checked)
            })
        }),
{
    let ghost v = config@;
    let order = config.resolve_enabled_order();
    let ghost ord = resolve_order_spec(v);
    proof {
        lemma_resolve_order_invariants(v);
    }
    let mut pack_paths: Vec<Vec<u8>> = Vec::new();
    let mut i: usize = 0;
    while i < order.len()
        invariant
            config@ == v,
            v.wf(),
            order.deep_view() == ord,
            ord == resolve_order_spec(v),
            forall|t: int| 0 <= t < ord.len() ==> mod_enabled(v.mods, #[trigger] ord[t]),
            i <= ord.len(),
            pack_paths.deep_view().len() == i,
            forall|t: int|
                0 <= t < i ==> #[trigger] pack_paths.deep_view()[t] == path_of(v, ord[t]),
            forall|t: int| 0 <= t < i ==> files@.contains_key(path_of(v, #[trigger] ord[t])),
        decreases order.len() - i,
    {
        let id = &order[i];
        proof {
            assert(id.deep_view() =~= id@);
            assert(id.deep_view() == ord[i as int]);
            assert(mod_enabled(v.mods, ord[i as int]));
        }
        let mi = match config.find_mod_index(id.as_slice()) {
            None => {
                proof {
                    assert(has_mod(v.mods, ord[i as int]));
                    assert(false);
                }
                0
            },
            Some(mi) => mi,
        };
        proof {
            lemma_mod_index_unique(v.mods, ord[i as int], mi as int);
        }
        let path = &config.mods[mi].path;
        if !files.contains(path.as_slice()) {
            proof {
                assert(path@ == path_of(v, ord[i as int]));
                lemma_first_missing_char(v, files@, ord, i as int);
            }
            let missing = copy_range(id.as_slice(), 0, id.len());
            proof {
                assert(missing@ =~= ord[i as int]);
            }
            return Err(CoreError::MissingMod { id: missing });
        }
        let ghost pre = pack_paths.deep_view();
        let kept = copy_range(path.as_slice(), 0, path.len());
        proof {
            assert(kept@ =~= path@);
            assert(kept.deep_view() =~= kept@);
        }
        pack_paths.push(kept);
        proof {
            assert(pack_paths.deep_view() =~= pre.push(path_of(v, ord[i as int])));
        }
        i += 1;
    }
    proof {
        lemma_first_missing_char(v, files@, ord, ord.len() as int);
        assert(pack_paths.deep_view() =~= Seq::new(ord.len(), |t: int| path_of(v, ord[t])));
    }
    let logging = prepare_script_logging(options, logging_checked);
    let skip = prepare_skip_intro_videos(options, skip_intro_checked);
    let unit = prepare_unit_multiplier(options, multiplier_milli);
    Ok(
        AssemblyPlan {
            order,
            pack_paths,
            staging_dir,
            inject_script_logging: logging,
            inject_intro_skip: skip,
            apply_unit_multiplier: unit,
            merge_all: options.merge_all && merge_all_checked,
        },
    )
}

/// Where one pack lands in the staging directory: under its own file name.
pub open spec fn stage_key(staging_dir: Seq<u8>, path: Seq<u8>) -> Seq<u8> {
    staging_dir + seq![47u8] + base_name(path)
}

/// The staging store after the first `t` packs were copied in.
pub open spec fn staged_map(
    st: Map<Seq<u8>, Seq<u8>>,
    fm: Map<Seq<u8>, Seq<u8>>,
    dir: Seq<u8>,
    paths: Seq<Seq<u8>>,
    t: int,
) -> Map<Seq<u8>, Seq<u8>>
    decreases t,
{
    if t <= 0 {
        st
    } else {
        staged_map(st, fm, dir, paths, t - 1).insert(stage_key(dir, paths[t - 1]), fm[paths[t - 1]])
    }
}

/// The part of a path after its last separator, as bytes.
pub fn base_name_of(p: &[u8]) -> (r: Vec<u8>)
    ensures
        r@ == base_name(p@),
{
    let mut j: usize = p.len();
    while j > 0 && !(p[j - 1] == 47 || p[j - 1] == 92)
        invariant
            j <= p@.len(),
            forall|i: int| j <= i < p@.len() ==> !crate::mods::is_sep(p@[i]),
        decreases j,
    {
        j -= 1;
    }
    proof {
        crate::mods::lemma_base_name_char(p@, j as int);
    }
    copy_range(p, j, p.len())
}

/// Copies every planned pack into the staging store, each under its file
/// name in the staging directory. Fails with `MissingModError` — staging
/// nothing — if a backing file vanished since planning.
pub fn stage_plan(staging: &mut FileStore, plan: &AssemblyPlan, files: &FileStore) -> (r: Result<
    (),
    CoreError,
>)
    requires
        old(staging).wf(),
        files.wf(),
        plan.order.deep_view().len() == plan.pack_paths.deep_view().len(),
    ensures
        final(staging).wf(),
        (forall|i: int|
            0 <= i < plan.pack_paths.deep_view().len() ==> files@.contains_key(
                #[trigger] plan.pack_paths.deep_view()[i],
            )) ==> ((r matches Ok(())) && final(staging)@ == staged_map(
            old(staging)@,
            files@,
            plan.staging_dir@,
            plan.pack_paths.deep_view(),
            plan.pack_paths.deep_view().len() as int,
        )),
        !(forall|i: int|
            0 <= i < plan.pack_paths.deep_view().len() ==> files@.contains_key(
                #[trigger] plan.pack_paths.deep_view()[i],
            )) ==> ((r matches Err(CoreError::MissingMod { .. })) && final(staging)@ == old(
            staging,
        )@),
{
    let ghost paths = plan.pack_paths.deep_view();
    // Validate first, so a failure stages nothing.
    let mut i: usize = 0;
    while i < plan.pack_paths.len()
        invariant
            paths == plan.pack_paths.deep_view(),
            plan.order.deep_view().len() == paths.len(),
            staging.wf(),
            staging@ == old(staging)@,
            i <= paths.len(),
            forall|t: int| 0 <= t < i ==> files@.contains_key(#[trigger] paths[t]),
        decreases plan.pack_paths.len() - i,
    {
        let path = &plan.pack_paths[i];
        proof {
            assert(path.deep_view() =~= path@);
            assert(path.deep_view() == paths[i as int]);
        }
        if !files.contains(path.as_slice()) {
            let id = &plan.order[i];
            let missing = copy_range(id.as_slice(), 0, id.len());
            return Err(CoreError::MissingMod { id: missing });
        }
        i += 1;
    }
    // Copy.
    let ghost st0 = staging@;
    let mut t: usize = 0;
    while t < plan.pack_paths.len()
        invariant
            paths == plan.pack_paths.deep_view(),
            files.wf(),
            staging.wf(),
            t <= paths.len(),
            forall|x: int| 0 <= x < paths.len() ==> files@.contains_key(#[trigger] paths[x]),
            staging@ == staged_map(st0, files@, plan.staging_dir@, paths, t as int),
        decreases plan.pack_paths.len() - t,
    {
        let path = &plan.pack_paths[t];
        proof {
            assert(path.deep_view() =~= path@);
            assert(path.deep_view() == paths[t as int]);
        }
        let content = match files.get(path.as_slice()) {
            None => {
                proof {
                    assert(false);
                }
                return Err(CoreError::Codec);
            },
            Some(c) => c,
        };
        let mut key = copy_range(plan.staging_dir.as_slice(), 0, plan.staging_dir.len());
        key.push(47);
        let mut base = base_name_of(path.as_slice());
        key.append(&mut base);
        proof {
            assert(key@ =~= stage_key(plan.staging_dir@, paths[t as int]));
        }
        let copied = copy_range(content.as_slice(), 0, content.len());
        proof {
            assert(copied@ =~= files@[paths[t as int]]);
        }
        staging.put(key, copied);
        t += 1;
    }
    Ok(())
}

/// Plans and stages one assembly in a single all-or-nothing step: on any
/// failure the staging store is left untouched and no plan is returned.
pub fn assemble(
    config: &GameConfig,
    options: &LaunchOptions,
    logging_checked: bool,
    skip_intro_checked: bool,
    merge_all_checked: bool,
    multiplier_milli: u64,
    files: &FileStore,
    staging: &mut FileStore,
    staging_dir: Vec<u8>,
) -> (r: Result<AssemblyPlan, CoreError>)
    requires
        config@.wf(),
        files.wf(),
        old(staging).wf(),
    ensures
        final(staging).wf(),
        ({
            let order = resolve_order_spec(config@);
            let miss = first_missing(config@, files@, order);
            &&& miss < order.len() ==> ((r matches Err(CoreError::MissingMod { id })) && {
                let id = r->Err_0->MissingMod_id;
                id@ == order[miss]
            } && final(staging)@ == old(staging)@)
            &&& miss >= order.len() ==> ((r matches Ok(p)) && {
                let p = r->Ok_0;
                let pack_paths = Seq::new(order.len(), |i: int| path_of(config@, order[i]));
                &&& p.order.deep_view() == order
                &&& p.pack_paths.deep_view() == pack_paths
                &&& final(staging)@ == staged_map(
                    old(staging)@,
                    files@,
                    staging_dir@,
                    pack_paths,
                    order.len() as int,
                )
            })
        }),
{
    let plan = match plan_assembly(
        config,
        options,
        logging_checked,
        skip_intro_checked,
        merge_all_checked,
        multiplier_milli,
        files,
        staging_dir,
    ) {
        Err(e) => {
            return Err(e);
        },
        Ok(p) => p,
    };
    proof {
        let order = resolve_order_spec(config@);
        assert forall|i: int| 0 <= i < plan.pack_paths.deep_view().len() implies files@.contains_key(
            #[trigger] plan.pack_paths.deep_view()[i],
        ) by {
            assert(plan.pack_paths.deep_view()[i] == path_of(config@, order[i]));
            lemma_first_missing_char_inverse(config@, files@, order, i);
        }
    }
    let staged = stage_plan(staging, &plan, files);
    proof {
        assert(staged matches Ok(()));
    }
    Ok(plan)
}

/// When nothing is missing, every backing file of the order is present.
pub proof fn lemma_first_missing_char_inverse(
    c: GameConfigView,
    fm: Map<Seq<u8>, Seq<u8>>,
    order: Seq<Seq<u8>>,
    i: int,
)
    requires
        first_missing(c, fm, order) >= order.len(),
        0 <= i < order.len(),
    ensures
        fm.contains_key(path_of(c, order[i])),
    decreases order.len(),
{
    if order.len() > 0 {
        if !fm.contains_key(path_of(c, order[0])) {
            assert(first_missing(c, fm, order) == 0);
        } else if i > 0 {
            assert(order.drop_first()[i - 1] == order[i]);
            lemma_first_missing_char_inverse(c, fm, order.drop_first(), i - 1);
        }
    }
}

} // verus!
