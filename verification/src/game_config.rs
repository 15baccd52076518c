//! The per-game aggregate: the set of known mods, the user-defined categories
//! with their explicit ordering, and the last-known load order. The reserved
//! "Unassigned" category always exists, first in display order; every mod is
//! listed in exactly one category at exactly one position, and the load order
//! names only existing, enabled mods, each at most once.

use vstd::prelude::*;
use vstd::string::StringSliceAdditionalSpecFns;

use crate::error::CoreError;
use crate::mods::{Mod, ModView};
use crate::text::{bytes_eq, copy_range};

verus! {

/// Abstract value of a [`Category`].
#[verifier::ext_equal]
pub struct CategoryView {
    pub name: Seq<u8>,
    pub mod_ids: Seq<Seq<u8>>,
}

/// A user-defined named bucket of mods, ordered.
#[derive(Debug)]
pub struct Category {
    pub name: Vec<u8>,
    pub mod_ids: Vec<Vec<u8>>,
}

impl View for Category {
    type V = CategoryView;

    open spec fn view(&self) -> CategoryView {
        CategoryView { name: self.name@, mod_ids: self.mod_ids.deep_view() }
    }
}

impl DeepView for Category {
    type V = CategoryView;

    open spec fn deep_view(&self) -> CategoryView {
        self.view()
    }
}

impl DeepView for Mod {
    type V = ModView;

    open spec fn deep_view(&self) -> ModView {
        self.view()
    }
}

/// Abstract value of a [`GameConfig`].
#[verifier::ext_equal]
pub struct GameConfigView {
    pub mods: Seq<ModView>,
    pub categories: Seq<CategoryView>,
    pub load_order: Seq<Seq<u8>>,
}

/// Per-game snapshot: mods, categories in display order, last-known load
/// order.
#[derive(Debug)]
pub struct GameConfig {
    pub mods: Vec<Mod>,
    pub categories: Vec<Category>,
    pub load_order: Vec<Vec<u8>>,
}

impl View for GameConfig {
    type V = GameConfigView;

    open spec fn view(&self) -> GameConfigView {
        GameConfigView {
            mods: self.mods.deep_view(),
            categories: self.categories.deep_view(),
            load_order: self.load_order.deep_view(),
        }
    }
}

/// Name of the reserved category.
pub open spec fn unassigned() -> Seq<u8> {
    "Unassigned".spec_bytes()
}

pub open spec fn ids_unique(mods: Seq<ModView>) -> bool {
    forall|i: int, j: int| 0 <= i < j < mods.len() ==> mods[i].id != mods[j].id
}

pub open spec fn has_mod(mods: Seq<ModView>, id: Seq<u8>) -> bool {
    exists|i: int| 0 <= i < mods.len() && mods[i].id == id
}

/// Index of the mod with the given id; meaningful when `has_mod` holds.
pub open spec fn mod_index(mods: Seq<ModView>, id: Seq<u8>) -> int {
    choose|i: int| 0 <= i < mods.len() && mods[i].id == id
}

pub open spec fn mod_enabled(mods: Seq<ModView>, id: Seq<u8>) -> bool {
    has_mod(mods, id) && mods[mod_index(mods, id)].enabled
}

pub open spec fn cat_names_unique(cats: Seq<CategoryView>) -> bool {
    forall|i: int, j: int| 0 <= i < j < cats.len() ==> cats[i].name != cats[j].name
}

pub open spec fn has_cat(cats: Seq<CategoryView>, name: Seq<u8>) -> bool {
    exists|i: int| 0 <= i < cats.len() && cats[i].name == name
}

/// Index of the category with the given name; meaningful when `has_cat` holds.
pub open spec fn cat_index(cats: Seq<CategoryView>, name: Seq<u8>) -> int {
    choose|i: int| 0 <= i < cats.len() && cats[i].name == name
}

/// The id is listed somewhere in the category table.
pub open spec fn listed(cats: Seq<CategoryView>, id: Seq<u8>) -> bool {
    exists|c: int, k: int|
        0 <= c < cats.len() && 0 <= k < cats[c].mod_ids.len() && cats[c].mod_ids[k] == id
}

/// No id occurs at two distinct positions of the category table.
pub open spec fn listings_distinct(cats: Seq<CategoryView>) -> bool {
    forall|c1: int, k1: int, c2: int, k2: int|
        0 <= c1 < cats.len() && 0 <= k1 < cats[c1].mod_ids.len() && 0 <= c2 < cats.len() && 0
            <= k2 < cats[c2].mod_ids.len() && #[trigger] cats[c1].mod_ids[k1]
            == #[trigger] cats[c2].mod_ids[k2] ==> c1 == c2 && k1 == k2
}

impl GameConfigView {
    /// Every id listed in a category belongs to a known mod.
    pub open spec fn listings_known(self) -> bool {
        forall|c: int, k: int|
            0 <= c < self.categories.len() && 0 <= k < self.categories[c].mod_ids.len()
                ==> has_mod(self.mods, #[trigger] self.categories[c].mod_ids[k])
    }

    /// Every known mod is listed in some category.
    pub open spec fn mods_listed(self) -> bool {
        forall|i: int|
            0 <= i < self.mods.len() ==> listed(self.categories, #[trigger] self.mods[i].id)
    }

    /// The load order names only existing, enabled mods.
    pub open spec fn load_order_enabled(self) -> bool {
        forall|i: int|
            0 <= i < self.load_order.len() ==> mod_enabled(self.mods, #[trigger] self.load_order[i])
    }

    pub open spec fn load_order_distinct(self) -> bool {
        forall|i: int, j: int|
            0 <= i < j < self.load_order.len() ==> self.load_order[i] != self.load_order[j]
    }

    /// Well-formedness invariant: constructors establish it, every operation
    /// preserves it.
    pub open spec fn wf(self) -> bool {
        &&& ids_unique(self.mods)
        &&& self.categories.len() >= 1
        &&& self.categories[0].name == unassigned()
        &&& cat_names_unique(self.categories)
        &&& self.listings_known()
        &&& listings_distinct(self.categories)
        &&& self.mods_listed()
        &&& self.load_order_enabled()
        &&& self.load_order_distinct()
    }
}

/// The load order without the entries equal to `id`, order kept.
pub open spec fn without_id(lo: Seq<Seq<u8>>, id: Seq<u8>) -> Seq<Seq<u8>>
    decreases lo.len(),
{
    if lo.len() == 0 {
        lo
    } else if lo.last() == id {
        without_id(lo.drop_last(), id)
    } else {
        without_id(lo.drop_last(), id).push(lo.last())
    }
}

/// Every entry of `without_id` comes from `lo` and none equals `id`.
pub proof fn lemma_without_id(lo: Seq<Seq<u8>>, id: Seq<u8>)
    ensures
        forall|t: int|
            0 <= t < without_id(lo, id).len() ==> #[trigger] without_id(lo, id)[t] != id,
        forall|t: int|
            0 <= t < without_id(lo, id).len() ==> exists|s: int|
                0 <= s < lo.len() && lo[s] == #[trigger] without_id(lo, id)[t],
    decreases lo.len(),
{
    if lo.len() > 0 {
        lemma_without_id(lo.drop_last(), id);
        let f = without_id(lo, id);
        let fd = without_id(lo.drop_last(), id);
        assert forall|t: int| 0 <= t < f.len() implies exists|s: int|
            0 <= s < lo.len() && lo[s] == #[trigger] f[t] by {
            if lo.last() != id && t == f.len() - 1 {
                assert(lo[lo.len() - 1] == f[t]);
            } else {
                assert(f[t] == fd[t]);
                let s = choose|s: int| 0 <= s < lo.drop_last().len() && lo.drop_last()[s] == fd[t];
                assert(lo[s] == f[t]);
            }
        }
    }
}

/// Removing an id from a duplicate-free sequence keeps it duplicate-free.
pub proof fn lemma_without_id_distinct(lo: Seq<Seq<u8>>, id: Seq<u8>)
    requires
        forall|s1: int, s2: int| 0 <= s1 < s2 < lo.len() ==> lo[s1] != lo[s2],
    ensures
        forall|t1: int, t2: int|
            0 <= t1 < t2 < without_id(lo, id).len() ==> without_id(lo, id)[t1] != without_id(
                lo,
                id,
            )[t2],
    decreases lo.len(),
{
    if lo.len() > 0 {
        assert(forall|s: int| 0 <= s < lo.drop_last().len() ==> lo.drop_last()[s] == lo[s]);
        lemma_without_id_distinct(lo.drop_last(), id);
        lemma_without_id(lo.drop_last(), id);
        let f = without_id(lo, id);
        let fd = without_id(lo.drop_last(), id);
        assert forall|t1: int, t2: int| 0 <= t1 < t2 < f.len() implies f[t1] != f[t2] by {
            if lo.last() != id && t2 == f.len() - 1 {
                assert(f[t1] == fd[t1]);
                let s = choose|s: int|
                    0 <= s < lo.drop_last().len() && lo.drop_last()[s] == fd[t1];
                assert(lo[s] == f[t1]);
                assert(lo[lo.len() - 1] == f[t2]);
            } else {
                assert(f[t1] == fd[t1] && f[t2] == fd[t2]);
            }
        }
    }
}

/// Position of the unique listing of `id`; meaningful when `listed` holds.
pub open spec fn listing_pos(cats: Seq<CategoryView>, id: Seq<u8>) -> (int, int) {
    choose|c: int, k: int|
        0 <= c < cats.len() && 0 <= k < cats[c].mod_ids.len() && cats[c].mod_ids[k] == id
}

/// The category table after moving one listing: the id leaves position
/// `(sc, sk)` and enters category `tc` at `idx`, clamped to its length.
pub open spec fn move_listing(
    cats: Seq<CategoryView>,
    sc: int,
    sk: int,
    tc: int,
    idx: int,
    id: Seq<u8>,
) -> Seq<CategoryView> {
    let stripped = cats.update(
        sc,
        CategoryView { name: cats[sc].name, mod_ids: cats[sc].mod_ids.remove(sk) },
    );
    let pos = if idx < stripped[tc].mod_ids.len() {
        idx
    } else {
        stripped[tc].mod_ids.len() as int
    };
    stripped.update(
        tc,
        CategoryView { name: stripped[tc].name, mod_ids: stripped[tc].mod_ids.insert(pos, id) },
    )
}

/// The ids of one category's list that belong to enabled mods, order kept.
pub open spec fn filter_enabled(mods: Seq<ModView>, ids: Seq<Seq<u8>>) -> Seq<Seq<u8>>
    decreases ids.len(),
{
    if ids.len() == 0 {
        Seq::empty()
    } else if mod_enabled(mods, ids.last()) {
        filter_enabled(mods, ids.drop_last()).push(ids.last())
    } else {
        filter_enabled(mods, ids.drop_last())
    }
}

/// The resolved order contributed by the first `ci` categories.
pub open spec fn resolve_upto(c: GameConfigView, ci: int) -> Seq<Seq<u8>>
    decreases ci,
{
    if ci <= 0 {
        Seq::empty()
    } else {
        resolve_upto(c, ci - 1) + filter_enabled(c.mods, c.categories[ci - 1].mod_ids)
    }
}

/// The deterministic enabled order: all enabled mods, categories in display
/// order, each category's stored order kept.
pub open spec fn resolve_order_spec(c: GameConfigView) -> Seq<Seq<u8>> {
    resolve_upto(c, c.categories.len() as int)
}

/// Entries of `filter_enabled` are enabled and drawn from `ids`.
pub proof fn lemma_filter_enabled_props(mods: Seq<ModView>, ids: Seq<Seq<u8>>)
    ensures
        forall|t: int|
            0 <= t < filter_enabled(mods, ids).len() ==> mod_enabled(
                mods,
                #[trigger] filter_enabled(mods, ids)[t],
            ),
        forall|t: int|
            0 <= t < filter_enabled(mods, ids).len() ==> exists|k: int|
                0 <= k < ids.len() && ids[k] == #[trigger] filter_enabled(mods, ids)[t],
    decreases ids.len(),
{
    if ids.len() > 0 {
        lemma_filter_enabled_props(mods, ids.drop_last());
        let f = filter_enabled(mods, ids);
        let fd = filter_enabled(mods, ids.drop_last());
        assert forall|t: int| 0 <= t < f.len() implies mod_enabled(mods, #[trigger] f[t])
            && exists|k: int| 0 <= k < ids.len() && ids[k] == f[t] by {
            if mod_enabled(mods, ids.last()) && t == f.len() - 1 {
                assert(ids[ids.len() - 1] == f[t]);
            } else {
                assert(f[t] == fd[t]);
                let k = choose|k: int|
                    0 <= k < ids.drop_last().len() && ids.drop_last()[k] == fd[t];
                assert(ids[k] == f[t]);
            }
        }
    }
}

/// An enabled entry of `ids` survives into `filter_enabled`.
pub proof fn lemma_filter_enabled_forward(mods: Seq<ModView>, ids: Seq<Seq<u8>>, k: int)
    requires
        0 <= k < ids.len(),
        mod_enabled(mods, ids[k]),
    ensures
        exists|t: int|
            0 <= t < filter_enabled(mods, ids).len() && filter_enabled(mods, ids)[t] == ids[k],
    decreases ids.len(),
{
    let f = filter_enabled(mods, ids);
    if k == ids.len() - 1 {
        assert(mod_enabled(mods, ids.last()));
        assert(f[f.len() - 1] == ids[k]);
    } else {
        assert(ids.drop_last()[k] == ids[k]);
        lemma_filter_enabled_forward(mods, ids.drop_last(), k);
        let fd = filter_enabled(mods, ids.drop_last());
        let t = choose|t: int| 0 <= t < fd.len() && fd[t] == ids[k];
        assert(f[t] == ids[k]);
    }
}

/// Filtering a duplicate-free list keeps it duplicate-free.
pub proof fn lemma_filter_enabled_distinct(mods: Seq<ModView>, ids: Seq<Seq<u8>>)
    requires
        forall|k1: int, k2: int| 0 <= k1 < k2 < ids.len() ==> ids[k1] != ids[k2],
    ensures
        forall|t1: int, t2: int|
            0 <= t1 < t2 < filter_enabled(mods, ids).len() ==> filter_enabled(mods, ids)[t1]
                != filter_enabled(mods, ids)[t2],
    decreases ids.len(),
{
    if ids.len() > 0 {
        assert(forall|k: int| 0 <= k < ids.drop_last().len() ==> ids.drop_last()[k] == ids[k]);
        lemma_filter_enabled_distinct(mods, ids.drop_last());
        lemma_filter_enabled_props(mods, ids.drop_last());
        let f = filter_enabled(mods, ids);
        let fd = filter_enabled(mods, ids.drop_last());
        assert forall|t1: int, t2: int| 0 <= t1 < t2 < f.len() implies f[t1] != f[t2] by {
            if mod_enabled(mods, ids.last()) && t2 == f.len() - 1 {
                assert(f[t1] == fd[t1]);
                let k = choose|k: int|
                    0 <= k < ids.drop_last().len() && ids.drop_last()[k] == fd[t1];
                assert(ids[k] == f[t1]);
                assert(ids[ids.len() - 1] == f[t2]);
            } else {
                assert(f[t1] == fd[t1] && f[t2] == fd[t2]);
            }
        }
    }
}

/// On a well-formed configuration the resolved prefix names only enabled
/// mods, never twice, and every entry is listed in one of the first `ci`
/// categories.
pub proof fn lemma_resolve_upto_props(c: GameConfigView, ci: int)
    requires
        c.wf(),
        0 <= ci <= c.categories.len(),
    ensures
        forall|t: int|
            0 <= t < resolve_upto(c, ci).len() ==> mod_enabled(
                c.mods,
                #[trigger] resolve_upto(c, ci)[t],
            ),
        forall|t: int|
            0 <= t < resolve_upto(c, ci).len() ==> exists|cc: int, k: int|
                0 <= cc < ci && 0 <= k < c.categories[cc].mod_ids.len()
                    && c.categories[cc].mod_ids[k] == #[trigger] resolve_upto(c, ci)[t],
        forall|t1: int, t2: int|
            0 <= t1 < t2 < resolve_upto(c, ci).len() ==> resolve_upto(c, ci)[t1] != resolve_upto(
                c,
                ci,
            )[t2],
    decreases ci,
{
    if ci > 0 {
        lemma_resolve_upto_props(c, ci - 1);
        let prev = resolve_upto(c, ci - 1);
        let ids = c.categories[ci - 1].mod_ids;
        let block = filter_enabled(c.mods, ids);
        let r = resolve_upto(c, ci);
        lemma_filter_enabled_props(c.mods, ids);
        assert(forall|k1: int, k2: int| 0 <= k1 < k2 < ids.len() ==> ids[k1] != ids[k2]) by {
            assert forall|k1: int, k2: int| 0 <= k1 < k2 < ids.len() implies ids[k1]
                != ids[k2] by {
                assert(c.categories[ci - 1].mod_ids[k1] == ids[k1]);
                assert(c.categories[ci - 1].mod_ids[k2] == ids[k2]);
            }
        }
        lemma_filter_enabled_distinct(c.mods, ids);
        assert forall|t: int| 0 <= t < r.len() implies mod_enabled(c.mods, #[trigger] r[t])
            && exists|cc: int, k: int|
            0 <= cc < ci && 0 <= k < c.categories[cc].mod_ids.len() && c.categories[cc].mod_ids[k]
                == r[t] by {
            if t < prev.len() {
                assert(r[t] == prev[t]);
                let (cc, k) = choose|cc: int, k: int|
                    0 <= cc < ci - 1 && 0 <= k < c.categories[cc].mod_ids.len()
                        && c.categories[cc].mod_ids[k] == prev[t];
                assert(c.categories[cc].mod_ids[k] == r[t]);
            } else {
                assert(r[t] == block[t - prev.len()]);
                let k = choose|k: int| 0 <= k < ids.len() && ids[k] == block[t - prev.len()];
                assert(c.categories[ci - 1].mod_ids[k] == r[t]);
            }
        }
        assert forall|t1: int, t2: int| 0 <= t1 < t2 < r.len() implies r[t1] != r[t2] by {
            if t2 < prev.len() {
                assert(r[t1] == prev[t1] && r[t2] == prev[t2]);
            } else if t1 >= prev.len() {
                assert(r[t1] == block[t1 - prev.len()] && r[t2] == block[t2 - prev.len()]);
            } else {
                assert(r[t1] == prev[t1] && r[t2] == block[t2 - prev.len()]);
                if r[t1] == r[t2] {
                    let (cc, k) = choose|cc: int, k: int|
                        0 <= cc < ci - 1 && 0 <= k < c.categories[cc].mod_ids.len()
                            && c.categories[cc].mod_ids[k] == prev[t1];
                    let kb = choose|k: int|
                        0 <= k < ids.len() && ids[k] == block[t2 - prev.len()];
                    assert(c.categories[cc].mod_ids[k] == c.categories[ci - 1].mod_ids[kb]);
                }
            }
        }
    }
}

/// Law: on any well-formed configuration — in particular any one reachable
/// from the empty configuration through the category, move and enable
/// operations, which all preserve well-formedness — every mod is listed in
/// exactly one category position, and the resolved enabled order repeats no
/// id and names only enabled mods.
pub proof fn lemma_resolve_order_invariants(c: GameConfigView)
    requires
        c.wf(),
    ensures
        forall|i: int| 0 <= i < c.mods.len() ==> listed(c.categories, #[trigger] c.mods[i].id),
        listings_distinct(c.categories),
        forall|t: int|
            0 <= t < resolve_order_spec(c).len() ==> mod_enabled(
                c.mods,
                #[trigger] resolve_order_spec(c)[t],
            ),
        forall|t1: int, t2: int|
            0 <= t1 < t2 < resolve_order_spec(c).len() ==> resolve_order_spec(c)[t1]
                != resolve_order_spec(c)[t2],
{
    lemma_resolve_upto_props(c, c.categories.len() as int);
}

/// Law: resolving is idempotent — the resolved order is a function of the
/// configuration alone, so two resolutions without an intervening mutation
/// are the same sequence.
pub proof fn lemma_resolve_deterministic(c: GameConfigView, r1: Seq<Seq<u8>>, r2: Seq<Seq<u8>>)
    requires
        r1 == resolve_order_spec(c),
        r2 == resolve_order_spec(c),
    ensures
        r1 == r2,
{
}

/// The configuration after a new mod is registered: it joins the registry
/// and is listed at the end of the most recently added category. `None` when
/// the id is empty or taken, or no category exists to hold it.
pub open spec fn app_mod(c: GameConfigView, m: ModView) -> Option<GameConfigView> {
    if m.id.len() == 0 || has_mod(c.mods, m.id) || c.categories.len() == 0 {
        None
    } else {
        let last = c.categories.len() - 1;
        Some(
            GameConfigView {
                mods: c.mods.push(m),
                categories: c.categories.update(
                    last as int,
                    CategoryView {
                        name: c.categories[last as int].name,
                        mod_ids: c.categories[last as int].mod_ids.push(m.id),
                    },
                ),
                load_order: c.load_order,
            },
        )
    }
}

/// The configuration after an id is appended to the load order. `None` when
/// the id does not name an enabled mod or is already in the order.
pub open spec fn app_order(c: GameConfigView, id: Seq<u8>) -> Option<GameConfigView> {
    if !mod_enabled(c.mods, id) || (exists|i: int|
        0 <= i < c.load_order.len() && c.load_order[i] == id) {
        None
    } else {
        Some(GameConfigView { load_order: c.load_order.push(id), ..c })
    }
}

/// With unique names, `cat_index` is pinned down by any witness.
pub proof fn lemma_cat_index_unique(cats: Seq<CategoryView>, name: Seq<u8>, i: int)
    requires
        cat_names_unique(cats),
        0 <= i < cats.len(),
        cats[i].name == name,
    ensures
        has_cat(cats, name),
        cat_index(cats, name) == i,
{
    assert(has_cat(cats, name));
    let cc = cat_index(cats, name);
    assert(0 <= cc < cats.len() && cats[cc].name == name);
    if cc < i {
        assert(cats[cc].name != cats[i].name);
    } else if i < cc {
        assert(cats[i].name != cats[cc].name);
    }
}

/// With unique ids, `mod_index` is pinned down by any witness.
pub proof fn lemma_mod_index_unique(mods: Seq<ModView>, id: Seq<u8>, i: int)
    requires
        ids_unique(mods),
        0 <= i < mods.len(),
        mods[i].id == id,
    ensures
        has_mod(mods, id),
        mod_index(mods, id) == i,
{
    assert(has_mod(mods, id));
    let mi = mod_index(mods, id);
    assert(0 <= mi < mods.len() && mods[mi].id == id);
    if mi < i {
        assert(mods[mi].id != mods[i].id);
    } else if i < mi {
        assert(mods[i].id != mods[mi].id);
    }
}

/// The reserved category name as a byte string.
pub fn unassigned_name() -> (r: Vec<u8>)
    ensures
        r@ == unassigned(),
{
    vstd::slice::slice_to_vec("Unassigned".as_bytes())
}

impl GameConfig {
    /// The configuration a game starts from: no mods, no load order, only the
    /// reserved category.
    pub fn empty() -> (r: GameConfig)
        ensures
            r@.mods == Seq::<ModView>::empty(),
            r@.categories.len() == 1,
            r@.categories[0].name == unassigned(),
            r@.categories[0].mod_ids == Seq::<Seq<u8>>::empty(),
            r@.load_order == Seq::<Seq<u8>>::empty(),
            r@.wf(),
    {
        let mut categories: Vec<Category> = Vec::new();
        categories.push(Category { name: unassigned_name(), mod_ids: Vec::new() });
        let r = GameConfig { mods: Vec::new(), categories, load_order: Vec::new() };
        proof {
            assert(r@.mods =~= Seq::<ModView>::empty());
            assert(r@.load_order =~= Seq::<Seq<u8>>::empty());
            assert(r@.categories[0].mod_ids =~= Seq::<Seq<u8>>::empty());
        }
        r
    }

    /// Index of the mod with the given id, if any.
    pub fn find_mod_index(&self, id: &[u8]) -> (r: Option<usize>)
        ensures
            match r {
                Some(i) => i < self@.mods.len() && self@.mods[i as int].id == id@,
                None => !has_mod(self@.mods, id@),
            },
    {
        let mut i: usize = 0;
        while i < self.mods.len()
            invariant
                i <= self@.mods.len(),
                forall|j: int| 0 <= j < i ==> self@.mods[j].id != id@,
            decreases self.mods.len() - i,
        {
            if bytes_eq(self.mods[i].id.as_slice(), id) {
                return Some(i);
            }
            i += 1;
        }
        None
    }

    /// Index of the category with the given name, if any.
    pub fn find_category_index(&self, name: &[u8]) -> (r: Option<usize>)
        ensures
            match r {
                Some(i) => i < self@.categories.len() && self@.categories[i as int].name == name@,
                None => !has_cat(self@.categories, name@),
            },
    {
        let mut i: usize = 0;
        while i < self.categories.len()
            invariant
                i <= self@.categories.len(),
                forall|j: int| 0 <= j < i ==> self@.categories[j].name != name@,
            decreases self.categories.len() - i,
        {
            if bytes_eq(self.categories[i].name.as_slice(), name) {
                return Some(i);
            }
            i += 1;
        }
        None
    }

    /// Adds an empty category after the existing ones. Fails with
    /// `DuplicateNameError` when the name is taken or reserved, leaving the
    /// configuration unchanged.
    pub fn add_category(&mut self, name: Vec<u8>) -> (r: Result<(), CoreError>)
        requires
            old(self)@.wf(),
        ensures
            final(self)@.wf(),
            (name@ == unassigned() || has_cat(old(self)@.categories, name@)) ==> (
                r matches Err(CoreError::DuplicateName) && final(self)@ == old(self)@),
            !(name@ == unassigned() || has_cat(old(self)@.categories, name@)) ==> (
                r matches Ok(())
                && final(self)@.mods == old(self)@.mods
                && final(self)@.load_order == old(self)@.load_order
                && final(self)@.categories == old(self)@.categories.push(
                    CategoryView { name: name@, mod_ids: Seq::empty() },
                )),
    {
        let una = unassigned_name();
        if bytes_eq(name.as_slice(), una.as_slice()) {
            return Err(CoreError::DuplicateName);
        }
        if self.find_category_index(name.as_slice()).is_some() {
            return Err(CoreError::DuplicateName);
        }
        let ghost old_view = self@;
        let ghost new_name = name@;
        self.categories.push(Category { name, mod_ids: Vec::new() });
        proof {
            let newc = self@.categories;
            let oldc = old_view.categories;
            assert(newc =~~= oldc.push(CategoryView { name: new_name, mod_ids: Seq::empty() }));
            assert(self@.mods =~= old_view.mods);
            assert(self@.load_order =~= old_view.load_order);
            // Well-formedness: the new category is empty and freshly named.
            assert forall|i: int, j: int| 0 <= i < j < newc.len() implies newc[i].name
                != newc[j].name by {
                if j < newc.len() - 1 {
                    assert(oldc[i].name != oldc[j].name);
                }
            }
            assert(self@.listings_known());
            assert(listings_distinct(newc)) by {
                assert forall|c1: int, k1: int, c2: int, k2: int|
                    0 <= c1 < newc.len() && 0 <= k1 < newc[c1].mod_ids.len() && 0 <= c2
                        < newc.len() && 0 <= k2 < newc[c2].mod_ids.len()
                        && #[trigger] newc[c1].mod_ids[k1] == #[trigger] newc[c2].mod_ids[k2]
                    implies c1 == c2 && k1 == k2 by {
                    assert(c1 < oldc.len() && c2 < oldc.len());
                    assert(oldc[c1].mod_ids[k1] == oldc[c2].mod_ids[k2]);
                }
            }
            assert(self@.mods_listed()) by {
                assert forall|i: int| 0 <= i < self@.mods.len() implies listed(
                    newc,
                    #[trigger] self@.mods[i].id,
                ) by {
                    assert(listed(oldc, old_view.mods[i].id));
                    let (c, k) = choose|c: int, k: int|
                        0 <= c < oldc.len() && 0 <= k < oldc[c].mod_ids.len()
                            && oldc[c].mod_ids[k] == old_view.mods[i].id;
                    assert(newc[c].mod_ids[k] == self@.mods[i].id);
                }
            }
        }
        Ok(())
    }

    /// Deletes a user category: its mods move to the end of "Unassigned",
    /// keeping their relative order, and the category disappears. Fails with
    /// `NotFoundError` when the name is unknown or reserved, leaving the
    /// configuration unchanged.
    pub fn delete_category(&mut self, name: &[u8]) -> (r: Result<(), CoreError>)
        requires
            old(self)@.wf(),
        ensures
            final(self)@.wf(),
            (name@ == unassigned() || !has_cat(old(self)@.categories, name@)) ==> (
                (r matches Err(CoreError::NotFound)) && final(self)@ == old(self)@),
            !(name@ == unassigned() || !has_cat(old(self)@.categories, name@)) ==> ({
                let ci = cat_index(old(self)@.categories, name@);
                &&& r matches Ok(())
                &&& final(self)@.mods == old(self)@.mods
                &&& final(self)@.load_order == old(self)@.load_order
                &&& final(self)@.categories.len() == old(self)@.categories.len() - 1
                &&& final(self)@.categories[0].name == unassigned()
                &&& final(self)@.categories[0].mod_ids == old(self)@.categories[0].mod_ids
                    + old(self)@.categories[ci].mod_ids
                &&& forall|j: int|
                    1 <= j < final(self)@.categories.len() ==> final(self)@.categories[j] == (
                    if j < ci {
                        old(self)@.categories[j]
                    } else {
                        old(self)@.categories[j + 1]
                    })
            }),
    {
        let una = unassigned_name();
        if bytes_eq(name, una.as_slice()) {
            return Err(CoreError::NotFound);
        }
        let ci = match self.find_category_index(name) {
            None => {
                return Err(CoreError::NotFound);
            },
            Some(ci) => ci,
        };
        let ghost oldv = self@;
        proof {
            lemma_cat_index_unique(oldv.categories, name@, ci as int);
            assert(ci >= 1) by {
                if ci == 0 {
                    assert(oldv.categories[0].name == unassigned());
                }
            }
        }
        let removed = self.categories.remove(ci);
        let mut una_cat = self.categories.remove(0);
        let mut moved_ids = removed.mod_ids;
        una_cat.mod_ids.append(&mut moved_ids);
        self.categories.insert(0, una_cat);
        proof {
            let ci = ci as int;
            let oldc = oldv.categories;
            let newc = self@.categories;
            let n = oldc.len();
            assert(self@.mods == oldv.mods);
            assert(self@.load_order == oldv.load_order);
            assert(newc.len() == n - 1);
            // Index correspondence with the old table.
            assert(newc[0] =~~= (CategoryView {
                name: oldc[0].name,
                mod_ids: oldc[0].mod_ids + oldc[ci].mod_ids,
            }));
            assert forall|j: int| 1 <= j < newc.len() implies newc[j] == (
                if j < ci {
                    oldc[j]
                } else {
                    oldc[j + 1]
                }) by {
                if j < ci {
                    assert(newc[j] =~~= oldc[j]);
                } else {
                    assert(newc[j] =~~= oldc[j + 1]);
                }
            }
            // Names stay pairwise distinct: positions map injectively into the
            // old table, skipping `ci`.
            assert forall|i: int, j: int| 0 <= i < j < newc.len() implies newc[i].name
                != newc[j].name by {
                let oi: int = if i == 0 { 0 } else if i < ci { i } else { i + 1 };
                let oj: int = if j < ci { j } else { j + 1 };
                assert(newc[i].name == oldc[oi].name);
                assert(newc[j].name == oldc[oj].name);
                assert(oi < oj);
            }
            // Every listing still names a known mod.
            assert forall|c: int, k: int|
                0 <= c < newc.len() && 0 <= k < newc[c].mod_ids.len() implies has_mod(
                self@.mods,
                #[trigger] newc[c].mod_ids[k],
            ) by {
                if c == 0 {
                    if k < oldc[0].mod_ids.len() {
                        assert(newc[0].mod_ids[k] == oldc[0].mod_ids[k]);
                    } else {
                        assert(newc[0].mod_ids[k] == oldc[ci].mod_ids[k - oldc[0].mod_ids.len()]);
                    }
                } else {
                    let oc: int = if c < ci { c } else { c + 1 };
                    assert(newc[c].mod_ids[k] == oldc[oc].mod_ids[k]);
                }
            }
            // No id gained a second listing: positions map injectively.
            assert forall|c1: int, k1: int, c2: int, k2: int|
                0 <= c1 < newc.len() && 0 <= k1 < newc[c1].mod_ids.len() && 0 <= c2 < newc.len()
                    && 0 <= k2 < newc[c2].mod_ids.len() && #[trigger] newc[c1].mod_ids[k1]
                    == #[trigger] newc[c2].mod_ids[k2] implies c1 == c2 && k1 == k2 by {
                let u = oldc[0].mod_ids.len();
                let oc1: int = if c1 == 0 { if k1 < u { 0 } else { ci } } else if c1 < ci { c1 } else { c1 + 1 };
                let ok1: int = if c1 == 0 && k1 >= u { k1 - u } else { k1 };
                let oc2: int = if c2 == 0 { if k2 < u { 0 } else { ci } } else if c2 < ci { c2 } else { c2 + 1 };
                let ok2: int = if c2 == 0 && k2 >= u { k2 - u } else { k2 };
                assert(newc[c1].mod_ids[k1] == oldc[oc1].mod_ids[ok1]);
                assert(newc[c2].mod_ids[k2] == oldc[oc2].mod_ids[ok2]);
                assert(oldc[oc1].mod_ids[ok1] == oldc[oc2].mod_ids[ok2]);
                assert(oc1 == oc2 && ok1 == ok2);
            }
            // Every mod is still listed somewhere.
            assert forall|i: int| 0 <= i < self@.mods.len() implies listed(
                newc,
                #[trigger] self@.mods[i].id,
            ) by {
                assert(listed(oldc, oldv.mods[i].id));
                let (c, k) = choose|c: int, k: int|
                    0 <= c < oldc.len() && 0 <= k < oldc[c].mod_ids.len() && oldc[c].mod_ids[k]
                        == oldv.mods[i].id;
                let u = oldc[0].mod_ids.len();
                if c == 0 {
                    assert(newc[0].mod_ids[k] == oldv.mods[i].id);
                } else if c == ci {
                    assert(newc[0].mod_ids[u + k] == oldv.mods[i].id);
                } else if c < ci {
                    assert(newc[c].mod_ids[k] == oldv.mods[i].id);
                } else {
                    assert(newc[c - 1].mod_ids[k] == oldv.mods[i].id);
                }
            }
        }
        Ok(())
    }

    /// Enables or disables a mod. Disabling also drops it from the last-known
    /// load order, which may only name enabled mods. Fails with
    /// `NotFoundError` on an unknown id, leaving the configuration unchanged.
    pub fn set_enabled(&mut self, id: &[u8], value: bool) -> (r: Result<(), CoreError>)
        requires
            old(self)@.wf(),
        ensures
            final(self)@.wf(),
            !has_mod(old(self)@.mods, id@) ==> ((r matches Err(CoreError::NotFound))
                && final(self)@ == old(self)@),
            has_mod(old(self)@.mods, id@) ==> ({
                let mi = mod_index(old(self)@.mods, id@);
                &&& r matches Ok(())
                &&& final(self)@.categories == old(self)@.categories
                &&& final(self)@.mods == old(self)@.mods.update(
                    mi,
                    ModView { enabled: value, ..old(self)@.mods[mi] },
                )
                &&& final(self)@.load_order == (if value {
                    old(self)@.load_order
                } else {
                    without_id(old(self)@.load_order, id@)
                })
            }),
    {
        let mi = match self.find_mod_index(id) {
            None => {
                return Err(CoreError::NotFound);
            },
            Some(i) => i,
        };
        let ghost oldv = self@;
        proof {
            lemma_mod_index_unique(oldv.mods, id@, mi as int);
        }
        let mut m = self.mods.remove(mi);
        m.enabled = value;
        self.mods.insert(mi, m);
        proof {
            assert(self@.mods =~~= oldv.mods.update(
                mi as int,
                ModView { enabled: value, ..oldv.mods[mi as int] },
            ));
            assert(self@.categories == oldv.categories);
        }
        if !value {
            let mut new_lo: Vec<Vec<u8>> = Vec::new();
            let mut t: usize = 0;
            proof {
                assert(without_id(self.load_order.deep_view().take(0), id@)
                    =~= Seq::<Seq<u8>>::empty());
            }
            while t < self.load_order.len()
                invariant
                    t <= self.load_order.len(),
                    self.load_order.deep_view() == oldv.load_order,
                    new_lo.deep_view() == without_id(oldv.load_order.take(t as int), id@),
                decreases self.load_order.len() - t,
            {
                let entry = &self.load_order[t];
                proof {
                    assert(entry.deep_view() =~= entry@);
                    assert(entry.deep_view() == oldv.load_order[t as int]);
                }
                if !bytes_eq(entry.as_slice(), id) {
                    let kept = copy_range(entry.as_slice(), 0, entry.len());
                    proof {
                        assert(kept@ =~= entry@);
                        assert(kept.deep_view() =~= kept@);
                        assert(kept.deep_view() == oldv.load_order[t as int]);
                    }
                    new_lo.push(kept);
                }
                proof {
                    let taken = oldv.load_order.take(t + 1);
                    assert(taken.drop_last() =~= oldv.load_order.take(t as int));
                    assert(taken.last() == oldv.load_order[t as int]);
                    assert(new_lo.deep_view() =~= without_id(taken, id@));
                }
                t += 1;
            }
            proof {
                assert(oldv.load_order.take(oldv.load_order.len() as int) =~= oldv.load_order);
            }
            self.load_order = new_lo;
        }
        proof {
            let newv = self@;
            let mi = mi as int;
            // Ids are untouched, so uniqueness and the listing invariants carry
            // over.
            assert forall|i: int| 0 <= i < newv.mods.len() implies #[trigger] newv.mods[i].id
                == oldv.mods[i].id by {}
            assert(ids_unique(newv.mods));
            assert(newv.listings_known()) by {
                assert forall|c: int, k: int|
                    0 <= c < newv.categories.len() && 0 <= k < newv.categories[c].mod_ids.len()
                    implies has_mod(newv.mods, #[trigger] newv.categories[c].mod_ids[k]) by {
                    let x = newv.categories[c].mod_ids[k];
                    assert(has_mod(oldv.mods, x));
                    let w = mod_index(oldv.mods, x);
                    assert(newv.mods[w].id == x);
                }
            }
            assert(newv.mods_listed()) by {
                assert forall|i: int| 0 <= i < newv.mods.len() implies listed(
                    newv.categories,
                    #[trigger] newv.mods[i].id,
                ) by {
                    assert(listed(oldv.categories, oldv.mods[i].id));
                }
            }
            // The load order still names enabled mods only.
            assert(newv.load_order_enabled()) by {
                if value {
                    assert forall|t: int| 0 <= t < newv.load_order.len() implies mod_enabled(
                        newv.mods,
                        #[trigger] newv.load_order[t],
                    ) by {
                        let x = newv.load_order[t];
                        assert(mod_enabled(oldv.mods, x));
                        let w = mod_index(oldv.mods, x);
                        assert(oldv.mods[w].id == x && oldv.mods[w].enabled);
                        lemma_mod_index_unique(newv.mods, x, w);
                        assert(newv.mods[w].enabled);
                    }
                } else {
                    lemma_without_id(oldv.load_order, id@);
                    assert forall|t: int| 0 <= t < newv.load_order.len() implies mod_enabled(
                        newv.mods,
                        #[trigger] newv.load_order[t],
                    ) by {
                        let x = newv.load_order[t];
                        assert(x != id@);
                        let s = choose|s: int|
                            0 <= s < oldv.load_order.len() && oldv.load_order[s] == x;
                        assert(mod_enabled(oldv.mods, x));
                        let w = mod_index(oldv.mods, x);
                        assert(oldv.mods[w].id == x && oldv.mods[w].enabled);
                        assert(w != mi);
                        lemma_mod_index_unique(newv.mods, x, w);
                        assert(newv.mods[w].enabled);
                    }
                }
            }
            assert(newv.load_order_distinct()) by {
                if !value {
                    lemma_without_id_distinct(oldv.load_order, id@);
                }
            }
        }
        Ok(())
    }

    /// Position at which `id` is listed in the category table, if any.
    pub fn find_listing(&self, id: &[u8]) -> (r: Option<(usize, usize)>)
        ensures
            match r {
                Some((c, k)) => c < self@.categories.len() && k
                    < self@.categories[c as int].mod_ids.len()
                    && self@.categories[c as int].mod_ids[k as int] == id@,
                None => !listed(self@.categories, id@),
            },
    {
        let mut c: usize = 0;
        while c < self.categories.len()
            invariant
                c <= self@.categories.len(),
                forall|c0: int, k0: int|
                    0 <= c0 < c && 0 <= k0 < self@.categories[c0].mod_ids.len()
                        ==> #[trigger] self@.categories[c0].mod_ids[k0] != id@,
            decreases self.categories.len() - c,
        {
            let cat = &self.categories[c];
            let mut k: usize = 0;
            while k < cat.mod_ids.len()
                invariant
                    k <= cat@.mod_ids.len(),
                    cat@ == self@.categories[c as int],
                    c < self@.categories.len(),
                    forall|k0: int| 0 <= k0 < k ==> cat@.mod_ids[k0] != id@,
                decreases cat.mod_ids.len() - k,
            {
                let entry = &cat.mod_ids[k];
                proof {
                    assert(entry.deep_view() =~= entry@);
                    assert(entry.deep_view() == cat@.mod_ids[k as int]);
                }
                if bytes_eq(entry.as_slice(), id) {
                    return Some((c, k));
                }
                k += 1;
            }
            c += 1;
        }
        None
    }

    /// Moves a mod into `target` at `index` (clamped to the category length),
    /// delisting it from wherever it was. Fails with `NotFoundError` when the
    /// mod or the category is unknown, leaving the configuration unchanged.
    #[verifier::rlimit(60)]
    pub fn move_mod(&mut self, id: &[u8], target: &[u8], index: usize) -> (r: Result<
        (),
        CoreError,
    >)
        requires
            old(self)@.wf(),
        ensures
            final(self)@.wf(),
            (!has_mod(old(self)@.mods, id@) || !has_cat(old(self)@.categories, target@)) ==> ((
            r matches Err(CoreError::NotFound)) && final(self)@ == old(self)@),
            (has_mod(old(self)@.mods, id@) && has_cat(old(self)@.categories, target@)) ==> ({
                let (sc, sk) = listing_pos(old(self)@.categories, id@);
                let tc = cat_index(old(self)@.categories, target@);
                &&& r matches Ok(())
                &&& final(self)@.mods == old(self)@.mods
                &&& final(self)@.load_order == old(self)@.load_order
                &&& final(self)@.categories == move_listing(
                    old(self)@.categories,
                    sc,
                    sk,
                    tc,
                    index as int,
                    id@,
                )
            }),
    {
        if self.find_mod_index(id).is_none() {
            return Err(CoreError::NotFound);
        }
        let tc = match self.find_category_index(target) {
            None => {
                return Err(CoreError::NotFound);
            },
            Some(tc) => tc,
        };
        let ghost oldv = self@;
        let (sc, sk) = match self.find_listing(id) {
            None => {
                proof {
                    // Well-formedness lists every known mod, so the scan
                    // cannot miss.
                    let mi = mod_index(oldv.mods, id@);
                    assert(listed(oldv.categories, oldv.mods[mi].id));
                    assert(false);
                }
                return Err(CoreError::NotFound);
            },
            Some(p) => p,
        };
        proof {
            lemma_cat_index_unique(oldv.categories, target@, tc as int);
        }
        let mut src = self.categories.remove(sc);
        let moved = src.mod_ids.remove(sk);
        self.categories.insert(sc, src);
        let ghost catsa = oldv.categories.update(
            sc as int,
            CategoryView {
                name: oldv.categories[sc as int].name,
                mod_ids: oldv.categories[sc as int].mod_ids.remove(sk as int),
            },
        );
        proof {
            assert(moved.deep_view() =~= moved@);
            assert(moved.deep_view() == oldv.categories[sc as int].mod_ids[sk as int]);
            assert(self@.categories =~~= catsa);
        }
        let mut dst = self.categories.remove(tc);
        let pos = if index < dst.mod_ids.len() {
            index
        } else {
            dst.mod_ids.len()
        };
        dst.mod_ids.insert(pos, moved);
        self.categories.insert(tc, dst);
        proof {
            let sc = sc as int;
            let sk = sk as int;
            let tc = tc as int;
            let pos = pos as int;
            let oldc = oldv.categories;
            let newc = self@.categories;
            assert(newc =~~= catsa.update(
                tc,
                CategoryView {
                    name: catsa[tc].name,
                    mod_ids: catsa[tc].mod_ids.insert(pos, id@),
                },
            ));
            assert(newc =~~= move_listing(oldc, sc, sk, tc, index as int, id@));
            assert(self@.mods == oldv.mods);
            assert(self@.load_order == oldv.load_order);
            // The listing the scan found is the unique one.
            assert(listing_pos(oldc, id@) == (sc, sk)) by {
                let (c0, k0) = listing_pos(oldc, id@);
                assert(oldc[c0].mod_ids[k0] == id@ && oldc[sc].mod_ids[sk] == id@);
            }
            // `id` is not listed anywhere in the stripped table.
            assert forall|c: int, k: int|
                0 <= c < catsa.len() && 0 <= k < catsa[c].mod_ids.len()
                implies #[trigger] catsa[c].mod_ids[k] != id@ by {
                let ok: int = if c == sc && k >= sk { k + 1 } else { k };
                assert(catsa[c].mod_ids[k] == oldc[c].mod_ids[ok]);
                if catsa[c].mod_ids[k] == id@ {
                    assert(oldc[c].mod_ids[ok] == oldc[sc].mod_ids[sk]);
                    assert(c == sc && ok == sk);
                }
            }
            // Names are untouched.
            assert forall|c: int| 0 <= c < newc.len() implies newc[c].name == oldc[c].name by {}
            assert(cat_names_unique(newc));
            assert(newc[0].name == unassigned());
            // Every listing still names a known mod.
            assert forall|c: int, k: int|
                0 <= c < newc.len() && 0 <= k < newc[c].mod_ids.len() implies has_mod(
                self@.mods,
                #[trigger] newc[c].mod_ids[k],
            ) by {
                if c == tc && k == pos {
                    assert(newc[c].mod_ids[k] == id@);
                    assert(has_mod(oldv.mods, id@));
                } else {
                    let ka: int = if c == tc && k > pos { k - 1 } else { k };
                    assert(newc[c].mod_ids[k] == catsa[c].mod_ids[ka]);
                    let ok: int = if c == sc && ka >= sk { ka + 1 } else { ka };
                    assert(catsa[c].mod_ids[ka] == oldc[c].mod_ids[ok]);
                }
            }
            // No id is listed twice: positions map injectively, and `id`
            // itself only sits at the insertion point.
            assert forall|c1: int, k1: int, c2: int, k2: int|
                0 <= c1 < newc.len() && 0 <= k1 < newc[c1].mod_ids.len() && 0 <= c2 < newc.len()
                    && 0 <= k2 < newc[c2].mod_ids.len() && #[trigger] newc[c1].mod_ids[k1]
                    == #[trigger] newc[c2].mod_ids[k2] implies c1 == c2 && k1 == k2 by {
                let at1 = c1 == tc && k1 == pos;
                let at2 = c2 == tc && k2 == pos;
                if at1 && at2 {
                } else if at1 || at2 {
                    // One side is the fresh listing of `id`; the other would
                    // be a listing of `id` inside the stripped table.
                    if at1 {
                        let ka: int = if c2 == tc && k2 > pos { k2 - 1 } else { k2 };
                        assert(newc[c2].mod_ids[k2] == catsa[c2].mod_ids[ka]);
                        assert(newc[c1].mod_ids[k1] == id@);
                    } else {
                        let ka: int = if c1 == tc && k1 > pos { k1 - 1 } else { k1 };
                        assert(newc[c1].mod_ids[k1] == catsa[c1].mod_ids[ka]);
                        assert(newc[c2].mod_ids[k2] == id@);
                    }
                } else {
                    let ka1: int = if c1 == tc && k1 > pos { k1 - 1 } else { k1 };
                    let ka2: int = if c2 == tc && k2 > pos { k2 - 1 } else { k2 };
                    assert(newc[c1].mod_ids[k1] == catsa[c1].mod_ids[ka1]);
                    assert(newc[c2].mod_ids[k2] == catsa[c2].mod_ids[ka2]);
                    let ok1: int = if c1 == sc && ka1 >= sk { ka1 + 1 } else { ka1 };
                    let ok2: int = if c2 == sc && ka2 >= sk { ka2 + 1 } else { ka2 };
                    assert(catsa[c1].mod_ids[ka1] == oldc[c1].mod_ids[ok1]);
                    assert(catsa[c2].mod_ids[ka2] == oldc[c2].mod_ids[ok2]);
                    assert(oldc[c1].mod_ids[ok1] == oldc[c2].mod_ids[ok2]);
                    assert(c1 == c2 && ok1 == ok2);
                }
            }
            // Every mod is still listed somewhere.
            assert forall|i: int| 0 <= i < self@.mods.len() implies listed(
                newc,
                #[trigger] self@.mods[i].id,
            ) by {
                let x = oldv.mods[i].id;
                if x == id@ {
                    assert(newc[tc].mod_ids[pos] == id@);
                } else {
                    assert(listed(oldc, x));
                    let (c, k) = choose|c: int, k: int|
                        0 <= c < oldc.len() && 0 <= k < oldc[c].mod_ids.len()
                            && oldc[c].mod_ids[k] == x;
                    assert(!(c == sc && k == sk));
                    let ka: int = if c == sc && k > sk { k - 1 } else { k };
                    assert(catsa[c].mod_ids[ka] == x);
                    let kn: int = if c == tc && ka >= pos { ka + 1 } else { ka };
                    assert(newc[c].mod_ids[kn] == x);
                }
            }
        }
        Ok(())
    }

    /// Registers a newly discovered mod: it joins the registry and is listed
    /// at the end of the most recently added category. Fails with
    /// `DuplicateNameError` when the id is already registered, leaving the
    /// configuration unchanged.
    pub fn register_mod(&mut self, m: Mod) -> (r: Result<(), CoreError>)
        requires
            old(self)@.wf(),
            m@.id.len() > 0,
        ensures
            final(self)@.wf(),
            match app_mod(old(self)@, m@) {
                None => (r matches Err(CoreError::DuplicateName)) && final(self)@ == old(self)@,
                Some(c) => (r matches Ok(())) && final(self)@ == c,
            },
    {
        let ghost oldv = self@;
        if self.find_mod_index(m.id.as_slice()).is_some() {
            return Err(CoreError::DuplicateName);
        }
        let id_copy = copy_range(m.id.as_slice(), 0, m.id.len());
        proof {
            assert(id_copy@ =~= m@.id);
        }
        let last = self.categories.len() - 1;
        let mut cat = self.categories.remove(last);
        cat.mod_ids.push(id_copy);
        self.categories.insert(last, cat);
        self.mods.push(m);
        proof {
            let newv = self@;
            let lasti = last as int;
            let mv = m@;
            assert(newv.mods =~= oldv.mods.push(mv));
            assert(newv.load_order == oldv.load_order);
            assert(newv.categories =~~= oldv.categories.update(
                lasti,
                CategoryView {
                    name: oldv.categories[lasti].name,
                    mod_ids: oldv.categories[lasti].mod_ids.push(mv.id),
                },
            ));
            // Well-formedness: the fresh id cannot collide with anything.
            assert forall|i: int, j: int| 0 <= i < j < newv.mods.len() implies newv.mods[i].id
                != newv.mods[j].id by {
                if j == newv.mods.len() - 1 {
                    assert(newv.mods[i].id == oldv.mods[i].id);
                    assert(!has_mod(oldv.mods, mv.id));
                }
            }
            assert forall|i: int, j: int| 0 <= i < j < newv.categories.len()
                implies newv.categories[i].name != newv.categories[j].name by {
                assert(newv.categories[i].name == oldv.categories[i].name);
                assert(newv.categories[j].name == oldv.categories[j].name);
            }
            assert forall|c: int, k: int|
                0 <= c < newv.categories.len() && 0 <= k < newv.categories[c].mod_ids.len()
                implies has_mod(newv.mods, #[trigger] newv.categories[c].mod_ids[k]) by {
                if c == lasti && k == newv.categories[c].mod_ids.len() - 1 {
                    assert(newv.mods[newv.mods.len() - 1].id == mv.id);
                } else {
                    assert(newv.categories[c].mod_ids[k] == oldv.categories[c].mod_ids[k]);
                    assert(has_mod(oldv.mods, oldv.categories[c].mod_ids[k]));
                    let w = mod_index(oldv.mods, oldv.categories[c].mod_ids[k]);
                    assert(newv.mods[w].id == oldv.categories[c].mod_ids[k]);
                }
            }
            assert forall|c1: int, k1: int, c2: int, k2: int|
                0 <= c1 < newv.categories.len() && 0 <= k1 < newv.categories[c1].mod_ids.len()
                    && 0 <= c2 < newv.categories.len() && 0 <= k2
                    < newv.categories[c2].mod_ids.len() && #[trigger] newv.categories[c1].mod_ids[k1]
                    == #[trigger] newv.categories[c2].mod_ids[k2] implies c1 == c2 && k1
                == k2 by {
                let new1 = c1 == lasti && k1 == newv.categories[c1].mod_ids.len() - 1;
                let new2 = c2 == lasti && k2 == newv.categories[c2].mod_ids.len() - 1;
                if new1 != new2 {
                    if new1 {
                        assert(oldv.categories[c2].mod_ids[k2] == mv.id);
                        assert(has_mod(oldv.mods, oldv.categories[c2].mod_ids[k2]));
                    } else {
                        assert(oldv.categories[c1].mod_ids[k1] == mv.id);
                        assert(has_mod(oldv.mods, oldv.categories[c1].mod_ids[k1]));
                    }
                    assert(false);
                } else if !new1 && !new2 {
                    assert(oldv.categories[c1].mod_ids[k1] == oldv.categories[c2].mod_ids[k2]);
                }
            }
            assert forall|i: int| 0 <= i < newv.mods.len() implies listed(
                newv.categories,
                #[trigger] newv.mods[i].id,
            ) by {
                if i == newv.mods.len() - 1 {
                    assert(newv.categories[lasti].mod_ids[newv.categories[lasti].mod_ids.len()
                        - 1] == mv.id);
                } else {
                    assert(listed(oldv.categories, oldv.mods[i].id));
                    let (c, k) = choose|c: int, k: int|
                        0 <= c < oldv.categories.len() && 0 <= k
                            < oldv.categories[c].mod_ids.len() && oldv.categories[c].mod_ids[k]
                            == oldv.mods[i].id;
                    assert(newv.categories[c].mod_ids[k] == newv.mods[i].id);
                }
            }
            assert forall|t: int| 0 <= t < newv.load_order.len() implies mod_enabled(
                newv.mods,
                #[trigger] newv.load_order[t],
            ) by {
                let x = newv.load_order[t];
                assert(mod_enabled(oldv.mods, x));
                let w = mod_index(oldv.mods, x);
                assert(oldv.mods[w].id == x && oldv.mods[w].enabled);
                lemma_mod_index_unique(newv.mods, x, w);
            }
        }
        Ok(())
    }

    /// Appends an id to the last-known load order. Fails with
    /// `NotFoundError` when the id does not name an enabled mod, and with
    /// `DuplicateNameError` when the order already holds it; either failure
    /// leaves the configuration unchanged.
    pub fn push_load_order(&mut self, id: &[u8]) -> (r: Result<(), CoreError>)
        requires
            old(self)@.wf(),
        ensures
            final(self)@.wf(),
            match app_order(old(self)@, id@) {
                None => (r matches Err(CoreError::NotFound) || r matches Err(
                    CoreError::DuplicateName,
                )) && final(self)@ == old(self)@ && ((r matches Err(CoreError::NotFound))
                    <==> !mod_enabled(old(self)@.mods, id@)),
                Some(c) => (r matches Ok(())) && final(self)@ == c,
            },
    {
        let ghost oldv = self@;
        let enabled = match self.find_mod_index(id) {
            None => false,
            Some(mi) => {
                proof {
                    lemma_mod_index_unique(oldv.mods, id@, mi as int);
                }
                self.mods[mi].enabled
            },
        };
        if !enabled {
            return Err(CoreError::NotFound);
        }
        let mut t: usize = 0;
        while t < self.load_order.len()
            invariant
                self@ == oldv,
                oldv.wf(),
                mod_enabled(oldv.mods, id@),
                t <= oldv.load_order.len(),
                forall|j: int| 0 <= j < t ==> oldv.load_order[j] != id@,
            decreases self.load_order.len() - t,
        {
            let entry = &self.load_order[t];
            proof {
                assert(entry.deep_view() =~= entry@);
                assert(entry.deep_view() == oldv.load_order[t as int]);
            }
            if bytes_eq(entry.as_slice(), id) {
                return Err(CoreError::DuplicateName);
            }
            t += 1;
        }
        let id_copy = copy_range(id, 0, id.len());
        proof {
            assert(id_copy@ =~= id@);
            assert(id_copy.deep_view() =~= id_copy@);
        }
        self.load_order.push(id_copy);
        proof {
            let newv = self@;
            assert(newv.load_order =~= oldv.load_order.push(id@));
            assert(newv.mods == oldv.mods && newv.categories == oldv.categories);
            assert forall|t0: int| 0 <= t0 < newv.load_order.len() implies mod_enabled(
                newv.mods,
                #[trigger] newv.load_order[t0],
            ) by {
                if t0 < newv.load_order.len() - 1 {
                    assert(newv.load_order[t0] == oldv.load_order[t0]);
                }
            }
            assert forall|i: int, j: int| 0 <= i < j < newv.load_order.len()
                implies newv.load_order[i] != newv.load_order[j] by {
                if j == newv.load_order.len() - 1 {
                    assert(newv.load_order[i] == oldv.load_order[i]);
                }
            }
        }
        Ok(())
    }

    /// The deterministic enabled order: all enabled mods, categories visited
    /// in display order, the stored relative order kept within each category.
    /// This is the sequence package assembly consumes.
    pub fn resolve_enabled_order(&self) -> (r: Vec<Vec<u8>>)
        requires
            self@.wf(),
        ensures
            r.deep_view() == resolve_order_spec(self@),
    {
        let mut out: Vec<Vec<u8>> = Vec::new();
        proof {
            assert(out.deep_view() =~= resolve_upto(self@, 0));
        }
        let mut c: usize = 0;
        while c < self.categories.len()
            invariant
                self@.wf(),
                c <= self@.categories.len(),
                out.deep_view() == resolve_upto(self@, c as int),
            decreases self.categories.len() - c,
        {
            let cat = &self.categories[c];
            let ghost ids = self@.categories[c as int].mod_ids;
            let mut k: usize = 0;
            proof {
                assert(ids.take(0) =~= Seq::<Seq<u8>>::empty());
                assert(out.deep_view() =~= resolve_upto(self@, c as int) + filter_enabled(
                    self@.mods,
                    ids.take(0),
                ));
            }
            while k < cat.mod_ids.len()
                invariant
                    self@.wf(),
                    c < self@.categories.len(),
                    cat@ == self@.categories[c as int],
                    ids == self@.categories[c as int].mod_ids,
                    k <= ids.len(),
                    out.deep_view() == resolve_upto(self@, c as int) + filter_enabled(
                        self@.mods,
                        ids.take(k as int),
                    ),
                decreases cat.mod_ids.len() - k,
            {
                let entry = &cat.mod_ids[k];
                proof {
                    assert(entry.deep_view() =~= entry@);
                    assert(entry.deep_view() == ids[k as int]);
                }
                let enabled = match self.find_mod_index(entry.as_slice()) {
                    None => false,
                    Some(mi) => {
                        proof {
                            lemma_mod_index_unique(self@.mods, entry@, mi as int);
                        }
                        self.mods[mi].enabled
                    },
                };
                proof {
                    assert(enabled == mod_enabled(self@.mods, ids[k as int]));
                }
                let ghost pre = out.deep_view();
                if enabled {
                    let kept = copy_range(entry.as_slice(), 0, entry.len());
                    proof {
                        assert(kept@ =~= entry@);
                        assert(kept.deep_view() =~= kept@);
                        assert(kept.deep_view() == ids[k as int]);
                    }
                    out.push(kept);
                    proof {
                        assert(out.deep_view() =~= pre.push(ids[k as int]));
                    }
                }
                proof {
                    let taken = ids.take(k + 1);
                    assert(taken.drop_last() =~= ids.take(k as int));
                    assert(taken.last() == ids[k as int]);
                    if enabled {
                        assert(filter_enabled(self@.mods, taken) == filter_enabled(
                            self@.mods,
                            ids.take(k as int),
                        ).push(ids[k as int]));
                        assert(out.deep_view() =~= resolve_upto(self@, c as int)
                            + filter_enabled(self@.mods, taken));
                    } else {
                        assert(filter_enabled(self@.mods, taken) == filter_enabled(
                            self@.mods,
                            ids.take(k as int),
                        ));
                        assert(out.deep_view() == resolve_upto(self@, c as int) + filter_enabled(
                            self@.mods,
                            taken,
                        ));
                    }
                }
                k += 1;
            }
            proof {
                assert(ids.take(ids.len() as int) =~= ids);
                assert(out.deep_view() =~= resolve_upto(self@, c + 1));
            }
            c += 1;
        }
        out
    }

    /// Replaces the last-known load order with the freshly resolved enabled
    /// order.
    pub fn refresh_load_order(&mut self)
        requires
            old(self)@.wf(),
        ensures
            final(self)@.wf(),
            final(self)@.mods == old(self)@.mods,
            final(self)@.categories == old(self)@.categories,
            final(self)@.load_order == resolve_order_spec(old(self)@),
    {
        let ghost oldv = self@;
        let new_lo = self.resolve_enabled_order();
        self.load_order = new_lo;
        proof {
            lemma_resolve_order_invariants(oldv);
            assert(self@.mods == oldv.mods);
            assert(self@.categories == oldv.categories);
        }
    }
}

} // verus!
