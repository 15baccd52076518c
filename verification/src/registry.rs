//! The mod registry: merging online metadata records into the known mod set,
//! and reconciling a fresh filesystem scan with previously persisted state.
//! The merge never removes a mod; removal only happens through a rescan that
//! drops entries whose backing file vanished. On a rescan the scan wins for
//! file data, the persisted entry wins for user-set fields.

use vstd::prelude::*;

use crate::game_config::{
    filter_enabled, has_mod, ids_unique, lemma_filter_enabled_distinct,
    lemma_filter_enabled_props, lemma_mod_index_unique, listed, mod_enabled, mod_index,
    CategoryView, GameConfig, GameConfigView,
};
use crate::mods::{Mod, ModView, OnlineRecord, OnlineRecordView};
use crate::text::{bytes_eq, copy_range};

verus! {

impl DeepView for OnlineRecord {
    type V = OnlineRecordView;

    open spec fn deep_view(&self) -> OnlineRecordView {
        self.view()
    }
}

/// A mod after one online record overwrote its volatile metadata. The user
/// fields (enabled), identity and file data stay.
pub open spec fn merged_record(m: ModView, r: OnlineRecordView) -> ModView {
    ModView {
        name: r.title,
        creator: r.creator,
        size: r.file_size,
        file_url: r.file_url,
        preview_url: r.preview_url,
        description: r.description,
        time_created: r.time_created,
        time_updated: r.time_updated,
        online: true,
        ..m
    }
}

/// Whether a record is applied to a mod: ids match on a workshop-sourced mod
/// and the record is not older than the last already-applied update.
pub open spec fn record_applies(m: ModView, r: OnlineRecordView, last_update_ts: u64) -> bool {
    m.workshop && m.id == r.id && r.time_updated >= last_update_ts
}

/// The mod set after one record was offered to every mod.
pub open spec fn apply_record(
    mods: Seq<ModView>,
    r: OnlineRecordView,
    last_update_ts: u64,
) -> Seq<ModView> {
    Seq::new(
        mods.len(),
        |i: int|
            if record_applies(mods[i], r, last_update_ts) {
                merged_record(mods[i], r)
            } else {
                mods[i]
            },
    )
}

/// The mod set after a whole batch of records, applied in order.
pub open spec fn apply_records(
    mods: Seq<ModView>,
    rs: Seq<OnlineRecordView>,
    last_update_ts: u64,
) -> Seq<ModView>
    decreases rs.len(),
{
    if rs.len() == 0 {
        mods
    } else {
        apply_record(apply_records(mods, rs.drop_last(), last_update_ts), rs.last(), last_update_ts)
    }
}

/// Merging touches neither identity, nor file path, nor the user-set fields:
/// only the volatile online metadata changes.
pub proof fn lemma_apply_records_frame(
    mods: Seq<ModView>,
    rs: Seq<OnlineRecordView>,
    last_update_ts: u64,
)
    ensures
        apply_records(mods, rs, last_update_ts).len() == mods.len(),
        forall|i: int|
            0 <= i < mods.len() ==> {
                let a = #[trigger] apply_records(mods, rs, last_update_ts)[i];
                a.id == mods[i].id && a.enabled == mods[i].enabled && a.workshop
                    == mods[i].workshop && a.path == mods[i].path
            },
    decreases rs.len(),
{
    if rs.len() > 0 {
        lemma_apply_records_frame(mods, rs.drop_last(), last_update_ts);
    }
}

/// Overwrites the matching mods' metadata from each record whose update
/// timestamp is not older than `last_update_ts`; older records are treated as
/// already applied and skipped. Mods without a matching record are left
/// untouched.
pub fn populate_mods_with_online_data(
    mods: &mut Vec<Mod>,
    records: &Vec<OnlineRecord>,
    last_update_ts: u64,
)
    ensures
        final(mods).deep_view() == apply_records(
            old(mods).deep_view(),
            records.deep_view(),
            last_update_ts,
        ),
{
    let ghost orig = mods.deep_view();
    let ghost rs = records.deep_view();
    let mut j: usize = 0;
    proof {
        assert(rs.take(0) =~= Seq::<OnlineRecordView>::empty());
    }
    while j < records.len()
        invariant
            j <= rs.len(),
            rs == records.deep_view(),
            mods.deep_view() == apply_records(orig, rs.take(j as int), last_update_ts),
        decreases records.len() - j,
    {
        let ghost prev = mods.deep_view();
        let record = &records[j];
        proof {
            assert(record.deep_view() == rs[j as int]);
        }
        let mut i: usize = 0;
        while i < mods.len()
            invariant
                i <= mods.len(),
                record.deep_view() == rs[j as int],
                j < rs.len(),
                mods.deep_view().len() == prev.len(),
                forall|t: int|
                    0 <= t < i ==> #[trigger] mods.deep_view()[t] == (
                    if record_applies(prev[t], rs[j as int], last_update_ts) {
                        merged_record(prev[t], rs[j as int])
                    } else {
                        prev[t]
                    }),
                forall|t: int| i <= t < prev.len() ==> #[trigger] mods.deep_view()[t] == prev[t],
            decreases mods.len() - i,
        {
            let applies = mods[i].workshop && record.time_updated >= last_update_ts
                && bytes_eq(mods[i].id.as_slice(), record.id.as_slice());
            proof {
                assert(mods.deep_view()[i as int] == prev[i as int]);
                assert(applies == record_applies(prev[i as int], rs[j as int], last_update_ts));
            }
            let ghost cur = mods.deep_view();
            if applies {
                let mut m = mods.remove(i);
                m.name = copy_range(record.title.as_slice(), 0, record.title.len());
                m.creator = copy_range(record.creator.as_slice(), 0, record.creator.len());
                m.size = record.file_size;
                m.file_url = copy_range(record.file_url.as_slice(), 0, record.file_url.len());
                m.preview_url = copy_range(
                    record.preview_url.as_slice(),
                    0,
                    record.preview_url.len(),
                );
                m.description = copy_range(
                    record.description.as_slice(),
                    0,
                    record.description.len(),
                );
                m.time_created = record.time_created;
                m.time_updated = record.time_updated;
                m.online = true;
                proof {
                    assert(m.deep_view() =~~= merged_record(prev[i as int], rs[j as int]));
                }
                mods.insert(i, m);
                proof {
                    assert(mods.deep_view() =~= cur.update(
                        i as int,
                        merged_record(prev[i as int], rs[j as int]),
                    ));
                }
            }
            i += 1;
        }
        proof {
            let taken = rs.take(j + 1);
            assert(taken.drop_last() =~= rs.take(j as int));
            assert(taken.last() == rs[j as int]);
            assert(mods.deep_view() =~= apply_record(prev, rs[j as int], last_update_ts));
            assert(apply_records(orig, taken, last_update_ts) == apply_record(
                apply_records(orig, rs.take(j as int), last_update_ts),
                rs[j as int],
                last_update_ts,
            ));
        }
        j += 1;
    }
    proof {
        assert(rs.take(rs.len() as int) =~= rs);
    }
}

/// Applies a batch of records unconditionally: the merge used right after a
/// fetch that was not filtered by a stored update timestamp.
pub fn populate_mods(mods: &mut Vec<Mod>, records: &Vec<OnlineRecord>)
    ensures
        final(mods).deep_view() == apply_records(old(mods).deep_view(), records.deep_view(), 0u64),
{
    populate_mods_with_online_data(mods, records, 0)
}

/// A persisted entry after reconciliation with a freshly scanned one sharing
/// its id: the scan wins for file data, the persisted entry wins for user-set
/// fields and cached metadata.
pub open spec fn take_file_data(p: ModView, s: ModView) -> ModView {
    ModView { path: s.path, size: s.size, ..p }
}

/// The registry after a rescan: one entry per scanned mod, reconciled with
/// the persisted entry of the same id where one exists. Persisted entries
/// whose backing file vanished are dropped.
pub open spec fn reconcile_spec(pers: Seq<ModView>, sc: Seq<ModView>) -> Seq<ModView> {
    Seq::new(
        sc.len(),
        |i: int|
            if has_mod(pers, sc[i].id) {
                take_file_data(pers[mod_index(pers, sc[i].id)], sc[i])
            } else {
                sc[i]
            },
    )
}

/// A category list restricted to ids that still name a known mod.
pub open spec fn keep_known(ids: Seq<Seq<u8>>, mods: Seq<ModView>) -> Seq<Seq<u8>>
    decreases ids.len(),
{
    if ids.len() == 0 {
        Seq::empty()
    } else if has_mod(mods, ids.last()) {
        keep_known(ids.drop_last(), mods).push(ids.last())
    } else {
        keep_known(ids.drop_last(), mods)
    }
}

/// Ids of the scanned mods that the persisted registry did not know, in scan
/// order: the newcomers appended to "Unassigned".
pub open spec fn fresh_ids(pers: Seq<ModView>, sc: Seq<ModView>) -> Seq<Seq<u8>>
    decreases sc.len(),
{
    if sc.len() == 0 {
        Seq::empty()
    } else if has_mod(pers, sc.last().id) {
        fresh_ids(pers, sc.drop_last())
    } else {
        fresh_ids(pers, sc.drop_last()).push(sc.last().id)
    }
}

/// Entries of `keep_known` name known mods and come from `ids`.
pub proof fn lemma_keep_known_props(ids: Seq<Seq<u8>>, mods: Seq<ModView>)
    ensures
        forall|t: int|
            0 <= t < keep_known(ids, mods).len() ==> has_mod(
                mods,
                #[trigger] keep_known(ids, mods)[t],
            ),
        forall|t: int|
            0 <= t < keep_known(ids, mods).len() ==> exists|k: int|
                0 <= k < ids.len() && ids[k] == #[trigger] keep_known(ids, mods)[t],
    decreases ids.len(),
{
    if ids.len() > 0 {
        lemma_keep_known_props(ids.drop_last(), mods);
        let f = keep_known(ids, mods);
        let fd = keep_known(ids.drop_last(), mods);
        assert forall|t: int| 0 <= t < f.len() implies has_mod(mods, #[trigger] f[t]) && exists|
            k: int,
        | 0 <= k < ids.len() && ids[k] == f[t] by {
            if has_mod(mods, ids.last()) && t == f.len() - 1 {
                assert(ids[ids.len() - 1] == f[t]);
            } else {
                assert(f[t] == fd[t]);
                let k = choose|k: int|
                    0 <= k < ids.drop_last().len() && ids.drop_last()[k] == fd[t];
                assert(ids[k] == f[t]);
            }
        }
    }
}

/// Filtering a duplicate-free list keeps it duplicate-free.
pub proof fn lemma_keep_known_distinct(ids: Seq<Seq<u8>>, mods: Seq<ModView>)
    requires
        forall|k1: int, k2: int| 0 <= k1 < k2 < ids.len() ==> ids[k1] != ids[k2],
    ensures
        forall|t1: int, t2: int|
            0 <= t1 < t2 < keep_known(ids, mods).len() ==> keep_known(ids, mods)[t1] != keep_known(
                ids,
                mods,
            )[t2],
    decreases ids.len(),
{
    if ids.len() > 0 {
        assert(forall|k: int| 0 <= k < ids.drop_last().len() ==> ids.drop_last()[k] == ids[k]);
        lemma_keep_known_distinct(ids.drop_last(), mods);
        lemma_keep_known_props(ids.drop_last(), mods);
        let f = keep_known(ids, mods);
        let fd = keep_known(ids.drop_last(), mods);
        assert forall|t1: int, t2: int| 0 <= t1 < t2 < f.len() implies f[t1] != f[t2] by {
            if has_mod(mods, ids.last()) && t2 == f.len() - 1 {
                assert(f[t1] == fd[t1]);
                let k = choose|k: int|
                    0 <= k < ids.drop_last().len() && ids.drop_last()[k] == fd[t1];
                assert(ids[k] == f[t1]);
                assert(ids[ids.len() - 1] == f[t2]);
            } else {
                assert(f[t1] == fd[t1] && f[t2] == fd[t2]);
            }
        }
    }
}

/// A surviving entry of `ids` is present in `keep_known`.
pub proof fn lemma_keep_known_forward(ids: Seq<Seq<u8>>, mods: Seq<ModView>, k: int)
    requires
        0 <= k < ids.len(),
        has_mod(mods, ids[k]),
    ensures
        exists|t: int|
            0 <= t < keep_known(ids, mods).len() && keep_known(ids, mods)[t] == ids[k],
    decreases ids.len(),
{
    let f = keep_known(ids, mods);
    if k == ids.len() - 1 {
        assert(f[f.len() - 1] == ids[k]);
    } else {
        assert(ids.drop_last()[k] == ids[k]);
        lemma_keep_known_forward(ids.drop_last(), mods, k);
        let fd = keep_known(ids.drop_last(), mods);
        let t = choose|t: int| 0 <= t < fd.len() && fd[t] == ids[k];
        assert(f[t] == ids[k]);
    }
}

/// Entries of `fresh_ids` are unknown to the persisted registry and come
/// from the scan.
pub proof fn lemma_fresh_ids_props(pers: Seq<ModView>, sc: Seq<ModView>)
    ensures
        forall|t: int|
            0 <= t < fresh_ids(pers, sc).len() ==> !has_mod(
                pers,
                #[trigger] fresh_ids(pers, sc)[t],
            ),
        forall|t: int|
            0 <= t < fresh_ids(pers, sc).len() ==> exists|i: int|
                0 <= i < sc.len() && sc[i].id == #[trigger] fresh_ids(pers, sc)[t],
    decreases sc.len(),
{
    if sc.len() > 0 {
        lemma_fresh_ids_props(pers, sc.drop_last());
        let f = fresh_ids(pers, sc);
        let fd = fresh_ids(pers, sc.drop_last());
        assert forall|t: int| 0 <= t < f.len() implies !has_mod(pers, #[trigger] f[t]) && exists|
            i: int,
        | 0 <= i < sc.len() && sc[i].id == f[t] by {
            if !has_mod(pers, sc.last().id) && t == f.len() - 1 {
                assert(sc[sc.len() - 1].id == f[t]);
            } else {
                assert(f[t] == fd[t]);
                let i = choose|i: int|
                    0 <= i < sc.drop_last().len() && sc.drop_last()[i].id == fd[t];
                assert(sc[i].id == f[t]);
            }
        }
    }
}

/// With unique scan ids the newcomer list repeats none.
pub proof fn lemma_fresh_ids_distinct(pers: Seq<ModView>, sc: Seq<ModView>)
    requires
        ids_unique(sc),
    ensures
        forall|t1: int, t2: int|
            0 <= t1 < t2 < fresh_ids(pers, sc).len() ==> fresh_ids(pers, sc)[t1] != fresh_ids(
                pers,
                sc,
            )[t2],
    decreases sc.len(),
{
    if sc.len() > 0 {
        assert(forall|i: int| 0 <= i < sc.drop_last().len() ==> sc.drop_last()[i] == sc[i]);
        lemma_fresh_ids_distinct(pers, sc.drop_last());
        lemma_fresh_ids_props(pers, sc.drop_last());
        let f = fresh_ids(pers, sc);
        let fd = fresh_ids(pers, sc.drop_last());
        assert forall|t1: int, t2: int| 0 <= t1 < t2 < f.len() implies f[t1] != f[t2] by {
            if !has_mod(pers, sc.last().id) && t2 == f.len() - 1 {
                assert(f[t1] == fd[t1]);
                let i = choose|i: int|
                    0 <= i < sc.drop_last().len() && sc.drop_last()[i].id == fd[t1];
                assert(sc[i].id == f[t1]);
                assert(sc[sc.len() - 1].id == f[t2]);
            } else {
                assert(f[t1] == fd[t1] && f[t2] == fd[t2]);
            }
        }
    }
}

/// A scanned id unknown to the persisted registry shows up as a newcomer.
pub proof fn lemma_fresh_ids_forward(pers: Seq<ModView>, sc: Seq<ModView>, i: int)
    requires
        0 <= i < sc.len(),
        !has_mod(pers, sc[i].id),
    ensures
        exists|t: int|
            0 <= t < fresh_ids(pers, sc).len() && fresh_ids(pers, sc)[t] == sc[i].id,
    decreases sc.len(),
{
    let f = fresh_ids(pers, sc);
    if i == sc.len() - 1 {
        assert(f[f.len() - 1] == sc[i].id);
    } else {
        assert(sc.drop_last()[i] == sc[i]);
        lemma_fresh_ids_forward(pers, sc.drop_last(), i);
        let fd = fresh_ids(pers, sc.drop_last());
        let t = choose|t: int| 0 <= t < fd.len() && fd[t] == sc[i].id;
        assert(f[t] == sc[i].id);
    }
}

/// A field-for-field copy.
pub fn clone_mod(m: &Mod) -> (r: Mod)
    ensures
        r.deep_view() == m.deep_view(),
{
    let r = Mod {
        id: copy_range(m.id.as_slice(), 0, m.id.len()),
        name: copy_range(m.name.as_slice(), 0, m.name.len()),
        creator: copy_range(m.creator.as_slice(), 0, m.creator.len()),
        path: copy_range(m.path.as_slice(), 0, m.path.len()),
        size: m.size,
        enabled: m.enabled,
        workshop: m.workshop,
        file_url: copy_range(m.file_url.as_slice(), 0, m.file_url.len()),
        preview_url: copy_range(m.preview_url.as_slice(), 0, m.preview_url.len()),
        description: copy_range(m.description.as_slice(), 0, m.description.len()),
        time_created: m.time_created,
        time_updated: m.time_updated,
        online: m.online,
        outdated: m.outdated,
    };
    proof {
        assert(r.deep_view() =~~= m.deep_view());
    }
    r
}

/// Index of the mod with the given id in a bare mod list, if any.
pub fn find_in_mods(mods: &Vec<Mod>, id: &[u8]) -> (r: Option<usize>)
    ensures
        match r {
            Some(i) => i < mods.deep_view().len() && mods.deep_view()[i as int].id == id@,
            None => !has_mod(mods.deep_view(), id@),
        },
{
    let mut i: usize = 0;
    while i < mods.len()
        invariant
            i <= mods.deep_view().len(),
            forall|j: int| 0 <= j < i ==> mods.deep_view()[j].id != id@,
        decreases mods.len() - i,
    {
        if bytes_eq(mods[i].id.as_slice(), id) {
            return Some(i);
        }
        i += 1;
    }
    None
}

impl GameConfig {
    /// Merges one batch of online records into this game's registry. Records
    /// older than `last_update_ts` are skipped; no mod is ever added or
    /// removed by a merge, and user-set fields survive.
    pub fn merge_online(&mut self, records: &Vec<OnlineRecord>, last_update_ts: u64)
        requires
            old(self)@.wf(),
        ensures
            final(self)@.wf(),
            final(self)@.mods == apply_records(
                old(self)@.mods,
                records.deep_view(),
                last_update_ts,
            ),
            final(self)@.categories == old(self)@.categories,
            final(self)@.load_order == old(self)@.load_order,
    {
        let ghost oldv = self@;
        populate_mods_with_online_data(&mut self.mods, records, last_update_ts);
        proof {
            lemma_apply_records_frame(oldv.mods, records.deep_view(), last_update_ts);
            let newv = self@;
            assert(newv.categories == oldv.categories);
            assert(newv.load_order == oldv.load_order);
            assert(ids_unique(newv.mods)) by {
                assert forall|i: int, j: int| 0 <= i < j < newv.mods.len() implies newv.mods[i].id
                    != newv.mods[j].id by {
                    assert(newv.mods[i].id == oldv.mods[i].id);
                    assert(newv.mods[j].id == oldv.mods[j].id);
                }
            }
            assert(newv.listings_known()) by {
                assert forall|c: int, k: int|
                    0 <= c < newv.categories.len() && 0 <= k < newv.categories[c].mod_ids.len()
                    implies has_mod(newv.mods, #[trigger] newv.categories[c].mod_ids[k]) by {
                    let x = newv.categories[c].mod_ids[k];
                    assert(has_mod(oldv.mods, x));
                    let w = mod_index(oldv.mods, x);
                    assert(newv.mods[w].id == x);
                }
            }
            assert(newv.mods_listed()) by {
                assert forall|i: int| 0 <= i < newv.mods.len() implies listed(
                    newv.categories,
                    #[trigger] newv.mods[i].id,
                ) by {
                    assert(newv.mods[i].id == oldv.mods[i].id);
                    assert(listed(oldv.categories, oldv.mods[i].id));
                }
            }
            assert(newv.load_order_enabled()) by {
                assert forall|t: int| 0 <= t < newv.load_order.len() implies mod_enabled(
                    newv.mods,
                    #[trigger] newv.load_order[t],
                ) by {
                    let x = newv.load_order[t];
                    assert(mod_enabled(oldv.mods, x));
                    let w = mod_index(oldv.mods, x);
                    assert(oldv.mods[w].id == x && oldv.mods[w].enabled);
                    assert(newv.mods[w].id == x && newv.mods[w].enabled);
                    lemma_mod_index_unique(newv.mods, x, w);
                }
            }
        }
    }

    /// Reconciles a fresh filesystem scan with this persisted configuration.
    /// One registry entry survives per scanned mod: the scan wins for file
    /// path and size, the persisted entry wins for user-set fields and cached
    /// metadata. Entries whose backing file vanished are dropped from the
    /// registry, the category lists and the load order; newly discovered mods
    /// are appended to "Unassigned" in scan order.
    #[verifier::rlimit(60)]
    pub fn rescan(&mut self, scanned: &Vec<Mod>)
        requires
            old(self)@.wf(),
            ids_unique(scanned.deep_view()),
        ensures
            final(self)@.wf(),
            final(self)@.mods == reconcile_spec(old(self)@.mods, scanned.deep_view()),
            final(self)@.categories.len() == old(self)@.categories.len(),
            forall|c: int|
                0 <= c < final(self)@.categories.len()
                    ==> #[trigger] final(self)@.categories[c].name
                    == old(self)@.categories[c].name,
            forall|c: int|
                1 <= c < final(self)@.categories.len()
                    ==> #[trigger] final(self)@.categories[c].mod_ids == keep_known(
                    old(self)@.categories[c].mod_ids,
                    reconcile_spec(old(self)@.mods, scanned.deep_view()),
                ),
            final(self)@.categories[0].mod_ids == keep_known(
                old(self)@.categories[0].mod_ids,
                reconcile_spec(old(self)@.mods, scanned.deep_view()),
            ) + fresh_ids(old(self)@.mods, scanned.deep_view()),
            final(self)@.load_order == filter_enabled(
                reconcile_spec(old(self)@.mods, scanned.deep_view()),
                old(self)@.load_order,
            ),
    {
        let ghost oldv = self@;
        let ghost scv = scanned.deep_view();
        let ghost newm = reconcile_spec(oldv.mods, scv);
        // Reconcile the mod set, scan order.
        let mut new_mods: Vec<Mod> = Vec::new();
        let mut i: usize = 0;
        while i < scanned.len()
            invariant
                self@ == oldv,
                oldv.wf(),
                scv == scanned.deep_view(),
                newm == reconcile_spec(oldv.mods, scv),
                i <= scv.len(),
                new_mods.deep_view().len() == i,
                forall|t: int| 0 <= t < i ==> #[trigger] new_mods.deep_view()[t] == newm[t],
            decreases scanned.len() - i,
        {
            let s = &scanned[i];
            proof {
                assert(s.deep_view() == scv[i as int]);
            }
            let entry = match self.find_mod_index(s.id.as_slice()) {
                None => clone_mod(s),
                Some(pi) => {
                    let p = &self.mods[pi];
                    proof {
                        assert(p.deep_view() == oldv.mods[pi as int]);
                        lemma_mod_index_unique(oldv.mods, s.deep_view().id, pi as int);
                    }
                    let mut m = clone_mod(p);
                    m.path = copy_range(s.path.as_slice(), 0, s.path.len());
                    m.size = s.size;
                    proof {
                        assert(m.deep_view() =~~= take_file_data(
                            oldv.mods[pi as int],
                            scv[i as int],
                        ));
                    }
                    m
                },
            };
            proof {
                assert(entry.deep_view() == newm[i as int]);
            }
            let ghost prevm = new_mods.deep_view();
            new_mods.push(entry);
            proof {
                assert(new_mods.deep_view() =~= prevm.push(newm[i as int]));
            }
            i += 1;
        }
        proof {
            assert(new_mods.deep_view() =~= newm);
        }
        // Restrict every category list to surviving ids.
        let mut new_cats: Vec<crate::game_config::Category> = Vec::new();
        let mut c: usize = 0;
        while c < self.categories.len()
            invariant
                self@ == oldv,
                oldv.wf(),
                new_mods.deep_view() == newm,
                c <= oldv.categories.len(),
                new_cats.deep_view().len() == c,
                forall|cc: int|
                    0 <= cc < c ==> #[trigger] new_cats.deep_view()[cc].name
                        == oldv.categories[cc].name,
                forall|cc: int|
                    0 <= cc < c ==> #[trigger] new_cats.deep_view()[cc].mod_ids == keep_known(
                        oldv.categories[cc].mod_ids,
                        newm,
                    ),
            decreases self.categories.len() - c,
        {
            let cat = &self.categories[c];
            let ghost ids = oldv.categories[c as int].mod_ids;
            let mut kept: Vec<Vec<u8>> = Vec::new();
            let mut k: usize = 0;
            proof {
                assert(ids.take(0) =~= Seq::<Seq<u8>>::empty());
                assert(kept.deep_view() =~= keep_known(ids.take(0), newm));
            }
            while k < cat.mod_ids.len()
                invariant
                    cat@ == oldv.categories[c as int],
                    ids == oldv.categories[c as int].mod_ids,
                    new_mods.deep_view() == newm,
                    k <= ids.len(),
                    kept.deep_view() == keep_known(ids.take(k as int), newm),
                decreases cat.mod_ids.len() - k,
            {
                let entry = &cat.mod_ids[k];
                proof {
                    assert(entry.deep_view() =~= entry@);
                    assert(entry.deep_view() == ids[k as int]);
                }
                let ghost pre = kept.deep_view();
                if find_in_mods(&new_mods, entry.as_slice()).is_some() {
                    let copied = copy_range(entry.as_slice(), 0, entry.len());
                    proof {
                        assert(copied@ =~= entry@);
                        assert(copied.deep_view() =~= copied@);
                        assert(copied.deep_view() == ids[k as int]);
                    }
                    kept.push(copied);
                    proof {
                        assert(kept.deep_view() =~= pre.push(ids[k as int]));
                    }
                }
                proof {
                    let taken = ids.take(k + 1);
                    assert(taken.drop_last() =~= ids.take(k as int));
                    assert(taken.last() == ids[k as int]);
                    assert(kept.deep_view() == keep_known(taken, newm));
                }
                k += 1;
            }
            proof {
                assert(ids.take(ids.len() as int) =~= ids);
            }
            let name = copy_range(cat.name.as_slice(), 0, cat.name.len());
            proof {
                assert(name@ =~= cat.name@);
            }
            let ghost prevc = new_cats.deep_view();
            new_cats.push(crate::game_config::Category { name, mod_ids: kept });
            proof {
                assert(new_cats.deep_view() =~~= prevc.push(CategoryView {
                    name: oldv.categories[c as int].name,
                    mod_ids: keep_known(oldv.categories[c as int].mod_ids, newm),
                }));
            }
            c += 1;
        }
        // Newly discovered mods go to the end of "Unassigned".
        let mut fresh: Vec<Vec<u8>> = Vec::new();
        let mut f: usize = 0;
        proof {
            assert(scv.take(0) =~= Seq::<ModView>::empty());
            assert(fresh.deep_view() =~= fresh_ids(oldv.mods, scv.take(0)));
        }
        while f < scanned.len()
            invariant
                self@ == oldv,
                oldv.wf(),
                scv == scanned.deep_view(),
                f <= scv.len(),
                fresh.deep_view() == fresh_ids(oldv.mods, scv.take(f as int)),
            decreases scanned.len() - f,
        {
            let s = &scanned[f];
            proof {
                assert(s.deep_view() == scv[f as int]);
            }
            let ghost pre = fresh.deep_view();
            if self.find_mod_index(s.id.as_slice()).is_none() {
                let copied = copy_range(s.id.as_slice(), 0, s.id.len());
                proof {
                    assert(copied.deep_view() =~= copied@);
                    assert(copied.deep_view() =~= scv[f as int].id);
                }
                fresh.push(copied);
                proof {
                    assert(fresh.deep_view() =~= pre.push(scv[f as int].id));
                }
            }
            proof {
                let taken = scv.take(f + 1);
                assert(taken.drop_last() =~= scv.take(f as int));
                assert(taken.last() == scv[f as int]);
                assert(fresh.deep_view() == fresh_ids(oldv.mods, taken));
            }
            f += 1;
        }
        proof {
            assert(scv.take(scv.len() as int) =~= scv);
        }
        let ghost catsd = new_cats.deep_view();
        let ghost freshd = fresh.deep_view();
        let mut una = new_cats.remove(0);
        proof {
            assert(una.deep_view() == catsd[0]);
        }
        una.mod_ids.append(&mut fresh);
        proof {
            assert(una.mod_ids.deep_view() =~= catsd[0].mod_ids + freshd);
        }
        new_cats.insert(0, una);
        proof {
            assert(catsd[0].name == oldv.categories[0].name);
            assert(catsd[0].mod_ids == keep_known(oldv.categories[0].mod_ids, newm));
            assert(freshd == fresh_ids(oldv.mods, scv));
            assert(new_cats.deep_view()[0] == una.deep_view());
            assert(new_cats.deep_view()[0] =~~= (CategoryView {
                name: oldv.categories[0].name,
                mod_ids: keep_known(oldv.categories[0].mod_ids, newm) + fresh_ids(oldv.mods, scv),
            }));
            assert forall|cc: int| 1 <= cc < new_cats.deep_view().len()
                implies #[trigger] new_cats.deep_view()[cc] =~~= (CategoryView {
                name: oldv.categories[cc].name,
                mod_ids: keep_known(oldv.categories[cc].mod_ids, newm),
            }) by {
                assert(new_cats.deep_view()[cc] == catsd[cc]);
                assert(catsd[cc].name == oldv.categories[cc].name);
                assert(catsd[cc].mod_ids == keep_known(oldv.categories[cc].mod_ids, newm));
            }
        }
        // The load order keeps its surviving, still-enabled entries.
        let mut new_lo: Vec<Vec<u8>> = Vec::new();
        let mut t: usize = 0;
        proof {
            lemma_reconcile_ids(oldv.mods, scv);
            assert(ids_unique(newm));
            assert(oldv.load_order.take(0) =~= Seq::<Seq<u8>>::empty());
            assert(new_lo.deep_view() =~= filter_enabled(newm, oldv.load_order.take(0)));
        }
        while t < self.load_order.len()
            invariant
                self@ == oldv,
                new_mods.deep_view() == newm,
                ids_unique(newm),
                t <= oldv.load_order.len(),
                new_lo.deep_view() == filter_enabled(newm, oldv.load_order.take(t as int)),
            decreases self.load_order.len() - t,
        {
            let entry = &self.load_order[t];
            proof {
                assert(entry.deep_view() =~= entry@);
                assert(entry.deep_view() == oldv.load_order[t as int]);
            }
            let keep = match find_in_mods(&new_mods, entry.as_slice()) {
                None => false,
                Some(mi) => {
                    proof {
                        lemma_mod_index_unique(newm, entry@, mi as int);
                    }
                    new_mods[mi].enabled
                },
            };
            proof {
                assert(keep == mod_enabled(newm, oldv.load_order[t as int]));
            }
            let ghost pre = new_lo.deep_view();
            if keep {
                let copied = copy_range(entry.as_slice(), 0, entry.len());
                proof {
                    assert(copied.deep_view() =~= copied@);
                    assert(copied.deep_view() == oldv.load_order[t as int]);
                }
                new_lo.push(copied);
                proof {
                    assert(new_lo.deep_view() =~= pre.push(oldv.load_order[t as int]));
                }
            }
            proof {
                let taken = oldv.load_order.take(t + 1);
                assert(taken.drop_last() =~= oldv.load_order.take(t as int));
                assert(taken.last() == oldv.load_order[t as int]);
                assert(new_lo.deep_view() == filter_enabled(newm, taken));
            }
            t += 1;
        }
        proof {
            assert(oldv.load_order.take(oldv.load_order.len() as int) =~= oldv.load_order);
        }
        self.mods = new_mods;
        self.categories = new_cats;
        self.load_order = new_lo;
        proof {
            lemma_rescan_wf(oldv, scv);
            let newv = self@;
            assert(newv.categories =~~= rescan_categories(oldv, scv));
            assert(newv.mods == newm);
            assert(newv.load_order == filter_enabled(newm, oldv.load_order));
            assert(newv =~~= (GameConfigView {
                mods: newm,
                categories: rescan_categories(oldv, scv),
                load_order: filter_enabled(newm, oldv.load_order),
            }));
        }
    }
}

/// The category table a rescan produces.
pub open spec fn rescan_categories(c: GameConfigView, scv: Seq<ModView>) -> Seq<CategoryView> {
    let newm = reconcile_spec(c.mods, scv);
    Seq::new(
        c.categories.len(),
        |cc: int|
            CategoryView {
                name: c.categories[cc].name,
                mod_ids: if cc == 0 {
                    keep_known(c.categories[0].mod_ids, newm) + fresh_ids(c.mods, scv)
                } else {
                    keep_known(c.categories[cc].mod_ids, newm)
                },
            },
    )
}

/// Reconciliation keeps the scanned ids, position for position.
pub proof fn lemma_reconcile_ids(pers: Seq<ModView>, sc: Seq<ModView>)
    ensures
        reconcile_spec(pers, sc).len() == sc.len(),
        forall|i: int|
            0 <= i < sc.len() ==> #[trigger] reconcile_spec(pers, sc)[i].id == sc[i].id,
        ids_unique(sc) ==> ids_unique(reconcile_spec(pers, sc)),
{
    let r = reconcile_spec(pers, sc);
    assert forall|i: int| 0 <= i < sc.len() implies #[trigger] r[i].id == sc[i].id by {
        if has_mod(pers, sc[i].id) {
            let w = mod_index(pers, sc[i].id);
            assert(pers[w].id == sc[i].id);
        }
    }
}

/// The surviving part of one old category list: entries are known to the new
/// registry, stem from the old list, and repeat nothing.
proof fn lemma_cat_keep(c: GameConfigView, newm: Seq<ModView>, cc: int)
    requires
        c.wf(),
        0 <= cc < c.categories.len(),
    ensures
        forall|t: int|
            0 <= t < keep_known(c.categories[cc].mod_ids, newm).len() ==> has_mod(
                newm,
                #[trigger] keep_known(c.categories[cc].mod_ids, newm)[t],
            ),
        forall|t: int|
            0 <= t < keep_known(c.categories[cc].mod_ids, newm).len() ==> exists|k: int|
                0 <= k < c.categories[cc].mod_ids.len() && c.categories[cc].mod_ids[k]
                    == #[trigger] keep_known(c.categories[cc].mod_ids, newm)[t],
        forall|t1: int, t2: int|
            0 <= t1 < t2 < keep_known(c.categories[cc].mod_ids, newm).len() ==> keep_known(
                c.categories[cc].mod_ids,
                newm,
            )[t1] != keep_known(c.categories[cc].mod_ids, newm)[t2],
{
    let ids = c.categories[cc].mod_ids;
    assert forall|k1: int, k2: int| 0 <= k1 < k2 < ids.len() implies ids[k1] != ids[k2] by {
        assert(c.categories[cc].mod_ids[k1] == ids[k1]);
        assert(c.categories[cc].mod_ids[k2] == ids[k2]);
    }
    lemma_keep_known_props(ids, newm);
    lemma_keep_known_distinct(ids, newm);
}

/// The configuration a rescan produces is well-formed.
pub proof fn lemma_rescan_wf(c: GameConfigView, scv: Seq<ModView>)
    requires
        c.wf(),
        ids_unique(scv),
    ensures
        (GameConfigView {
            mods: reconcile_spec(c.mods, scv),
            categories: rescan_categories(c, scv),
            load_order: filter_enabled(reconcile_spec(c.mods, scv), c.load_order),
        }).wf(),
{
    let newm = reconcile_spec(c.mods, scv);
    let newc = rescan_categories(c, scv);
    let newlo = filter_enabled(newm, c.load_order);
    let nv = GameConfigView { mods: newm, categories: newc, load_order: newlo };
    lemma_reconcile_ids(c.mods, scv);
    lemma_fresh_ids_props(c.mods, scv);
    lemma_fresh_ids_distinct(c.mods, scv);
    // Names are copied position for position, so the reserved category and
    // name uniqueness carry over.
    assert(newc[0].name == c.categories[0].name);
    assert forall|i: int, j: int| 0 <= i < j < newc.len() implies newc[i].name
        != newc[j].name by {
        assert(newc[i].name == c.categories[i].name);
        assert(newc[j].name == c.categories[j].name);
    }
    // Listings name known mods.
    assert forall|cc: int, k: int|
        0 <= cc < newc.len() && 0 <= k < newc[cc].mod_ids.len() implies has_mod(
        newm,
        #[trigger] newc[cc].mod_ids[k],
    ) by {
        lemma_cat_keep(c, newm, cc);
        let keep0 = keep_known(c.categories[0].mod_ids, newm);
        if cc == 0 && k >= keep0.len() {
            let x = fresh_ids(c.mods, scv)[k - keep0.len()];
            assert(newc[0].mod_ids[k] == x);
            let i = choose|i: int| 0 <= i < scv.len() && scv[i].id == x;
            assert(newm[i].id == x);
        } else {
            assert(newc[cc].mod_ids[k] == keep_known(c.categories[cc].mod_ids, newm)[k]);
        }
    }
    // No id is listed twice.
    assert forall|c1: int, k1: int, c2: int, k2: int|
        0 <= c1 < newc.len() && 0 <= k1 < newc[c1].mod_ids.len() && 0 <= c2 < newc.len() && 0
            <= k2 < newc[c2].mod_ids.len() && #[trigger] newc[c1].mod_ids[k1]
            == #[trigger] newc[c2].mod_ids[k2] implies c1 == c2 && k1 == k2 by {
        lemma_cat_keep(c, newm, c1);
        lemma_cat_keep(c, newm, c2);
        let keep0 = keep_known(c.categories[0].mod_ids, newm);
        let x = newc[c1].mod_ids[k1];
        let fresh1 = c1 == 0 && k1 >= keep0.len();
        let fresh2 = c2 == 0 && k2 >= keep0.len();
        if fresh1 != fresh2 {
            // One entry is a newcomer, the other survived from the old table:
            // the old table only lists ids the old registry knew.
            if fresh1 {
                assert(!has_mod(c.mods, fresh_ids(c.mods, scv)[k1 - keep0.len()]));
                let k = choose|k: int|
                    0 <= k < c.categories[c2].mod_ids.len() && c.categories[c2].mod_ids[k] == x;
                assert(has_mod(c.mods, x));
            } else {
                assert(!has_mod(c.mods, fresh_ids(c.mods, scv)[k2 - keep0.len()]));
                let k = choose|k: int|
                    0 <= k < c.categories[c1].mod_ids.len() && c.categories[c1].mod_ids[k] == x;
                assert(has_mod(c.mods, x));
            }
        } else if fresh1 && fresh2 {
            assert(fresh_ids(c.mods, scv)[k1 - keep0.len()] == fresh_ids(
                c.mods,
                scv,
            )[k2 - keep0.len()]);
        } else {
            let ka = choose|k: int|
                0 <= k < c.categories[c1].mod_ids.len() && c.categories[c1].mod_ids[k] == x;
            let kb = choose|k: int|
                0 <= k < c.categories[c2].mod_ids.len() && c.categories[c2].mod_ids[k] == x;
            assert(c.categories[c1].mod_ids[ka] == c.categories[c2].mod_ids[kb]);
            assert(c1 == c2);
            let keep_list = keep_known(c.categories[c1].mod_ids, newm);
            assert(newc[c1].mod_ids[k1] == keep_list[k1]);
            assert(newc[c2].mod_ids[k2] == keep_list[k2]);
            if k1 < k2 {
                assert(keep_list[k1] != keep_list[k2]);
            } else if k2 < k1 {
                assert(keep_list[k2] != keep_list[k1]);
            }
        }
    }
    // Every mod is listed.
    assert forall|i: int| 0 <= i < newm.len() implies listed(newc, #[trigger] newm[i].id) by {
        let x = newm[i].id;
        assert(x == scv[i].id);
        let keep0 = keep_known(c.categories[0].mod_ids, newm);
        if has_mod(c.mods, x) {
            let w = mod_index(c.mods, x);
            assert(listed(c.categories, c.mods[w].id));
            let (cc, k) = choose|cc: int, k: int|
                0 <= cc < c.categories.len() && 0 <= k < c.categories[cc].mod_ids.len()
                    && c.categories[cc].mod_ids[k] == x;
            assert(has_mod(newm, x)) by {
                assert(newm[i].id == x);
            }
            lemma_keep_known_forward(c.categories[cc].mod_ids, newm, k);
            let t = choose|t: int|
                0 <= t < keep_known(c.categories[cc].mod_ids, newm).len() && keep_known(
                    c.categories[cc].mod_ids,
                    newm,
                )[t] == x;
            assert(newc[cc].mod_ids[t] == x);
        } else {
            lemma_fresh_ids_forward(c.mods, scv, i);
            let t = choose|t: int|
                0 <= t < fresh_ids(c.mods, scv).len() && fresh_ids(c.mods, scv)[t] == x;
            assert(newc[0].mod_ids[keep0.len() + t] == x);
        }
    }
    // The load order names enabled mods, each once.
    lemma_filter_enabled_props(newm, c.load_order);
    assert(forall|s1: int, s2: int|
        0 <= s1 < s2 < c.load_order.len() ==> c.load_order[s1] != c.load_order[s2]);
    lemma_filter_enabled_distinct(newm, c.load_order);
}

} // verus!
