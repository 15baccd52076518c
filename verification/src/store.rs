//! An explicit model of the per-game persisted files: a name-to-content map
//! with the exact operations the launcher's storage layer performs. The
//! configuration store writes through a temporary file and renames it over
//! the target, so an interruption between the two steps never touches the
//! previous good state; the I/O layer replays these operations one for one
//! on the real filesystem.

use vstd::prelude::*;
use vstd::string::StringSliceAdditionalSpecFns;

use crate::config_text::{
    empty_config, parse_config_spec, parse_game_config, ser_config, serialize_game_config,
};
use crate::error::CoreError;
use crate::game_config::GameConfig;
use crate::profile::{
    from_shareable_string, parse_profile_spec, ser_profile, to_shareable_string, ShareableMod,
};
use crate::text::{bytes_eq, copy_range, push_all};

verus! {

/// The files a store holds, as a name-keyed association list.
#[derive(Debug)]
pub struct FileStore {
    pub files: Vec<(Vec<u8>, Vec<u8>)>,
}

/// The map an association list denotes; later entries win, though a
/// well-formed store never repeats a name.
pub open spec fn files_map(s: Seq<(Vec<u8>, Vec<u8>)>) -> Map<Seq<u8>, Seq<u8>>
    decreases s.len(),
{
    if s.len() == 0 {
        Map::empty()
    } else {
        files_map(s.drop_last()).insert(s.last().0@, s.last().1@)
    }
}

impl View for FileStore {
    type V = Map<Seq<u8>, Seq<u8>>;

    open spec fn view(&self) -> Map<Seq<u8>, Seq<u8>> {
        files_map(self.files@)
    }
}

impl FileStore {
    /// File names never repeat.
    pub open spec fn wf(self) -> bool {
        forall|i: int, j: int|
            0 <= i < j < self.files@.len() ==> self.files@[i].0@ != self.files@[j].0@
    }

    /// An empty store.
    pub fn new() -> (r: FileStore)
        ensures
            r.wf(),
            r@ == Map::<Seq<u8>, Seq<u8>>::empty(),
    {
        let r = FileStore { files: Vec::new() };
        proof {
            assert(r@ =~= Map::<Seq<u8>, Seq<u8>>::empty());
        }
        r
    }
}

/// A name is in the map exactly when some entry carries it.
pub proof fn lemma_files_map_domain(s: Seq<(Vec<u8>, Vec<u8>)>, k: Seq<u8>)
    ensures
        files_map(s).contains_key(k) <==> exists|i: int| 0 <= i < s.len() && s[i].0@ == k,
    decreases s.len(),
{
    if s.len() > 0 {
        lemma_files_map_domain(s.drop_last(), k);
        if files_map(s).contains_key(k) {
            if s.last().0@ != k {
                let i = choose|i: int| 0 <= i < s.drop_last().len() && s.drop_last()[i].0@ == k;
                assert(s[i].0@ == k);
            } else {
                assert(s[s.len() - 1].0@ == k);
            }
        }
        if exists|i: int| 0 <= i < s.len() && s[i].0@ == k {
            let i = choose|i: int| 0 <= i < s.len() && s[i].0@ == k;
            if i < s.len() - 1 {
                assert(s.drop_last()[i].0@ == k);
            }
        }
    }
}

/// With unique names, each entry's content is what the map returns.
pub proof fn lemma_files_map_index(s: Seq<(Vec<u8>, Vec<u8>)>, i: int)
    requires
        forall|x: int, y: int| 0 <= x < y < s.len() ==> s[x].0@ != s[y].0@,
        0 <= i < s.len(),
    ensures
        files_map(s).contains_key(s[i].0@),
        files_map(s)[s[i].0@] == s[i].1@,
    decreases s.len(),
{
    lemma_files_map_domain(s, s[i].0@);
    if i < s.len() - 1 {
        assert(forall|x: int, y: int|
            0 <= x < y < s.drop_last().len() ==> s.drop_last()[x].0@ != s.drop_last()[y].0@);
        lemma_files_map_index(s.drop_last(), i);
        assert(s[i].0@ != s.last().0@);
    }
}

impl FileStore {
    /// Index of the entry named `name`, if any.
    fn find(&self, name: &[u8]) -> (r: Option<usize>)
        ensures
            match r {
                Some(i) => i < self.files@.len() && self.files@[i as int].0@ == name@,
                None => !(exists|i: int|
                    0 <= i < self.files@.len() && self.files@[i].0@ == name@),
            },
    {
        let mut i: usize = 0;
        while i < self.files.len()
            invariant
                i <= self.files@.len(),
                forall|j: int| 0 <= j < i ==> self.files@[j].0@ != name@,
            decreases self.files.len() - i,
        {
            if bytes_eq(self.files[i].0.as_slice(), name) {
                return Some(i);
            }
            i += 1;
        }
        None
    }

    /// Whether a file of this name exists.
    pub fn contains(&self, name: &[u8]) -> (r: bool)
        ensures
            r == self@.contains_key(name@),
    {
        proof {
            lemma_files_map_domain(self.files@, name@);
        }
        self.find(name).is_some()
    }

    /// The content of the named file, if it exists.
    pub fn get(&self, name: &[u8]) -> (r: Option<&Vec<u8>>)
        requires
            self.wf(),
        ensures
            match r {
                Some(v) => self@.contains_key(name@) && v@ == self@[name@],
                None => !self@.contains_key(name@),
            },
    {
        proof {
            lemma_files_map_domain(self.files@, name@);
        }
        match self.find(name) {
            None => None,
            Some(i) => {
                proof {
                    lemma_files_map_index(self.files@, i as int);
                }
                Some(&self.files[i].1)
            },
        }
    }

    /// Creates or overwrites the named file.
    pub fn put(&mut self, name: Vec<u8>, content: Vec<u8>)
        requires
            old(self).wf(),
        ensures
            final(self).wf(),
            final(self)@ == old(self)@.insert(name@, content@),
    {
        let ghost oldfiles = self.files@;
        match self.find(name.as_slice()) {
            Some(i) => {
                let mut entry = self.files.remove(i);
                entry.1 = content;
                self.files.insert(i, entry);
                proof {
                    let s = self.files@;
                    assert(s.len() == oldfiles.len());
                    assert forall|j: int| 0 <= j < s.len() implies s[j].0@ == oldfiles[j].0@
                        && (j != i ==> s[j] == oldfiles[j]) by {}
                    assert(self.wf());
                    assert(self@ =~= old(self)@.insert(name@, content@)) by {
                        lemma_files_map_insert_at(s, oldfiles, i as int, name@, content@);
                    }
                }
            },
            None => {
                self.files.push((name, content));
                proof {
                    let s = self.files@;
                    assert(s.drop_last() =~= oldfiles);
                    assert(self.wf()) by {
                        assert forall|x: int, y: int| 0 <= x < y < s.len() implies s[x].0@
                            != s[y].0@ by {
                            if y == s.len() - 1 {
                                assert(s[x].0@ == oldfiles[x].0@);
                            }
                        }
                    }
                    assert(self@ =~= old(self)@.insert(name@, content@));
                }
            },
        }
    }

    /// Deletes the named file if it exists.
    pub fn remove(&mut self, name: &[u8])
        requires
            old(self).wf(),
        ensures
            final(self).wf(),
            final(self)@ == old(self)@.remove(name@),
    {
        let ghost oldfiles = self.files@;
        match self.find(name) {
            Some(i) => {
                self.files.remove(i);
                proof {
                    lemma_files_map_remove_at(oldfiles, i as int);
                    assert(forall|j: int|
                        0 <= j < self.files@.len() ==> #[trigger] self.files@[j] == (
                        if j < i {
                            oldfiles[j]
                        } else {
                            oldfiles[j + 1]
                        }));
                    assert(self.wf());
                }
            },
            None => {
                proof {
                    lemma_files_map_domain(oldfiles, name@);
                    assert(self@ =~= old(self)@.remove(name@));
                }
            },
        }
    }

    /// Renames a file over a (possibly existing) target, as the filesystem
    /// rename does. Fails with `NotFoundError` when the source is missing,
    /// changing nothing.
    pub fn rename(&mut self, from: &[u8], to: &[u8]) -> (r: Result<(), CoreError>)
        requires
            old(self).wf(),
        ensures
            final(self).wf(),
            !old(self)@.contains_key(from@) ==> ((r matches Err(CoreError::NotFound))
                && final(self)@ == old(self)@),
            old(self)@.contains_key(from@) ==> ((r matches Ok(()))
                && final(self)@ == old(self)@.remove(from@).insert(to@, old(self)@[from@])),
    {
        proof {
            lemma_files_map_domain(self.files@, from@);
        }
        let i = match self.find(from) {
            None => {
                return Err(CoreError::NotFound);
            },
            Some(i) => i,
        };
        proof {
            lemma_files_map_index(self.files@, i as int);
        }
        let entry = self.files.remove(i);
        proof {
            lemma_files_map_remove_at(old(self).files@, i as int);
            assert(forall|j: int|
                0 <= j < self.files@.len() ==> #[trigger] self.files@[j] == (
                if j < i {
                    old(self).files@[j]
                } else {
                    old(self).files@[j + 1]
                }));
            assert(self.wf());
        }
        let name = copy_range(to, 0, to.len());
        proof {
            assert(name@ =~= to@);
        }
        self.put(name, entry.1);
        Ok(())
    }
}

/// Updating the content of entry `i` in place updates its key in the map.
pub proof fn lemma_files_map_insert_at(
    s: Seq<(Vec<u8>, Vec<u8>)>,
    olds: Seq<(Vec<u8>, Vec<u8>)>,
    i: int,
    name: Seq<u8>,
    content: Seq<u8>,
)
    requires
        s.len() == olds.len(),
        0 <= i < s.len(),
        forall|x: int, y: int| 0 <= x < y < olds.len() ==> olds[x].0@ != olds[y].0@,
        forall|j: int| 0 <= j < s.len() ==> s[j].0@ == olds[j].0@,
        forall|j: int| 0 <= j < s.len() && j != i ==> s[j] == olds[j],
        olds[i].0@ == name,
        s[i].0@ == name,
        s[i].1@ == content,
    ensures
        files_map(s) == files_map(olds).insert(name, content),
    decreases s.len(),
{
    if i == s.len() - 1 {
        assert(s.drop_last() =~= olds.drop_last());
        assert(files_map(s) =~= files_map(olds).insert(name, content));
    } else {
        assert(forall|x: int, y: int|
            0 <= x < y < olds.drop_last().len() ==> olds.drop_last()[x].0@
                != olds.drop_last()[y].0@);
        assert(forall|j: int|
            0 <= j < s.drop_last().len() ==> s.drop_last()[j].0@ == olds.drop_last()[j].0@);
        assert(forall|j: int|
            0 <= j < s.drop_last().len() && j != i ==> s.drop_last()[j] == olds.drop_last()[j]);
        lemma_files_map_insert_at(s.drop_last(), olds.drop_last(), i, name, content);
        assert(s.last() == olds.last());
        assert(olds.last().0@ != name);
        assert(files_map(s) =~= files_map(olds).insert(name, content));
    }
}

/// Removing entry `i` removes its key from the map.
pub proof fn lemma_files_map_remove_at(s: Seq<(Vec<u8>, Vec<u8>)>, i: int)
    requires
        forall|x: int, y: int| 0 <= x < y < s.len() ==> s[x].0@ != s[y].0@,
        0 <= i < s.len(),
    ensures
        files_map(s.remove(i)) == files_map(s).remove(s[i].0@),
    decreases s.len(),
{
    if i == s.len() - 1 {
        assert(s.remove(i) =~= s.drop_last());
        lemma_files_map_domain(s.drop_last(), s[i].0@);
        assert(!files_map(s.drop_last()).contains_key(s[i].0@)) by {
            if exists|x: int| 0 <= x < s.drop_last().len() && s.drop_last()[x].0@ == s[i].0@ {
                let x = choose|x: int|
                    0 <= x < s.drop_last().len() && s.drop_last()[x].0@ == s[i].0@;
                assert(s[x].0@ == s[i].0@);
            }
        }
        assert(files_map(s.remove(i)) =~= files_map(s).remove(s[i].0@));
    } else {
        assert(forall|x: int, y: int|
            0 <= x < y < s.drop_last().len() ==> s.drop_last()[x].0@ != s.drop_last()[y].0@);
        lemma_files_map_remove_at(s.drop_last(), i);
        assert(s.drop_last()[i].0@ == s[i].0@);
        assert(s.remove(i).drop_last() =~= s.drop_last().remove(i));
        assert(s.remove(i).last() == s.last());
        assert(s.last().0@ != s[i].0@);
        assert(files_map(s.remove(i)) =~= files_map(s).remove(s[i].0@));
    }
}

/// The temporary file a save writes before renaming it over the target.
pub open spec fn temp_name(path: Seq<u8>) -> Seq<u8> {
    path + ".tmp".spec_bytes()
}

/// Where a corrupt configuration file is renamed aside, never deleted.
pub open spec fn aside_name(path: Seq<u8>) -> Seq<u8> {
    path + ".invalid".spec_bytes()
}

/// The temporary and aside names never collide with the target itself.
pub proof fn lemma_decorated_names_differ(path: Seq<u8>)
    ensures
        temp_name(path) != path,
        aside_name(path) != path,
{
    reveal_strlit(".tmp");
    reveal_strlit(".invalid");
    assert(".tmp"@.len() == 4);
    assert(".invalid"@.len() == 8);
    assert(temp_name(path).len() > path.len());
    assert(aside_name(path).len() > path.len());
}

/// Executable form of [`temp_name`].
pub fn temp_name_of(path: &[u8]) -> (r: Vec<u8>)
    ensures
        r@ == temp_name(path@),
{
    let mut r = copy_range(path, 0, path.len());
    push_all(&mut r, ".tmp".as_bytes());
    proof {
        assert(r@ =~= temp_name(path@));
    }
    r
}

/// Executable form of [`aside_name`].
pub fn aside_name_of(path: &[u8]) -> (r: Vec<u8>)
    ensures
        r@ == aside_name(path@),
{
    let mut r = copy_range(path, 0, path.len());
    push_all(&mut r, ".invalid".as_bytes());
    proof {
        assert(r@ =~= aside_name(path@));
    }
    r
}

/// First half of an atomic save: the bytes go to the temporary file; the
/// target itself — and every other file — is untouched.
pub fn save_stage(store: &mut FileStore, path: &[u8], bytes: Vec<u8>)
    requires
        old(store).wf(),
    ensures
        final(store).wf(),
        final(store)@ == old(store)@.insert(temp_name(path@), bytes@),
        final(store)@.contains_key(path@) == old(store)@.contains_key(path@),
        old(store)@.contains_key(path@) ==> final(store)@[path@] == old(store)@[path@],
{
    let temp = temp_name_of(path);
    store.put(temp, bytes);
    proof {
        lemma_decorated_names_differ(path@);
    }
}

/// Second half of an atomic save: the temporary file is renamed over the
/// target. Fails only when no save was staged.
pub fn save_commit(store: &mut FileStore, path: &[u8]) -> (r: Result<(), CoreError>)
    requires
        old(store).wf(),
    ensures
        final(store).wf(),
        !old(store)@.contains_key(temp_name(path@)) ==> ((r matches Err(CoreError::NotFound))
            && final(store)@ == old(store)@),
        old(store)@.contains_key(temp_name(path@)) ==> ((r matches Ok(())) && final(store)@
            == old(store)@.remove(temp_name(path@)).insert(
            path@,
            old(store)@[temp_name(path@)],
        )),
{
    let temp = temp_name_of(path);
    store.rename(temp.as_slice(), path)
}

/// Law (atomic save): a save writes the whole content through a temporary
/// file and renames it over the target, so a crash after the stage but
/// before the rename leaves the previous good file exactly as it was.
pub proof fn lemma_save_interrupted(m: Map<Seq<u8>, Seq<u8>>, path: Seq<u8>, bytes: Seq<u8>)
    ensures
        m.insert(temp_name(path), bytes).contains_key(path) == m.contains_key(path),
        m.contains_key(path) ==> m.insert(temp_name(path), bytes)[path] == m[path],
{
    lemma_decorated_names_differ(path);
}

/// A whole save: stage, then commit. The target ends up holding exactly the
/// new bytes, and the temporary file is gone.
pub fn save_file(store: &mut FileStore, path: &[u8], bytes: Vec<u8>)
    requires
        old(store).wf(),
    ensures
        final(store).wf(),
        final(store)@ == old(store)@.insert(temp_name(path@), bytes@).remove(
            temp_name(path@),
        ).insert(path@, bytes@),
        final(store)@.contains_key(path@),
        final(store)@[path@] == bytes@,
{
    let ghost b = bytes@;
    save_stage(store, path, bytes);
    let r = save_commit(store, path);
    proof {
        assert(r matches Ok(()));
    }
}

/// `base` and `leaf` joined with a path separator.
pub open spec fn joined(base: Seq<u8>, leaf: Seq<u8>) -> Seq<u8> {
    base + seq![47u8] + leaf
}

/// Joins one path component onto a base directory.
pub fn path_join(base: &[u8], leaf: &[u8]) -> (r: Vec<u8>)
    ensures
        r@ == joined(base@, leaf@),
{
    let mut r = copy_range(base, 0, base.len());
    r.push(47);
    push_all(&mut r, leaf);
    proof {
        assert(r@ =~= joined(base@, leaf@));
    }
    r
}

/// The per-game staging directory for temporary packs, namespaced by the
/// game key so concurrently configured games never interfere.
pub fn temp_packs_folder(config_dir: &[u8], game_key: &[u8]) -> (r: Vec<u8>)
    ensures
        r@ == joined(joined(config_dir@, "temp_packs".spec_bytes()), game_key@),
{
    let base = path_join(config_dir, "temp_packs".as_bytes());
    path_join(base.as_slice(), game_key)
}

/// Where downloaded schemas live.
pub fn schemas_path(config_dir: &[u8]) -> (r: Vec<u8>)
    ensures
        r@ == joined(config_dir@, "schemas".spec_bytes()),
{
    path_join(config_dir, "schemas".as_bytes())
}

/// Where the per-game configuration files live.
pub fn game_config_path(config_dir: &[u8]) -> (r: Vec<u8>)
    ensures
        r@ == joined(config_dir@, "game_config".spec_bytes()),
{
    path_join(config_dir, "game_config".as_bytes())
}

/// Where the named profiles live.
pub fn profiles_path(config_dir: &[u8]) -> (r: Vec<u8>)
    ensures
        r@ == joined(config_dir@, "profiles".spec_bytes()),
{
    path_join(config_dir, "profiles".as_bytes())
}

/// How a configuration was obtained on load.
#[derive(Clone, Copy, Debug, PartialEq, Eq, Structural)]
pub enum LoadOutcome {
    /// No file existed: a fresh empty configuration.
    Fresh,
    /// The file parsed: its configuration.
    Loaded,
    /// The file was corrupt: it was renamed aside, never deleted, and an
    /// empty configuration stands in.
    Recovered,
}

/// Loads a game's configuration. A missing file yields a fresh empty
/// configuration; a corrupt file is renamed aside (with the `.invalid`
/// suffix) before an empty configuration stands in, so no data is destroyed;
/// neither case is fatal.
pub fn load_game_config(store: &mut FileStore, path: &[u8]) -> (r: (GameConfig, LoadOutcome))
    requires
        old(store).wf(),
        old(store)@.contains_key(path@) ==> old(store)@[path@].len() < usize::MAX,
    ensures
        final(store).wf(),
        r.0@.wf(),
        !old(store)@.contains_key(path@) ==> (r.1 == LoadOutcome::Fresh && r.0@ == empty_config()
            && final(store)@ == old(store)@),
        old(store)@.contains_key(path@) ==> (match parse_config_spec(
            old(store)@[path@],
            1,
            empty_config(),
        ) {
            Ok(c) => r.1 == LoadOutcome::Loaded && r.0@ == c && final(store)@ == old(store)@,
            Err(_) => r.1 == LoadOutcome::Recovered && r.0@ == empty_config() && final(store)@
                == old(store)@.remove(path@).insert(aside_name(path@), old(store)@[path@]),
        }),
{
    let parsed = match store.get(path) {
        None => {
            let fresh = GameConfig::empty();
            proof {
                assert(fresh@ =~~= empty_config());
            }
            return (fresh, LoadOutcome::Fresh);
        },
        Some(content) => parse_game_config(content.as_slice()),
    };
    match parsed {
        Ok(config) => (config, LoadOutcome::Loaded),
        Err(_) => {
            let aside = aside_name_of(path);
            let renamed = store.rename(path, aside.as_slice());
            proof {
                assert(renamed matches Ok(()));
            }
            let fresh = GameConfig::empty();
            proof {
                assert(fresh@ =~~= empty_config());
            }
            (fresh, LoadOutcome::Recovered)
        },
    }
}

/// Saves a game's configuration atomically: the serialized text goes to the
/// temporary file, which is then renamed over the target.
pub fn save_game_config(store: &mut FileStore, path: &[u8], config: &GameConfig)
    requires
        old(store).wf(),
        config@.wf(),
    ensures
        final(store).wf(),
        final(store)@ == old(store)@.insert(temp_name(path@), ser_config(config@)).remove(
            temp_name(path@),
        ).insert(path@, ser_config(config@)),
        final(store)@.contains_key(path@),
        final(store)@[path@] == ser_config(config@),
{
    let bytes = serialize_game_config(config);
    save_file(store, path, bytes);
}

/// Persists a named profile: its shareable text, saved atomically under the
/// profile's path.
pub fn save_profile(store: &mut FileStore, path: &[u8], list: &Vec<ShareableMod>)
    requires
        old(store).wf(),
    ensures
        final(store).wf(),
        final(store)@ == old(store)@.insert(
            temp_name(path@),
            ser_profile(list.deep_view()),
        ).remove(temp_name(path@)).insert(path@, ser_profile(list.deep_view())),
        final(store)@.contains_key(path@),
        final(store)@[path@] == ser_profile(list.deep_view()),
{
    let bytes = to_shareable_string(list);
    save_file(store, path, bytes);
}

/// Loads a named profile. Fails with `NotFoundError` when no profile of that
/// name exists, and with `ParseError` when its text is malformed.
pub fn load_profile(store: &FileStore, path: &[u8]) -> (r: Result<Vec<ShareableMod>, CoreError>)
    requires
        store.wf(),
        store@.contains_key(path@) ==> store@[path@].len() < usize::MAX,
    ensures
        !store@.contains_key(path@) ==> (r matches Err(CoreError::NotFound)),
        store@.contains_key(path@) ==> (match parse_profile_spec(store@[path@], 1) {
            Ok(es) => (r matches Ok(v)) && r->Ok_0.deep_view() == es,
            Err(l) => (r matches Err(CoreError::Parse { line })) && r->Err_0 == (
            CoreError::Parse { line: l as u64 }),
        }),
{
    match store.get(path) {
        None => Err(CoreError::NotFound),
        Some(content) => from_shareable_string(content.as_slice()),
    }
}

} // verus!
