//! The mod entity: one installed content package, local and/or sourced from
//! the online workshop catalogue, together with the record shape the online
//! metadata source returns. Pure values; identity is the stable id, which is
//! the workshop id for workshop-sourced mods and a name derived from the file
//! path for purely local ones.

use vstd::prelude::*;

verus! {

/// Abstract value of a [`Mod`].
#[verifier::ext_equal]
pub struct ModView {
    pub id: Seq<u8>,
    pub name: Seq<u8>,
    pub creator: Seq<u8>,
    pub path: Seq<u8>,
    pub size: u64,
    pub enabled: bool,
    /// Sourced from the workshop: the id is a workshop id.
    pub workshop: bool,
    pub file_url: Seq<u8>,
    pub preview_url: Seq<u8>,
    pub description: Seq<u8>,
    pub time_created: u64,
    pub time_updated: u64,
    /// Online metadata has been merged in at least once.
    pub online: bool,
    /// Local file known to differ from the online version.
    pub outdated: bool,
}

/// One known mod of a game.
#[derive(Debug)]
pub struct Mod {
    pub id: Vec<u8>,
    pub name: Vec<u8>,
    pub creator: Vec<u8>,
    pub path: Vec<u8>,
    pub size: u64,
    pub enabled: bool,
    pub workshop: bool,
    pub file_url: Vec<u8>,
    pub preview_url: Vec<u8>,
    pub description: Vec<u8>,
    pub time_created: u64,
    pub time_updated: u64,
    pub online: bool,
    pub outdated: bool,
}

impl View for Mod {
    type V = ModView;

    open spec fn view(&self) -> ModView {
        ModView {
            id: self.id@,
            name: self.name@,
            creator: self.creator@,
            path: self.path@,
            size: self.size,
            enabled: self.enabled,
            workshop: self.workshop,
            file_url: self.file_url@,
            preview_url: self.preview_url@,
            description: self.description@,
            time_created: self.time_created,
            time_updated: self.time_updated,
            online: self.online,
            outdated: self.outdated,
        }
    }
}

/// One record of the online metadata source. Absent or failed lookups simply
/// omit the id, so a batch is a sequence of these.
#[derive(Debug)]
pub struct OnlineRecord {
    pub id: Vec<u8>,
    pub title: Vec<u8>,
    pub creator: Vec<u8>,
    pub file_size: u64,
    pub file_url: Vec<u8>,
    pub preview_url: Vec<u8>,
    pub description: Vec<u8>,
    pub time_created: u64,
    pub time_updated: u64,
}

/// Abstract value of an [`OnlineRecord`].
#[verifier::ext_equal]
pub struct OnlineRecordView {
    pub id: Seq<u8>,
    pub title: Seq<u8>,
    pub creator: Seq<u8>,
    pub file_size: u64,
    pub file_url: Seq<u8>,
    pub preview_url: Seq<u8>,
    pub description: Seq<u8>,
    pub time_created: u64,
    pub time_updated: u64,
}

impl View for OnlineRecord {
    type V = OnlineRecordView;

    open spec fn view(&self) -> OnlineRecordView {
        OnlineRecordView {
            id: self.id@,
            title: self.title@,
            creator: self.creator@,
            file_size: self.file_size,
            file_url: self.file_url@,
            preview_url: self.preview_url@,
            description: self.description@,
            time_created: self.time_created,
            time_updated: self.time_updated,
        }
    }
}

/// A separator byte in a file path: `/` or `\`.
pub open spec fn is_sep(b: u8) -> bool {
    b == 47 || b == 92
}

/// The part of a path after its last separator.
pub open spec fn base_name(p: Seq<u8>) -> Seq<u8>
    decreases p.len(),
{
    if p.len() == 0 {
        p
    } else if is_sep(p.last()) {
        Seq::empty()
    } else {
        base_name(p.drop_last()).push(p.last())
    }
}

pub open spec fn has_dot(n: Seq<u8>) -> bool {
    exists|i: int| 0 <= i < n.len() && n[i] == 46
}

/// The prefix of `n` before its last dot; meaningful when `n` has one.
pub open spec fn cut_ext(n: Seq<u8>) -> Seq<u8>
    decreases n.len(),
{
    if n.len() == 0 {
        n
    } else if n.last() == 46 {
        n.drop_last()
    } else {
        cut_ext(n.drop_last())
    }
}

/// The filename stem of a path: base name without its last extension.
pub open spec fn file_stem(p: Seq<u8>) -> Seq<u8> {
    let base = base_name(p);
    if has_dot(base) {
        cut_ext(base)
    } else {
        base
    }
}

/// `base_name` is exactly the suffix after the last separator, which is what
/// an exec scan from the end of the path establishes.
pub proof fn lemma_base_name_char(p: Seq<u8>, j: int)
    requires
        0 <= j <= p.len(),
        forall|i: int| j <= i < p.len() ==> !is_sep(p[i]),
        j > 0 ==> is_sep(p[j - 1]),
    ensures
        base_name(p) == p.skip(j),
    decreases p.len(),
{
    if p.len() == 0 {
        assert(base_name(p) =~= p.skip(j));
    } else if is_sep(p.last()) {
        assert(j == p.len());
        assert(base_name(p) =~= p.skip(j));
    } else {
        assert(j < p.len());
        assert forall|i: int| j <= i < p.drop_last().len() implies !is_sep(p.drop_last()[i]) by {
            assert(p.drop_last()[i] == p[i]);
        }
        lemma_base_name_char(p.drop_last(), j);
        assert(base_name(p) =~= p.skip(j));
    }
}

/// `cut_ext` is exactly the prefix before the last dot.
pub proof fn lemma_cut_ext_char(n: Seq<u8>, d: int)
    requires
        0 <= d < n.len(),
        n[d] == 46,
        forall|i: int| d < i < n.len() ==> n[i] != 46,
    ensures
        cut_ext(n) == n.take(d),
    decreases n.len(),
{
    if n.last() == 46 {
        assert(d == n.len() - 1);
        assert(cut_ext(n) =~= n.take(d));
    } else {
        assert(d < n.len() - 1);
        assert forall|i: int| d < i < n.drop_last().len() implies n.drop_last()[i] != 46 by {
            assert(n.drop_last()[i] == n[i]);
        }
        lemma_cut_ext_char(n.drop_last(), d);
        assert(n.drop_last().take(d) =~= n.take(d));
    }
}

impl Mod {
    /// A freshly scanned local package: user fields take their defaults, the
    /// online fields stay empty until a merge fills them.
    pub fn from_scan(id: Vec<u8>, path: Vec<u8>, size: u64, workshop: bool) -> (r: Mod)
        ensures
            r@ == (ModView {
                id: id@,
                name: Seq::<u8>::empty(),
                creator: Seq::<u8>::empty(),
                path: path@,
                size: size,
                enabled: false,
                workshop: workshop,
                file_url: Seq::<u8>::empty(),
                preview_url: Seq::<u8>::empty(),
                description: Seq::<u8>::empty(),
                time_created: 0u64,
                time_updated: 0u64,
                online: false,
                outdated: false,
            }),
    {
        Mod {
            id,
            name: Vec::new(),
            creator: Vec::new(),
            path,
            size,
            enabled: false,
            workshop,
            file_url: Vec::new(),
            preview_url: Vec::new(),
            description: Vec::new(),
            time_created: 0,
            time_updated: 0,
            online: false,
            outdated: false,
        }
    }

    /// The name shown for this mod: its online title when online metadata is
    /// present, else the filename stem of its backing file.
    pub fn display_name(&self) -> (r: Vec<u8>)
        ensures
            self.online ==> r@ == self@.name,
            !self.online ==> r@ == file_stem(self@.path),
    {
        if self.online {
            return crate::text::copy_range(self.name.as_slice(), 0, self.name.len());
        }
        let p = self.path.as_slice();
        // Scan for the last separator.
        let mut j: usize = p.len();
        while j > 0 && !(p[j - 1] == 47 || p[j - 1] == 92)
            invariant
                j <= p@.len(),
                forall|i: int| j <= i < p@.len() ==> !is_sep(p@[i]),
            decreases j,
        {
            j -= 1;
        }
        proof {
            lemma_base_name_char(p@, j as int);
        }
        // Scan the base name for its last dot.
        let ghost base = base_name(p@);
        let mut d: usize = p.len();
        let mut found_dot = false;
        let mut k: usize = p.len();
        while k > j && !found_dot
            invariant
                j <= k <= p@.len(),
                !found_dot ==> forall|i: int| k <= i < p@.len() ==> p@[i] != 46,
                found_dot ==> j <= d < p@.len() && p@[d as int] == 46
                    && forall|i: int| d < i < p@.len() ==> p@[i] != 46,
            decreases k,
        {
            if p[k - 1] == 46 {
                d = k - 1;
                found_dot = true;
            }
            k -= 1;
        }
        proof {
            assert(base =~= p@.skip(j as int));
            if found_dot {
                assert(base[d - j] == 46);
                assert forall|i: int| d - j < i < base.len() implies base[i] != 46 by {
                    assert(base[i] == p@[j + i]);
                }
                assert(has_dot(base));
                lemma_cut_ext_char(base, d - j);
                assert(base.take(d - j) =~= p@.subrange(j as int, d as int));
            } else {
                assert forall|i: int| 0 <= i < base.len() implies base[i] != 46 by {
                    assert(base[i] == p@[j + i]);
                }
                assert(!has_dot(base));
                assert(base =~= p@.subrange(j as int, p@.len() as int));
            }
        }
        if found_dot {
            crate::text::copy_range(p, j, d)
        } else {
            crate::text::copy_range(p, j, p.len())
        }
    }
}

} // verus!
