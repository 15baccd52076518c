//! The per-game configuration file format: a forward-compatible line-based
//! text. `category:<name>` opens a category (the reserved first category is
//! implicit and never written); `mod:<enabled>:<workshop>:<online>:<size>:
//! <created>:<updated>:<id>:<path>` registers a mod under the most recent
//! category; `order:<id>` appends to the load order. Lines with an unknown
//! first tag are ignored, so newer fields never break older readers; a
//! malformed known line is reported with its 1-based line number. Only
//! identity, file data, flags and timestamps are persisted: the volatile
//! online metadata (title, creator, urls, description) is refreshed from the
//! online source each session.

use vstd::prelude::*;
use vstd::string::StringSliceAdditionalSpecFns;
use vstd::string::is_ascii;

use crate::error::CoreError;
use crate::game_config::{
    app_mod, app_order, has_cat, has_mod, mod_index, unassigned, CategoryView, GameConfig,
    GameConfigView,
};
use crate::mods::{Mod, ModView};
use crate::text::{
    copy_range, dec_digits, find_colon, find_nl, first_colon, first_nl, parse_u64, parse_u64_spec,
    push_all, starts_with_at, trim_right, trim_right_spec, u64_to_dec, COLON, NL,
};

verus! {

pub open spec fn category_tag() -> Seq<u8> {
    "category:".spec_bytes()
}

pub open spec fn mod_tag() -> Seq<u8> {
    "mod:".spec_bytes()
}

pub open spec fn order_tag() -> Seq<u8> {
    "order:".spec_bytes()
}

pub open spec fn flag(b: bool) -> u8 {
    if b {
        49
    } else {
        48
    }
}

pub open spec fn is_flag(b: u8) -> bool {
    b == 48 || b == 49
}

/// The configuration a file is read into before any of its lines applied:
/// no mods, no order, only the reserved category.
pub open spec fn empty_config() -> GameConfigView {
    GameConfigView {
        mods: Seq::empty(),
        categories: seq![CategoryView { name: unassigned(), mod_ids: Seq::empty() }],
        load_order: Seq::empty(),
    }
}

/// What one trimmed, non-empty line does to the configuration built so far:
/// `None` marks a malformed known line; an unknown tag changes nothing.
pub open spec fn apply_config_line(c: GameConfigView, l: Seq<u8>) -> Option<GameConfigView> {
    if l.len() >= 9 && l.take(9) == category_tag() {
        let name = l.skip(9);
        if name == unassigned() || has_cat(c.categories, name) {
            None
        } else {
            Some(
                GameConfigView {
                    categories: c.categories.push(
                        CategoryView { name, mod_ids: Seq::empty() },
                    ),
                    ..c
                },
            )
        }
    } else if l.len() >= 4 && l.take(4) == mod_tag() {
        apply_mod_fields(c, l.skip(4))
    } else if l.len() >= 6 && l.take(6) == order_tag() {
        app_order(c, l.skip(6))
    } else {
        Some(c)
    }
}

/// The fields after `mod:`: three flags, three decimal numbers, the id (no
/// colon), and the path as the rest of the line.
pub open spec fn apply_mod_fields(c: GameConfigView, r: Seq<u8>) -> Option<GameConfigView> {
    if r.len() >= 6 && is_flag(r[0]) && r[1] == COLON && is_flag(r[2]) && r[3] == COLON && is_flag(
        r[4],
    ) && r[5] == COLON {
        let r1 = r.skip(6);
        let n1 = first_colon(r1);
        if n1 >= r1.len() {
            None
        } else {
            let r2 = r1.skip(n1 + 1);
            let n2 = first_colon(r2);
            if n2 >= r2.len() {
                None
            } else {
                let r3 = r2.skip(n2 + 1);
                let n3 = first_colon(r3);
                if n3 >= r3.len() {
                    None
                } else {
                    let r4 = r3.skip(n3 + 1);
                    let n4 = first_colon(r4);
                    if n4 >= r4.len() || n4 == 0 {
                        None
                    } else {
                        match (
                            parse_u64_spec(r1.take(n1)),
                            parse_u64_spec(r2.take(n2)),
                            parse_u64_spec(r3.take(n3)),
                        ) {
                            (Some(size), Some(tc), Some(tu)) => app_mod(
                                c,
                                ModView {
                                    id: r4.take(n4),
                                    name: Seq::empty(),
                                    creator: Seq::empty(),
                                    path: r4.skip(n4 + 1),
                                    size: size,
                                    enabled: r[0] == 49,
                                    workshop: r[2] == 49,
                                    file_url: Seq::empty(),
                                    preview_url: Seq::empty(),
                                    description: Seq::empty(),
                                    time_created: tc,
                                    time_updated: tu,
                                    online: r[4] == 49,
                                    outdated: false,
                                },
                            ),
                            _ => None,
                        }
                    }
                }
            }
        }
    } else {
        None
    }
}

/// What a whole configuration text denotes, folded over its lines from the
/// given accumulator: the finished configuration, or the 1-based number of
/// the first malformed line.
pub open spec fn parse_config_spec(s: Seq<u8>, line_no: int, acc: GameConfigView) -> Result<
    GameConfigView,
    int,
>
    decreases s.len(),
{
    if s.len() == 0 {
        Ok(acc)
    } else {
        let n = first_nl(s);
        let line = trim_right_spec(s.take(n));
        let rest = if 0 <= n < s.len() {
            s.skip(n + 1)
        } else {
            Seq::empty()
        };
        if line.len() == 0 {
            parse_config_spec(rest, line_no + 1, acc)
        } else {
            match apply_config_line(acc, line) {
                None => Err(line_no),
                Some(acc2) => parse_config_spec(rest, line_no + 1, acc2),
            }
        }
    }
}

/// One serialized category heading.
pub open spec fn ser_cat_line(name: Seq<u8>) -> Seq<u8> {
    category_tag() + name + seq![NL]
}

/// One serialized mod line.
pub open spec fn ser_mod_line(m: ModView) -> Seq<u8> {
    mod_tag() + seq![flag(m.enabled), COLON, flag(m.workshop), COLON, flag(m.online), COLON]
        + dec_digits(m.size as int) + seq![COLON] + dec_digits(m.time_created as int)
        + seq![COLON] + dec_digits(m.time_updated as int) + seq![COLON] + m.id + seq![COLON]
        + m.path + seq![NL]
}

/// One serialized load-order line.
pub open spec fn ser_order_line(id: Seq<u8>) -> Seq<u8> {
    order_tag() + id + seq![NL]
}

/// The mod lines of one category's id list, in stored order.
pub open spec fn ser_mods_of(mods: Seq<ModView>, ids: Seq<Seq<u8>>) -> Seq<u8>
    decreases ids.len(),
{
    if ids.len() == 0 {
        Seq::empty()
    } else {
        ser_mods_of(mods, ids.drop_last()) + ser_mod_line(mods[mod_index(mods, ids.last())])
    }
}

/// The blocks of the first `ci` categories: a heading (implicit and omitted
/// for the reserved first category) followed by the category's mod lines.
pub open spec fn ser_cats(c: GameConfigView, ci: int) -> Seq<u8>
    decreases ci,
{
    if ci <= 0 {
        Seq::empty()
    } else {
        ser_cats(c, ci - 1) + (if ci - 1 == 0 {
            Seq::empty()
        } else {
            ser_cat_line(c.categories[ci - 1].name)
        }) + ser_mods_of(c.mods, c.categories[ci - 1].mod_ids)
    }
}

/// The first `t` load-order lines.
pub open spec fn ser_orders(lo: Seq<Seq<u8>>, t: int) -> Seq<u8>
    decreases t,
{
    if t <= 0 {
        Seq::empty()
    } else {
        ser_orders(lo, t - 1) + ser_order_line(lo[t - 1])
    }
}

/// The whole persisted form of a configuration.
pub open spec fn ser_config(c: GameConfigView) -> Seq<u8> {
    ser_cats(c, c.categories.len() as int) + ser_orders(c.load_order, c.load_order.len() as int)
}

/// Appends one serialized mod line.
fn emit_mod_line(out: &mut Vec<u8>, m: &Mod)
    ensures
        final(out)@ == old(out)@ + ser_mod_line(m@),
{
    push_all(out, "mod:".as_bytes());
    out.push(if m.enabled { 49 } else { 48 });
    out.push(COLON);
    out.push(if m.workshop { 49 } else { 48 });
    out.push(COLON);
    out.push(if m.online { 49 } else { 48 });
    out.push(COLON);
    let size = u64_to_dec(m.size);
    push_all(out, size.as_slice());
    out.push(COLON);
    let tc = u64_to_dec(m.time_created);
    push_all(out, tc.as_slice());
    out.push(COLON);
    let tu = u64_to_dec(m.time_updated);
    push_all(out, tu.as_slice());
    out.push(COLON);
    push_all(out, m.id.as_slice());
    out.push(COLON);
    push_all(out, m.path.as_slice());
    out.push(NL);
    proof {
        assert(out@ =~= old(out)@ + ser_mod_line(m@));
    }
}

/// Serializes a configuration to its persisted text: the reserved category's
/// mods first, then each user category under its heading, then the load
/// order.
pub fn serialize_game_config(config: &GameConfig) -> (r: Vec<u8>)
    requires
        config@.wf(),
    ensures
        r@ == ser_config(config@),
{
    let ghost v = config@;
    let mut out: Vec<u8> = Vec::new();
    proof {
        assert(out@ =~= ser_cats(v, 0));
    }
    let mut c: usize = 0;
    while c < config.categories.len()
        invariant
            config@ == v,
            v.wf(),
            c <= v.categories.len(),
            out@ == ser_cats(v, c as int),
        decreases config.categories.len() - c,
    {
        let cat = &config.categories[c];
        proof {
            assert(cat@ == v.categories[c as int]);
        }
        if c != 0 {
            push_all(&mut out, "category:".as_bytes());
            push_all(&mut out, cat.name.as_slice());
            out.push(NL);
        }
        let ghost base = out@;
        let ghost ids = v.categories[c as int].mod_ids;
        let mut k: usize = 0;
        proof {
            assert(ids.take(0) =~= Seq::<Seq<u8>>::empty());
            assert(out@ =~= base + ser_mods_of(v.mods, ids.take(0)));
        }
        while k < cat.mod_ids.len()
            invariant
                config@ == v,
                v.wf(),
                c < v.categories.len(),
                cat@ == v.categories[c as int],
                ids == v.categories[c as int].mod_ids,
                k <= ids.len(),
                out@ == base + ser_mods_of(v.mods, ids.take(k as int)),
            decreases cat.mod_ids.len() - k,
        {
            let entry = &cat.mod_ids[k];
            proof {
                assert(entry.deep_view() =~= entry@);
                assert(entry.deep_view() == ids[k as int]);
            }
            let mi = match config.find_mod_index(entry.as_slice()) {
                None => {
                    proof {
                        // Well-formedness lists every id against a known mod,
                        // so the scan cannot miss; this arm is unreachable.
                        assert(has_mod(v.mods, ids[k as int]));
                        assert(false);
                    }
                    0
                },
                Some(mi) => mi,
            };
            proof {
                crate::game_config::lemma_mod_index_unique(v.mods, entry@, mi as int);
            }
            emit_mod_line(&mut out, &config.mods[mi]);
            proof {
                let taken = ids.take(k + 1);
                assert(taken.drop_last() =~= ids.take(k as int));
                assert(taken.last() == ids[k as int]);
                assert(out@ =~= base + ser_mods_of(v.mods, taken));
            }
            k += 1;
        }
        proof {
            assert(ids.take(ids.len() as int) =~= ids);
            assert(out@ =~= ser_cats(v, c + 1));
        }
        c += 1;
    }
    let mut t: usize = 0;
    proof {
        assert(out@ =~= ser_cats(v, v.categories.len() as int) + ser_orders(v.load_order, 0));
    }
    while t < config.load_order.len()
        invariant
            config@ == v,
            t <= v.load_order.len(),
            out@ == ser_cats(v, v.categories.len() as int) + ser_orders(v.load_order, t as int),
        decreases config.load_order.len() - t,
    {
        let entry = &config.load_order[t];
        proof {
            assert(entry.deep_view() =~= entry@);
            assert(entry.deep_view() == v.load_order[t as int]);
        }
        push_all(&mut out, "order:".as_bytes());
        push_all(&mut out, entry.as_slice());
        out.push(NL);
        proof {
            assert(out@ =~= ser_cats(v, v.categories.len() as int) + ser_orders(
                v.load_order,
                t + 1,
            ));
        }
        t += 1;
    }
    out
}

/// Tag lengths, which the index arithmetic of the parser leans on.
pub proof fn lemma_config_tags()
    ensures
        category_tag().len() == 9,
        mod_tag().len() == 4,
        order_tag().len() == 6,
{
    reveal_strlit("category:");
    reveal_strlit("mod:");
    reveal_strlit("order:");
    let c: &str = "category:";
    let m: &str = "mod:";
    let o: &str = "order:";
    assert(is_ascii(c)) by {
        assert(c@[0] == 'c' && c@[1] == 'a' && c@[2] == 't' && c@[3] == 'e' && c@[4] == 'g'
            && c@[5] == 'o' && c@[6] == 'r' && c@[7] == 'y' && c@[8] == ':');
    }
    assert(is_ascii(m)) by {
        assert(m@[0] == 'm' && m@[1] == 'o' && m@[2] == 'd' && m@[3] == ':');
    }
    assert(is_ascii(o)) by {
        assert(o@[0] == 'o' && o@[1] == 'r' && o@[2] == 'd' && o@[3] == 'e' && o@[4] == 'r'
            && o@[5] == ':');
    }
}

/// Parses a persisted configuration file. The result is well-formed; a
/// malformed known line fails with `ParseError` carrying its 1-based line
/// number, which the store treats as a corrupt file.
pub fn parse_game_config(text: &[u8]) -> (r: Result<GameConfig, CoreError>)
    requires
        text@.len() < usize::MAX,
    ensures
        match parse_config_spec(text@, 1, empty_config()) {
            Ok(c) => (r matches Ok(g)) && r->Ok_0@ == c && c.wf(),
            Err(l) => (r matches Err(CoreError::Parse { line })) && r->Err_0 == (
            CoreError::Parse { line: l as u64 }),
        },
{
    let mut config = GameConfig::empty();
    proof {
        assert(config@ =~~= empty_config());
        assert(text@.skip(0) =~= text@);
    }
    let mut pos: usize = 0;
    let mut line_no: usize = 1;
    while pos < text.len()
        invariant
            text@.len() < usize::MAX,
            pos <= text@.len(),
            1 <= line_no <= pos + 1,
            config@.wf(),
            parse_config_spec(text@, 1, empty_config()) == parse_config_spec(
                text@.skip(pos as int),
                line_no as int,
                config@,
            ),
        decreases text.len() - pos,
    {
        let ghost sub = text@.skip(pos as int);
        let n = find_nl(text, pos);
        let e = trim_right(text, pos, n);
        proof {
            assert(sub.take(n - pos) =~= text@.subrange(pos as int, n as int));
            assert(first_nl(sub) == n - pos);
            if n < text@.len() {
                assert(sub.skip(n - pos + 1) =~= text@.skip(n + 1));
            }
            assert(trim_right_spec(sub.take(n - pos)) == text@.subrange(pos as int, e as int));
        }
        let next = if n < text.len() {
            n + 1
        } else {
            n
        };
        proof {
            if n >= text@.len() {
                assert(text@.skip(next as int) =~= Seq::<u8>::empty());
            }
        }
        if e > pos {
            let ghost line = text@.subrange(pos as int, e as int);
            match apply_line(&mut config, text, pos, e) {
                Ok(()) => {},
                Err(()) => {
                    proof {
                        assert(parse_config_spec(sub, line_no as int, config@) == Err::<
                            GameConfigView,
                            int,
                        >(line_no as int));
                    }
                    return Err(CoreError::Parse { line: line_no as u64 });
                },
            }
        }
        pos = next;
        line_no += 1;
    }
    proof {
        assert(text@.skip(pos as int) =~= Seq::<u8>::empty());
    }
    Ok(config)
}

/// Applies one trimmed, non-empty line to the configuration being built.
/// `Err` marks a malformed known line and leaves the configuration unchanged.
#[verifier::rlimit(60)]
fn apply_line(config: &mut GameConfig, text: &[u8], start: usize, end: usize) -> (r: Result<
    (),
    (),
>)
    requires
        old(config)@.wf(),
        start < end <= text@.len(),
    ensures
        final(config)@.wf(),
        match apply_config_line(old(config)@, text@.subrange(start as int, end as int)) {
            None => (r matches Err(())) && final(config)@ == old(config)@,
            Some(c) => (r matches Ok(())) && final(config)@ == c,
        },
{
    proof {
        lemma_config_tags();
    }
    let ghost l = text@.subrange(start as int, end as int);
    if starts_with_at(text, start, end, "category:".as_bytes()) {
        proof {
            assert(l.take(9) =~= text@.subrange(start as int, start + 9));
        }
        let name = copy_range(text, start + 9, end);
        proof {
            assert(name@ =~= l.skip(9));
        }
        let ghost before = config@;
        match config.add_category(name) {
            Ok(()) => {
                proof {
                    assert(config@ =~~= (GameConfigView {
                        categories: before.categories.push(
                            CategoryView { name: l.skip(9), mod_ids: Seq::empty() },
                        ),
                        ..before
                    }));
                }
                Ok(())
            },
            Err(_) => Err(()),
        }
    } else if starts_with_at(text, start, end, "mod:".as_bytes()) {
        proof {
            assert(l.take(4) =~= text@.subrange(start as int, start + 4));
            assert(l.skip(4) =~= text@.subrange(start + 4, end as int));
            if l.len() >= 9 {
                assert(l.take(9) =~= text@.subrange(start as int, start + 9));
            }
        }
        apply_mod_line(config, text, start + 4, end)
    } else if starts_with_at(text, start, end, "order:".as_bytes()) {
        proof {
            assert(l.take(6) =~= text@.subrange(start as int, start + 6));
            if l.len() >= 9 {
                assert(l.take(9) =~= text@.subrange(start as int, start + 9));
            }
            if l.len() >= 4 {
                assert(l.take(4) =~= text@.subrange(start as int, start + 4));
            }
        }
        let ghost id = l.skip(6);
        proof {
            assert(id =~= text@.subrange(start + 6, end as int));
        }
        let id_vec = copy_range(text, start + 6, end);
        proof {
            assert(id_vec@ =~= id);
        }
        match config.push_load_order(id_vec.as_slice()) {
            Ok(()) => Ok(()),
            Err(_) => Err(()),
        }
    } else {
        proof {
            if l.len() >= 9 {
                assert(l.take(9) =~= text@.subrange(start as int, start + 9));
            }
            if l.len() >= 4 {
                assert(l.take(4) =~= text@.subrange(start as int, start + 4));
            }
            if l.len() >= 6 {
                assert(l.take(6) =~= text@.subrange(start as int, start + 6));
            }
        }
        Ok(())
    }
}

/// Reads the fields of one `mod:` line (`fs` points just after the tag) and
/// registers the mod.
#[verifier::rlimit(80)]
fn apply_mod_line(config: &mut GameConfig, text: &[u8], fs: usize, end: usize) -> (r: Result<
    (),
    (),
>)
    requires
        old(config)@.wf(),
        fs <= end <= text@.len(),
    ensures
        final(config)@.wf(),
        match apply_mod_fields(old(config)@, text@.subrange(fs as int, end as int)) {
            None => (r matches Err(())) && final(config)@ == old(config)@,
            Some(c) => (r matches Ok(())) && final(config)@ == c,
        },
{
    let ghost fields = text@.subrange(fs as int, end as int);
    if end - fs < 6 {
        return Err(());
    }
    let okflags = (text[fs] == 48 || text[fs] == 49) && text[fs + 1] == COLON && (text[fs + 2]
        == 48 || text[fs + 2] == 49) && text[fs + 3] == COLON && (text[fs + 4] == 48 || text[fs
        + 4] == 49) && text[fs + 5] == COLON;
    proof {
        assert(fields[0] == text@[fs as int]);
        assert(fields[1] == text@[fs + 1]);
        assert(fields[2] == text@[fs + 2]);
        assert(fields[3] == text@[fs + 3]);
        assert(fields[4] == text@[fs + 4]);
        assert(fields[5] == text@[fs + 5]);
    }
    if !okflags {
        return Err(());
    }
    let p1 = fs + 6;
    let ghost r1 = fields.skip(6);
    let c1 = find_colon(text, p1, end);
    proof {
        assert(r1 =~= text@.subrange(p1 as int, end as int));
        assert(first_colon(r1) == c1 - p1);
    }
    if c1 == end {
        return Err(());
    }
    let size = match parse_u64(text, p1, c1) {
        None => {
            proof {
                assert(r1.take(c1 - p1) =~= text@.subrange(p1 as int, c1 as int));
            }
            return Err(());
        },
        Some(v) => v,
    };
    proof {
        assert(r1.take(c1 - p1) =~= text@.subrange(p1 as int, c1 as int));
    }
    let p2 = c1 + 1;
    let ghost r2 = r1.skip(c1 - p1 + 1);
    let c2 = find_colon(text, p2, end);
    proof {
        assert(r2 =~= text@.subrange(p2 as int, end as int));
        assert(first_colon(r2) == c2 - p2);
    }
    if c2 == end {
        return Err(());
    }
    let tc = match parse_u64(text, p2, c2) {
        None => {
            proof {
                assert(r2.take(c2 - p2) =~= text@.subrange(p2 as int, c2 as int));
            }
            return Err(());
        },
        Some(v) => v,
    };
    proof {
        assert(r2.take(c2 - p2) =~= text@.subrange(p2 as int, c2 as int));
    }
    let p3 = c2 + 1;
    let ghost r3 = r2.skip(c2 - p2 + 1);
    let c3 = find_colon(text, p3, end);
    proof {
        assert(r3 =~= text@.subrange(p3 as int, end as int));
        assert(first_colon(r3) == c3 - p3);
    }
    if c3 == end {
        return Err(());
    }
    let tu = match parse_u64(text, p3, c3) {
        None => {
            proof {
                assert(r3.take(c3 - p3) =~= text@.subrange(p3 as int, c3 as int));
            }
            return Err(());
        },
        Some(v) => v,
    };
    proof {
        assert(r3.take(c3 - p3) =~= text@.subrange(p3 as int, c3 as int));
    }
    let p4 = c3 + 1;
    let ghost r4 = r3.skip(c3 - p3 + 1);
    let c4 = find_colon(text, p4, end);
    proof {
        assert(r4 =~= text@.subrange(p4 as int, end as int));
        assert(first_colon(r4) == c4 - p4);
    }
    if c4 == end || c4 == p4 {
        return Err(());
    }
    let id = copy_range(text, p4, c4);
    let path = copy_range(text, c4 + 1, end);
    proof {
        assert(id@ =~= r4.take(c4 - p4));
        assert(path@ =~= r4.skip(c4 - p4 + 1));
    }
    let m = Mod {
        id,
        name: Vec::new(),
        creator: Vec::new(),
        path,
        size,
        enabled: text[fs] == 49,
        workshop: text[fs + 2] == 49,
        file_url: Vec::new(),
        preview_url: Vec::new(),
        description: Vec::new(),
        time_created: tc,
        time_updated: tu,
        online: text[fs + 4] == 49,
        outdated: false,
    };
    proof {
        assert(m@ =~~= (ModView {
            id: r4.take(c4 - p4),
            name: Seq::empty(),
            creator: Seq::empty(),
            path: r4.skip(c4 - p4 + 1),
            size: size,
            enabled: fields[0] == 49,
            workshop: fields[2] == 49,
            file_url: Seq::empty(),
            preview_url: Seq::empty(),
            description: Seq::empty(),
            time_created: tc,
            time_updated: tu,
            online: fields[4] == 49,
            outdated: false,
        }));
    }
    match config.register_mod(m) {
        Ok(()) => Ok(()),
        Err(_) => Err(()),
    }
}

} // verus!
