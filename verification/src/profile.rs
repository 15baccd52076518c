//! The shareable profile text: a portable, ordered list of (source tag, mod
//! id, enabled flag) entries for copy-paste sharing and named profiles. One
//! line per mod, `<source-tag>:<identifier>[:<enabled 0|1>]`, tags `steam` and
//! `local`; trailing whitespace and empty lines are ignored; an unknown tag or
//! an empty identifier fails the parse with the 1-based line number.

use vstd::prelude::*;
use vstd::string::StringSliceAdditionalSpecFns;
use vstd::string::is_ascii;

use crate::error::CoreError;
use crate::text::{
    copy_range, find_nl, first_nl, has_no_newline, is_space, push_all, starts_with_at,
    trim_right, trim_right_spec, COLON, NL,
};

verus! {

/// Where a shared mod comes from: its identifier is a workshop id or a local
/// file name.
#[derive(Clone, Copy, Debug, PartialEq, Eq, Structural)]
pub enum SourceTag {
    Steam,
    Local,
}

/// Abstract value of a [`ShareableMod`].
#[verifier::ext_equal]
pub struct ShareableModView {
    pub tag: SourceTag,
    pub id: Seq<u8>,
    pub enabled: bool,
}

/// One entry of a shareable mod list.
#[derive(Debug)]
pub struct ShareableMod {
    pub tag: SourceTag,
    pub id: Vec<u8>,
    pub enabled: bool,
}

impl View for ShareableMod {
    type V = ShareableModView;

    open spec fn view(&self) -> ShareableModView {
        ShareableModView { tag: self.tag, id: self.id@, enabled: self.enabled }
    }
}

impl DeepView for ShareableMod {
    type V = ShareableModView;

    open spec fn deep_view(&self) -> ShareableModView {
        self.view()
    }
}

pub open spec fn steam_prefix() -> Seq<u8> {
    "steam:".spec_bytes()
}

pub open spec fn local_prefix() -> Seq<u8> {
    "local:".spec_bytes()
}

pub open spec fn tag_prefix(t: SourceTag) -> Seq<u8> {
    match t {
        SourceTag::Steam => steam_prefix(),
        SourceTag::Local => local_prefix(),
    }
}

/// An entry that the text grammar can carry: a non-empty identifier that
/// stays on one line.
pub open spec fn valid_entry(e: ShareableModView) -> bool {
    e.id.len() > 0 && has_no_newline(e.id)
}

/// One serialized line, without its newline: tag, identifier, explicit
/// enabled suffix.
pub open spec fn ser_entry(e: ShareableModView) -> Seq<u8> {
    tag_prefix(e.tag) + e.id + seq![COLON] + seq![
        if e.enabled {
            49u8
        } else {
            48u8
        },
    ]
}

/// The whole profile text: one line per entry, each newline-terminated.
pub open spec fn ser_profile(es: Seq<ShareableModView>) -> Seq<u8>
    decreases es.len(),
{
    if es.len() == 0 {
        Seq::empty()
    } else {
        ser_entry(es[0]) + seq![NL] + ser_profile(es.drop_first())
    }
}

/// What one trimmed, non-empty line denotes, if anything: the tag prefix,
/// then the identifier, then an optional `:0` / `:1` suffix (absent means
/// enabled).
pub open spec fn parse_line(l: Seq<u8>) -> Option<ShareableModView> {
    if l.len() >= 6 && l.take(6) == steam_prefix() {
        parse_rest(SourceTag::Steam, l.skip(6))
    } else if l.len() >= 6 && l.take(6) == local_prefix() {
        parse_rest(SourceTag::Local, l.skip(6))
    } else {
        None
    }
}

pub open spec fn parse_rest(tag: SourceTag, rest: Seq<u8>) -> Option<ShareableModView> {
    if rest.len() >= 2 && rest[rest.len() - 2] == COLON && (rest.last() == 48 || rest.last()
        == 49) {
        if rest.len() == 2 {
            None
        } else {
            Some(
                ShareableModView {
                    tag,
                    id: rest.take(rest.len() - 2),
                    enabled: rest.last() == 49,
                },
            )
        }
    } else if rest.len() == 0 {
        None
    } else {
        Some(ShareableModView { tag, id: rest, enabled: true })
    }
}

/// What a whole text denotes: the entries of its well-formed lines, or the
/// 1-based number of the first malformed line. Empty lines and trailing
/// whitespace are ignored.
pub open spec fn parse_profile_spec(s: Seq<u8>, line_no: int) -> Result<
    Seq<ShareableModView>,
    int,
>
    decreases s.len(),
{
    if s.len() == 0 {
        Ok(Seq::empty())
    } else {
        let n = first_nl(s);
        let line = trim_right_spec(s.take(n));
        let rest = if 0 <= n < s.len() {
            s.skip(n + 1)
        } else {
            Seq::empty()
        };
        let tail = parse_profile_spec(rest, line_no + 1);
        if line.len() == 0 {
            tail
        } else {
            match parse_line(line) {
                None => Err(line_no),
                Some(e) => match tail {
                    Ok(es) => Ok(seq![e] + es),
                    Err(l) => Err(l),
                },
            }
        }
    }
}

/// Facts about the two tag prefixes that the proofs lean on: six bytes each,
/// no newline inside, and distinct from one another.
pub proof fn lemma_tag_prefixes()
    ensures
        steam_prefix().len() == 6,
        local_prefix().len() == 6,
        has_no_newline(steam_prefix()),
        has_no_newline(local_prefix()),
        steam_prefix() != local_prefix(),
{
    reveal_strlit("steam:");
    reveal_strlit("local:");
    let s: &str = "steam:";
    let l: &str = "local:";
    assert(is_ascii(s)) by {
        assert(s@[0] == 's' && s@[1] == 't' && s@[2] == 'e' && s@[3] == 'a' && s@[4] == 'm'
            && s@[5] == ':');
    }
    assert(is_ascii(l)) by {
        assert(l@[0] == 'l' && l@[1] == 'o' && l@[2] == 'c' && l@[3] == 'a' && l@[4] == 'l'
            && l@[5] == ':');
    }
    assert(steam_prefix()[0] == 's' as u8);
    assert(local_prefix()[0] == 'l' as u8);
    assert forall|i: int| 0 <= i < 6 implies steam_prefix()[i] != NL && local_prefix()[i]
        != NL by {
    }
}

/// Serializing one more entry appends its line.
pub proof fn lemma_ser_profile_push(es: Seq<ShareableModView>, e: ShareableModView)
    ensures
        ser_profile(es.push(e)) == ser_profile(es) + ser_entry(e) + seq![NL],
    decreases es.len(),
{
    if es.len() == 0 {
        assert(es.push(e)[0] == e);
        assert(es.push(e).drop_first() =~= Seq::<ShareableModView>::empty());
        assert(ser_profile(es.push(e)) == ser_entry(e) + seq![NL] + ser_profile(
            Seq::<ShareableModView>::empty(),
        ));
        assert(ser_profile(Seq::<ShareableModView>::empty()) =~= Seq::<u8>::empty());
        assert(ser_profile(es) =~= Seq::<u8>::empty());
        assert(ser_profile(es.push(e)) =~= ser_profile(es) + ser_entry(e) + seq![NL]);
    } else {
        assert(es.push(e)[0] == es[0]);
        assert(es.push(e).drop_first() =~= es.drop_first().push(e));
        lemma_ser_profile_push(es.drop_first(), e);
        assert(ser_profile(es.push(e)) =~= ser_profile(es) + ser_entry(e) + seq![NL]);
    }
}

/// A serialized line has no newline, survives trimming, and parses back to
/// its entry.
pub proof fn lemma_ser_entry_parses(e: ShareableModView)
    requires
        valid_entry(e),
    ensures
        has_no_newline(ser_entry(e)),
        trim_right_spec(ser_entry(e)) == ser_entry(e),
        ser_entry(e).len() > 0,
        parse_line(ser_entry(e)) == Some(e),
{
    lemma_tag_prefixes();
    let line = ser_entry(e);
    let pre = tag_prefix(e.tag);
    let digit: u8 = if e.enabled {
        49
    } else {
        48
    };
    assert(line.len() == 8 + e.id.len());
    assert forall|i: int| 0 <= i < line.len() implies line[i] != NL by {
        if i < 6 {
            assert(line[i] == pre[i]);
        } else if i < 6 + e.id.len() {
            assert(line[i] == e.id[i - 6]);
        } else if i == 6 + e.id.len() {
            assert(line[i] == COLON);
        } else {
            assert(line[i] == digit);
        }
    }
    assert(line.last() == digit);
    assert(!is_space(digit));
    assert(trim_right_spec(line) == line);
    // The line starts with its own tag prefix and with no other.
    assert(line.take(6) =~= pre);
    let rest = line.skip(6);
    assert(rest =~= e.id + seq![COLON] + seq![digit]);
    assert(rest.len() == e.id.len() + 2);
    assert(rest[rest.len() - 2] == COLON);
    assert(rest.last() == digit);
    assert(rest.take(rest.len() - 2) =~= e.id);
    assert(parse_rest(e.tag, rest) == Some(e));
    match e.tag {
        SourceTag::Steam => {
            assert(parse_line(line) == Some(e));
        },
        SourceTag::Local => {
            assert(line.take(6) != steam_prefix());
            assert(parse_line(line) == Some(e));
        },
    }
}

/// Law (round trip): a serialized profile parses back to exactly the entries
/// it was made from, whatever line the count starts at.
pub proof fn lemma_profile_round_trip(es: Seq<ShareableModView>, line_no: int)
    requires
        forall|i: int| 0 <= i < es.len() ==> valid_entry(#[trigger] es[i]),
    ensures
        parse_profile_spec(ser_profile(es), line_no) == Ok::<Seq<ShareableModView>, int>(es),
    decreases es.len(),
{
    if es.len() == 0 {
        assert(parse_profile_spec(ser_profile(es), line_no) matches Ok(r) && r =~= es);
    } else {
        let e = es[0];
        lemma_ser_entry_parses(e);
        let s = ser_profile(es);
        let tail_text = ser_profile(es.drop_first());
        assert(s == ser_entry(e) + seq![NL] + tail_text);
        crate::text::lemma_first_nl_concat(ser_entry(e), tail_text);
        let n = first_nl(s);
        assert(n == ser_entry(e).len());
        assert(s.take(n) =~= ser_entry(e));
        assert(n < s.len());
        assert(s.skip(n + 1) =~= tail_text);
        lemma_profile_round_trip(es.drop_first(), line_no + 1);
        assert(parse_profile_spec(tail_text, line_no + 1) == Ok::<Seq<ShareableModView>, int>(
            es.drop_first(),
        ));
        assert(seq![e] + es.drop_first() =~= es);
    }
}

/// Entries produced by a successful parse are themselves serializable.
pub proof fn lemma_parsed_entries_valid(s: Seq<u8>, line_no: int, es: Seq<ShareableModView>)
    requires
        parse_profile_spec(s, line_no) == Ok::<Seq<ShareableModView>, int>(es),
    ensures
        forall|i: int| 0 <= i < es.len() ==> valid_entry(#[trigger] es[i]),
    decreases s.len(),
{
    if s.len() > 0 {
        let n = first_nl(s);
        crate::text::lemma_first_nl(s);
        let raw = s.take(n);
        let line = trim_right_spec(raw);
        let rest = if 0 <= n < s.len() {
            s.skip(n + 1)
        } else {
            Seq::<u8>::empty()
        };
        if line.len() == 0 {
            lemma_parsed_entries_valid(rest, line_no + 1, es);
        } else {
            let e = parse_line(line)->Some_0;
            let tail = parse_profile_spec(rest, line_no + 1)->Ok_0;
            lemma_parsed_entries_valid(rest, line_no + 1, tail);
            assert(es == seq![e] + tail);
            assert(valid_entry(e)) by {
                lemma_trim_is_prefix(raw);
                assert(has_no_newline(raw)) by {
                    assert(forall|i: int| 0 <= i < raw.len() ==> raw[i] == s[i]);
                }
                assert(has_no_newline(line));
                let body = line.skip(6);
                assert(forall|i: int| 0 <= i < body.len() ==> body[i] == line[i + 6]);
                assert(has_no_newline(body));
                let id = e.id;
                if body.len() >= 2 && body[body.len() - 2] == COLON && (body.last() == 48
                    || body.last() == 49) {
                    assert(id == body.take(body.len() - 2));
                    assert(forall|i: int| 0 <= i < id.len() ==> id[i] == body[i]);
                } else {
                    assert(id == body);
                }
                assert(has_no_newline(id));
            }
            assert forall|i: int| 0 <= i < es.len() implies valid_entry(#[trigger] es[i]) by {
                if i == 0 {
                    assert(es[0] == e);
                } else {
                    assert(es[i] == tail[i - 1]);
                }
            }
        }
    }
}

/// Trimming only removes bytes from the end.
pub proof fn lemma_trim_is_prefix(s: Seq<u8>)
    ensures
        trim_right_spec(s).len() <= s.len(),
        forall|i: int|
            0 <= i < trim_right_spec(s).len() ==> #[trigger] trim_right_spec(s)[i] == s[i],
    decreases s.len(),
{
    if s.len() > 0 && is_space(s.last()) {
        lemma_trim_is_prefix(s.drop_last());
        assert(forall|i: int| 0 <= i < s.drop_last().len() ==> s.drop_last()[i] == s[i]);
    }
}

/// Law (round trip through text): re-serializing what a text parses to and
/// parsing again changes nothing, so serialization is a normal form of the
/// text, differing from it only in ignored whitespace, empty lines and the
/// deterministic enabled suffix.
pub proof fn lemma_reserialize_stable(s: Seq<u8>, es: Seq<ShareableModView>)
    requires
        parse_profile_spec(s, 1) == Ok::<Seq<ShareableModView>, int>(es),
    ensures
        parse_profile_spec(ser_profile(es), 1) == Ok::<Seq<ShareableModView>, int>(es),
{
    lemma_parsed_entries_valid(s, 1, es);
    lemma_profile_round_trip(es, 1);
}

/// Serializes an enabled/ordered mod list to the shareable text, one line
/// per entry with an explicit enabled suffix.
pub fn to_shareable_string(list: &Vec<ShareableMod>) -> (r: Vec<u8>)
    ensures
        r@ == ser_profile(list.deep_view()),
{
    let mut out: Vec<u8> = Vec::new();
    let mut k: usize = 0;
    proof {
        assert(list.deep_view().take(0) =~= Seq::<ShareableModView>::empty());
        assert(out@ =~= ser_profile(list.deep_view().take(0)));
    }
    while k < list.len()
        invariant
            k <= list.deep_view().len(),
            out@ == ser_profile(list.deep_view().take(k as int)),
        decreases list.len() - k,
    {
        let entry = &list[k];
        proof {
            assert(entry.deep_view() == list.deep_view()[k as int]);
        }
        let ghost pre = out@;
        match entry.tag {
            SourceTag::Steam => push_all(&mut out, "steam:".as_bytes()),
            SourceTag::Local => push_all(&mut out, "local:".as_bytes()),
        }
        push_all(&mut out, entry.id.as_slice());
        out.push(COLON);
        out.push(if entry.enabled { 49 } else { 48 });
        out.push(NL);
        proof {
            let ev = entry.deep_view();
            assert(out@ =~= pre + ser_entry(ev) + seq![NL]);
            let taken = list.deep_view().take(k + 1);
            assert(taken =~= list.deep_view().take(k as int).push(ev));
            lemma_ser_profile_push(list.deep_view().take(k as int), ev);
        }
        k += 1;
    }
    proof {
        assert(list.deep_view().take(list.deep_view().len() as int) =~= list.deep_view());
    }
    out
}

/// Reads one trimmed, non-empty line.
fn parse_line_range(text: &[u8], start: usize, end: usize) -> (r: Option<ShareableMod>)
    requires
        start <= end <= text@.len(),
    ensures
        match r {
            Some(m) => parse_line(text@.subrange(start as int, end as int)) == Some(m@),
            None => parse_line(text@.subrange(start as int, end as int)) is None,
        },
{
    let ghost l = text@.subrange(start as int, end as int);
    proof {
        lemma_tag_prefixes();
    }
    let tag: SourceTag;
    if starts_with_at(text, start, end, "steam:".as_bytes()) {
        tag = SourceTag::Steam;
        proof {
            assert(l.take(6) =~= text@.subrange(start as int, start + 6));
        }
    } else if starts_with_at(text, start, end, "local:".as_bytes()) {
        tag = SourceTag::Local;
        proof {
            assert(end - start >= 6);
            assert(l.take(6) =~= text@.subrange(start as int, start + 6));
            assert(l.take(6) != steam_prefix()) by {
                if end - start >= 6 {
                    assert(l.take(6) =~= text@.subrange(start as int, start + 6));
                }
            }
        }
    } else {
        proof {
            if l.len() >= 6 {
                assert(l.take(6) =~= text@.subrange(start as int, start + 6));
            }
        }
        return None;
    }
    let body_start = start + 6;
    let ghost body = l.skip(6);
    proof {
        assert(body =~= text@.subrange(body_start as int, end as int));
    }
    // An explicit `:0` / `:1` suffix, else the whole remainder is the id.
    let has_suffix = end - body_start >= 2 && text[end - 2] == COLON && (text[end - 1] == 48
        || text[end - 1] == 49);
    proof {
        if end - body_start >= 2 {
            assert(body[body.len() - 2] == text@[end - 2]);
            assert(body.last() == text@[end - 1]);
        }
    }
    if has_suffix {
        if end - body_start == 2 {
            return None;
        }
        let id = copy_range(text, body_start, end - 2);
        proof {
            assert(id@ =~= body.take(body.len() - 2));
        }
        Some(ShareableMod { tag, id, enabled: text[end - 1] == 49 })
    } else {
        if end == body_start {
            return None;
        }
        let id = copy_range(text, body_start, end);
        proof {
            assert(id@ =~= body);
        }
        Some(ShareableMod { tag, id, enabled: true })
    }
}

/// Parses a shareable profile text. Fails with `ParseError` carrying the
/// 1-based number of the first malformed line; empty lines and trailing
/// whitespace are ignored.
pub fn from_shareable_string(text: &[u8]) -> (r: Result<Vec<ShareableMod>, CoreError>)
    requires
        text@.len() < usize::MAX,
    ensures
        match parse_profile_spec(text@, 1) {
            Ok(es) => r matches Ok(v) && v.deep_view() == es,
            Err(l) => r matches Err(CoreError::Parse { line }) && line as int == l,
        },
{
    let mut acc: Vec<ShareableMod> = Vec::new();
    let mut pos: usize = 0;
    let mut line_no: usize = 1;
    proof {
        assert(text@.skip(0) =~= text@);
        assert(acc.deep_view() =~= Seq::<ShareableModView>::empty());
        match parse_profile_spec(text@, 1) {
            Ok(es) => {
                assert(acc.deep_view() + es =~= es);
            },
            Err(_) => {},
        }
    }
    while pos < text.len()
        invariant
            text@.len() < usize::MAX,
            pos <= text@.len(),
            1 <= line_no <= pos + 1,
            parse_profile_spec(text@, 1) == (match parse_profile_spec(
                text@.skip(pos as int),
                line_no as int,
            ) {
                Ok(es) => Ok(acc.deep_view() + es),
                Err(l) => Err::<Seq<ShareableModView>, int>(l),
            }),
        decreases text.len() - pos,
    {
        let ghost sub = text@.skip(pos as int);
        let n = find_nl(text, pos);
        let e = trim_right(text, pos, n);
        proof {
            assert(sub.take(n - pos) =~= text@.subrange(pos as int, n as int));
            assert(first_nl(sub) == n - pos);
            if n < text@.len() {
                assert(sub.skip(n - pos + 1) =~= text@.skip(n + 1));
            }
            assert(trim_right_spec(sub.take(n - pos)) == text@.subrange(pos as int, e as int));
        }
        let next = if n < text.len() {
            n + 1
        } else {
            n
        };
        if e == pos {
            // Empty (or all-whitespace) line: skipped.
            proof {
                assert(text@.subrange(pos as int, e as int) =~= Seq::<u8>::empty());
                if n >= text@.len() {
                    assert(text@.skip(next as int) =~= Seq::<u8>::empty());
                }
            }
            pos = next;
            line_no += 1;
        } else {
            match parse_line_range(text, pos, e) {
                None => {
                    proof {
                        assert(parse_profile_spec(sub, line_no as int) == Err::<
                            Seq<ShareableModView>,
                            int,
                        >(line_no as int));
                    }
                    return Err(CoreError::Parse { line: line_no as u64 });
                },
                Some(m) => {
                    let ghost pre = acc.deep_view();
                    acc.push(m);
                    proof {
                        assert(acc.deep_view() =~= pre.push(m@));
                        if n >= text@.len() {
                            assert(text@.skip(next as int) =~= Seq::<u8>::empty());
                        }
                        assert forall|es: Seq<ShareableModView>|
                            true implies pre + (seq![m@] + es) =~= pre.push(m@) + es by {}
                    }
                    pos = next;
                    line_no += 1;
                },
            }
        }
    }
    proof {
        assert(text@.skip(pos as int) =~= Seq::<u8>::empty());
        assert(acc.deep_view() + Seq::<ShareableModView>::empty() =~= acc.deep_view());
    }
    Ok(acc)
}

} // verus!
