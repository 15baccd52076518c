//! Rendering a workshop item's BBCode description as HTML for the details
//! pane: a fixed chain of tag replacements, an `<html>` wrapper, and a final
//! regex pass over the `[url=..]..[/url]` tags. The replacements are verified
//! byte transforms; only the url pass goes through the regex engine.

use vstd::prelude::*;
use vstd::string::StringSliceAdditionalSpecFns;

use crate::text::{copy_range, push_all, starts_with_at};

verus! {

/// Every non-overlapping occurrence of `pat` in `s` replaced by `rep`, left
/// to right; an empty pattern replaces nothing.
pub open spec fn spec_replace(s: Seq<u8>, pat: Seq<u8>, rep: Seq<u8>) -> Seq<u8>
    decreases s.len(),
{
    if pat.len() == 0 || s.len() < pat.len() {
        s
    } else if s.take(pat.len() as int) == pat {
        rep + spec_replace(s.skip(pat.len() as int), pat, rep)
    } else {
        seq![s[0]] + spec_replace(s.drop_first(), pat, rep)
    }
}

/// Replaces every non-overlapping occurrence of `pat` by `rep`, left to
/// right.
pub fn replace_all(input: &[u8], pat: &[u8], rep: &[u8]) -> (r: Vec<u8>)
    ensures
        r@ == spec_replace(input@, pat@, rep@),
{
    if pat.len() == 0 {
        return copy_range(input, 0, input.len());
    }
    let mut out: Vec<u8> = Vec::new();
    let mut i: usize = 0;
    proof {
        assert(input@.skip(0) =~= input@);
        assert(out@ + spec_replace(input@, pat@, rep@) =~= spec_replace(input@, pat@, rep@));
    }
    while i < input.len()
        invariant
            pat@.len() >= 1,
            i <= input@.len(),
            out@ + spec_replace(input@.skip(i as int), pat@, rep@) == spec_replace(
                input@,
                pat@,
                rep@,
            ),
        decreases input.len() - i,
    {
        let ghost tail = input@.skip(i as int);
        if starts_with_at(input, i, input.len(), pat) {
            proof {
                assert(tail.take(pat@.len() as int) =~= input@.subrange(
                    i as int,
                    i + pat@.len(),
                ));
                assert(tail.skip(pat@.len() as int) =~= input@.skip(i + pat@.len()));
                assert(spec_replace(tail, pat@, rep@) == rep@ + spec_replace(
                    input@.skip(i + pat@.len()),
                    pat@,
                    rep@,
                ));
            }
            push_all(&mut out, rep);
            proof {
                assert(out@ + spec_replace(input@.skip(i + pat@.len()), pat@, rep@)
                    =~= spec_replace(input@, pat@, rep@));
            }
            i += pat.len();
        } else {
            proof {
                if tail.len() >= pat@.len() {
                    assert(tail.take(pat@.len() as int) =~= input@.subrange(
                        i as int,
                        i + pat@.len(),
                    ));
                    assert(tail.take(pat@.len() as int) != pat@);
                    assert(tail.drop_first() =~= input@.skip(i + 1));
                    assert(spec_replace(tail, pat@, rep@) == seq![tail[0]] + spec_replace(
                        input@.skip(i + 1),
                        pat@,
                        rep@,
                    ));
                } else {
                    // Too little input left for a match: the rest is copied
                    // byte for byte.
                    assert(spec_replace(tail, pat@, rep@) == tail);
                    assert(input@.skip(i + 1).len() < pat@.len());
                    assert(spec_replace(input@.skip(i + 1), pat@, rep@) == input@.skip(i + 1));
                    assert(spec_replace(tail, pat@, rep@) =~= seq![tail[0]] + spec_replace(
                        input@.skip(i + 1),
                        pat@,
                        rep@,
                    ));
                }
            }
            out.push(input[i]);
            proof {
                assert(out@ + spec_replace(input@.skip(i + 1), pat@, rep@) =~= spec_replace(
                    input@,
                    pat@,
                    rep@,
                ));
            }
            i += 1;
        }
    }
    proof {
        assert(input@.skip(input@.len() as int) =~= Seq::<u8>::empty());
        assert(spec_replace(Seq::<u8>::empty(), pat@, rep@) == Seq::<u8>::empty());
        assert(out@ =~= spec_replace(input@, pat@, rep@));
    }
    out
}

/// The fixed BBCode-to-HTML tag substitutions, in the order they are
/// applied.
pub open spec fn bbcode_replaced(s: Seq<u8>) -> Seq<u8> {
    let s = spec_replace(s, "[h1]".spec_bytes(), "<h1>".spec_bytes());
    let s = spec_replace(s, "[/h1]".spec_bytes(), "</h1>".spec_bytes());
    let s = spec_replace(s, "[b]".spec_bytes(), "<b>".spec_bytes());
    let s = spec_replace(s, "[/b]".spec_bytes(), "</b>".spec_bytes());
    let s = spec_replace(s, "[B]".spec_bytes(), "<b>".spec_bytes());
    let s = spec_replace(s, "[/B]".spec_bytes(), "</b>".spec_bytes());
    let s = spec_replace(s, "[i]".spec_bytes(), "<i>".spec_bytes());
    let s = spec_replace(s, "[/i]".spec_bytes(), "</i>".spec_bytes());
    let s = spec_replace(s, "[hr]".spec_bytes(), "<hr>".spec_bytes());
    let s = spec_replace(s, "[/hr]".spec_bytes(), "</hr>".spec_bytes());
    let s = spec_replace(s, "[img]".spec_bytes(), "<img src=\"".spec_bytes());
    let s = spec_replace(s, "[/img]".spec_bytes(), "\"/>".spec_bytes());
    let s = spec_replace(s, "[list]".spec_bytes(), "<ul>".spec_bytes());
    let s = spec_replace(s, "[/list]".spec_bytes(), "</ul>".spec_bytes());
    let s = spec_replace(s, "[olist]".spec_bytes(), "<ol>".spec_bytes());
    let s = spec_replace(s, "[/olist]".spec_bytes(), "</ol>".spec_bytes());
    let s = spec_replace(s, "[*]".spec_bytes(), "</li><li>".spec_bytes());
    let s = spec_replace(s, "[quote]".spec_bytes(), "<blockquote>".spec_bytes());
    let s = spec_replace(s, "[/quote]".spec_bytes(), "</blockquote>".spec_bytes());
    let s = spec_replace(s, "[code]".spec_bytes(), "<code>".spec_bytes());
    let s = spec_replace(s, "[/code]".spec_bytes(), "</code>".spec_bytes());
    let s = spec_replace(s, "[table]".spec_bytes(), "<table>".spec_bytes());
    let s = spec_replace(s, "[/table]".spec_bytes(), "</table>".spec_bytes());
    let s = spec_replace(s, "[th]".spec_bytes(), "<th>".spec_bytes());
    let s = spec_replace(s, "[/th]".spec_bytes(), "</th>".spec_bytes());
    let s = spec_replace(s, "[tr]".spec_bytes(), "<tr>".spec_bytes());
    let s = spec_replace(s, "[/tr]".spec_bytes(), "</tr>".spec_bytes());
    let s = spec_replace(s, "[td]".spec_bytes(), "<td>".spec_bytes());
    let s = spec_replace(s, "[/td]".spec_bytes(), "</td>".spec_bytes());
    let s = spec_replace(s, "\r\n".spec_bytes(), "<br/>".spec_bytes());
    let s = spec_replace(s, "\n".spec_bytes(), "<br/>".spec_bytes());
    s
}

/// The converted body inside an `<html>` element.
pub open spec fn html_wrapped(s: Seq<u8>) -> Seq<u8> {
    "<html>".spec_bytes() + s + "</html>".spec_bytes()
}

/// What the regex engine returns for the `[url=..]..[/url]` pass: a function
/// of the input bytes alone.
pub uninterp spec fn url_tagged(s: Seq<u8>) -> Seq<u8>;

/// Relies on `regex::bytes::Regex::replace_all` with the fixed
/// `([url=)(.*)(])(.*)([/url])` pattern and a fixed replacement: the result
/// depends on the input bytes alone, and a haystack without a match — in
/// particular an empty one — is returned unchanged.
#[verifier::external_body]
fn replace_url_tags(s: &[u8]) -> (r: Vec<u8>)
    ensures
        r@ == url_tagged(s@),
        s@.len() == 0 ==> r@ == s@,
{
    let re = regex::bytes::Regex::new(r"(\[url=)(.*)(\])(.*)(\[/url\])").unwrap();
    re.replace_all(s, &b"<url src='\\2>\\4</url>"[..]).into_owned()
}

/// Renders a workshop description's BBCode as the HTML shown in the details
/// pane.
pub fn parse_to_html(s: &[u8]) -> (r: Vec<u8>)
    ensures
        r@ == url_tagged(html_wrapped(bbcode_replaced(s@))),
{
    let mut t = replace_all(s, "[h1]".as_bytes(), "<h1>".as_bytes());
    t = replace_all(t.as_slice(), "[/h1]".as_bytes(), "</h1>".as_bytes());
    t = replace_all(t.as_slice(), "[b]".as_bytes(), "<b>".as_bytes());
    t = replace_all(t.as_slice(), "[/b]".as_bytes(), "</b>".as_bytes());
    t = replace_all(t.as_slice(), "[B]".as_bytes(), "<b>".as_bytes());
    t = replace_all(t.as_slice(), "[/B]".as_bytes(), "</b>".as_bytes());
    t = replace_all(t.as_slice(), "[i]".as_bytes(), "<i>".as_bytes());
    t = replace_all(t.as_slice(), "[/i]".as_bytes(), "</i>".as_bytes());
    t = replace_all(t.as_slice(), "[hr]".as_bytes(), "<hr>".as_bytes());
    t = replace_all(t.as_slice(), "[/hr]".as_bytes(), "</hr>".as_bytes());
    t = replace_all(t.as_slice(), "[img]".as_bytes(), "<img src=\"".as_bytes());
    t = replace_all(t.as_slice(), "[/img]".as_bytes(), "\"/>".as_bytes());
    t = replace_all(t.as_slice(), "[list]".as_bytes(), "<ul>".as_bytes());
    t = replace_all(t.as_slice(), "[/list]".as_bytes(), "</ul>".as_bytes());
    t = replace_all(t.as_slice(), "[olist]".as_bytes(), "<ol>".as_bytes());
    t = replace_all(t.as_slice(), "[/olist]".as_bytes(), "</ol>".as_bytes());
    t = replace_all(t.as_slice(), "[*]".as_bytes(), "</li><li>".as_bytes());
    t = replace_all(t.as_slice(), "[quote]".as_bytes(), "<blockquote>".as_bytes());
    t = replace_all(t.as_slice(), "[/quote]".as_bytes(), "</blockquote>".as_bytes());
    t = replace_all(t.as_slice(), "[code]".as_bytes(), "<code>".as_bytes());
    t = replace_all(t.as_slice(), "[/code]".as_bytes(), "</code>".as_bytes());
    t = replace_all(t.as_slice(), "[table]".as_bytes(), "<table>".as_bytes());
    t = replace_all(t.as_slice(), "[/table]".as_bytes(), "</table>".as_bytes());
    t = replace_all(t.as_slice(), "[th]".as_bytes(), "<th>".as_bytes());
    t = replace_all(t.as_slice(), "[/th]".as_bytes(), "</th>".as_bytes());
    t = replace_all(t.as_slice(), "[tr]".as_bytes(), "<tr>".as_bytes());
    t = replace_all(t.as_slice(), "[/tr]".as_bytes(), "</tr>".as_bytes());
    t = replace_all(t.as_slice(), "[td]".as_bytes(), "<td>".as_bytes());
    t = replace_all(t.as_slice(), "[/td]".as_bytes(), "</td>".as_bytes());
    t = replace_all(t.as_slice(), "\r\n".as_bytes(), "<br/>".as_bytes());
    t = replace_all(t.as_slice(), "\n".as_bytes(), "<br/>".as_bytes());
    let mut out = vstd::slice::slice_to_vec("<html>".as_bytes());
    push_all(&mut out, t.as_slice());
    push_all(&mut out, "</html>".as_bytes());
    proof {
        assert(out@ =~= html_wrapped(bbcode_replaced(s@)));
    }
    replace_url_tags(out.as_slice())
}

} // verus!
