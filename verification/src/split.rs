//! Splitting a string around the matches of a regular expression.
//!
//! The split is total: the pieces, in order, concatenate back to the input.
//! The pattern matching itself is delegated to the `regex` crate; everything
//! around it — classification of the first match, the loop over all matches —
//! is verified.

use vstd::prelude::*;

use regex::Regex;

verus! {

/// `regex::Regex` values pass through the library opaquely; only the trusted
/// wrappers below look inside.
#[verifier::external_type_specification]
#[verifier::external_body]
pub struct ExRegex(Regex);

/// The outcome of splitting a text around its first pattern match, as the
/// original text relates to the match: the whole text may be unmatched, the
/// match may be the whole text, or unmatched text may precede it, follow it,
/// or both.
#[derive(Debug, Clone, PartialEq, Eq)]
pub enum SplittedText {
    Unmatched(String),
    FullMatch(String),
    HasPrefix(String, String),
    HasSuffix(String, String),
    HasPrefixAndSuffix(String, String, String),
}

impl SplittedText {
    /// The text the value was split from: all its pieces, in order.
    pub open spec fn source(self) -> Seq<char> {
        match self {
            SplittedText::Unmatched(t) => t@,
            SplittedText::FullMatch(m) => m@,
            SplittedText::HasPrefix(p, m) => p@ + m@,
            SplittedText::HasSuffix(m, s) => m@ + s@,
            SplittedText::HasPrefixAndSuffix(p, m, s) => p@ + m@ + s@,
        }
    }
}

/// Relies on `regex::Regex::find` (after `regex::Regex::new` on the caller's
/// pattern): the leftmost match lies within the text, so the text splits into
/// the part before the match, the match itself, and the part after it.
#[verifier::external_body]
fn regex_find_split(regex: &Regex, text: &str) -> (r: Option<(String, String, String)>)
    ensures
        r matches Some(parts) ==> text@ == parts.0@ + parts.1@ + parts.2@,
{
    match regex.find(text) {
        Some(m) => Some((
            text[..m.start()].to_string(),
            m.as_str().to_string(),
            text[m.end()..].to_string(),
        )),
        None => None,
    }
}

/// One piece of a full split: a maximal run the pattern did not match, or one
/// match of the pattern.
#[derive(Debug, Clone, PartialEq, Eq)]
pub enum SplittedElement {
    Unmatched(String),
    Matched(String),
}

/// The mathematical shadow of a `SplittedElement`: the same tag over the
/// character sequence of its text.
pub enum ElemV {
    Unmatched(Seq<char>),
    Matched(Seq<char>),
}

impl ElemV {
    /// The characters the element covers, whichever tag it carries.
    pub open spec fn text(self) -> Seq<char> {
        match self {
            ElemV::Unmatched(t) => t,
            ElemV::Matched(m) => m,
        }
    }
}

impl View for SplittedElement {
    type V = ElemV;

    open spec fn view(&self) -> ElemV {
        match self {
            SplittedElement::Unmatched(t) => ElemV::Unmatched(t@),
            SplittedElement::Matched(m) => ElemV::Matched(m@),
        }
    }
}

/// The views of a sequence of split elements.
pub open spec fn elems_view(s: Seq<SplittedElement>) -> Seq<ElemV> {
    s.map_values(|e: SplittedElement| e@)
}

/// The concatenation of the texts of a sequence of elements, in order.
pub open spec fn elems_source(s: Seq<ElemV>) -> Seq<char>
    decreases s.len(),
{
    if s.len() == 0 {
        Seq::empty()
    } else {
        s[0].text() + elems_source(s.drop_first())
    }
}

/// Appending one element appends its text to the source.
pub proof fn lemma_elems_source_push(s: Seq<ElemV>, e: ElemV)
    ensures
        elems_source(s.push(e)) == elems_source(s) + e.text(),
    decreases s.len(),
{
    if s.len() == 0 {
        assert(s.push(e)[0] == e);
        assert(s.push(e).drop_first() =~= Seq::<ElemV>::empty());
        assert(elems_source(s.push(e)) =~= e.text() + elems_source(Seq::<ElemV>::empty()));
        assert(e.text() + elems_source(Seq::<ElemV>::empty()) =~= e.text());
        assert(elems_source(s) + e.text() =~= e.text());
    } else {
        assert(s.push(e).drop_first() =~= s.drop_first().push(e));
        lemma_elems_source_push(s.drop_first(), e);
        assert(s[0].text() + (elems_source(s.drop_first()) + e.text()) =~= (s[0].text()
            + elems_source(s.drop_first())) + e.text());
    }
}

/// The two patterns the library itself splits by: colon-delimited stamp codes
/// and machine-readable entity-link tokens.
#[derive(Debug, Clone, Copy, PartialEq, Eq, Structural)]
pub enum PatKind {
    Stamp,
    EntityLink,
}

/// What splitting a text around the first stamp match yields: `None` when the
/// stamp pattern does not occur, else the text before, within and after the
/// leftmost match. The pattern is fixed, so the result depends on the text
/// alone.
pub uninterp spec fn stamp_split_of(text: Seq<char>) -> Option<(Seq<char>, Seq<char>, Seq<char>)>;

/// As `stamp_split_of`, for the entity-link pattern.
pub uninterp spec fn link_split_of(text: Seq<char>) -> Option<(Seq<char>, Seq<char>, Seq<char>)>;

/// The split a fixed pattern kind produces on a text.
pub open spec fn known_split_of(kind: PatKind, text: Seq<char>) -> Option<
    (Seq<char>, Seq<char>, Seq<char>),
> {
    match kind {
        PatKind::Stamp => stamp_split_of(text),
        PatKind::EntityLink => link_split_of(text),
    }
}

/// The view of an optional (prefix, matched, suffix) triple of strings.
pub open spec fn split_opt_view(r: Option<(String, String, String)>) -> Option<
    (Seq<char>, Seq<char>, Seq<char>),
> {
    match r {
        Some(parts) => Some((parts.0@, parts.1@, parts.2@)),
        None => None,
    }
}

/// Relies on `regex::Regex::find` with the stamp pattern `:@?(?:\w|[-.])+:`
/// (compiled by `regex::Regex::new`): the leftmost match lies within the text
/// and, as the pattern admits no empty match, is non-empty; the pattern is a
/// constant, so the outcome is a function of the text alone.
#[verifier::external_body]
fn find_stamp_split(text: &str) -> (r: Option<(String, String, String)>)
    ensures
        split_opt_view(r) == stamp_split_of(text@),
        r matches Some(parts) ==> text@ == parts.0@ + parts.1@ + parts.2@ && parts.1@.len() > 0,
{
    match Regex::new(r":@?(?:\w|[-.])+:").unwrap().find(text) {
        Some(m) => Some((
            text[..m.start()].to_string(),
            m.as_str().to_string(),
            text[m.end()..].to_string(),
        )),
        None => None,
    }
}

/// Relies on `regex::Regex::find` with the entity-link pattern
/// `!\{"type":"\w+","raw":"([^"]+)","id":"(?:\w|[-])+"\}` (compiled by
/// `regex::Regex::new`): the leftmost match lies within the text and is
/// non-empty; the pattern is a constant, so the outcome is a function of the
/// text alone.
#[verifier::external_body]
fn find_link_split(text: &str) -> (r: Option<(String, String, String)>)
    ensures
        split_opt_view(r) == link_split_of(text@),
        r matches Some(parts) ==> text@ == parts.0@ + parts.1@ + parts.2@ && parts.1@.len() > 0,
{
    match Regex::new(r#"!\{"type":"\w+","raw":"([^"]+)","id":"(?:\w|[-])+"\}"#).unwrap().find(text)
    {
        Some(m) => Some((
            text[..m.start()].to_string(),
            m.as_str().to_string(),
            text[m.end()..].to_string(),
        )),
        None => None,
    }
}

/// A pattern to split by: one of the library's fixed patterns, or an arbitrary
/// caller-supplied regular expression.
pub enum Pattern<'a> {
    Generic(&'a Regex),
    Known(PatKind),
}

/// Split `text` around the first match of `pat`; `None` when it does not
/// match. For the fixed patterns the outcome is pinned to the pattern's split
/// function.
fn find_split(pat: &Pattern, text: &str) -> (r: Option<(String, String, String)>)
    ensures
        r matches Some(parts) ==> text@ == parts.0@ + parts.1@ + parts.2@,
        pat matches Pattern::Known(k) ==> split_opt_view(r) == known_split_of(*k, text@) && (
        r matches Some(parts) ==> parts.1@.len() > 0),
{
    match pat {
        Pattern::Generic(regex) => regex_find_split(regex, text),
        Pattern::Known(PatKind::Stamp) => find_stamp_split(text),
        Pattern::Known(PatKind::EntityLink) => find_link_split(text),
    }
}

/// The full split of `text` by a fixed pattern kind: leftmost-first,
/// non-overlapping matches, unmatched runs between them kept whole, nothing
/// empty ever emitted.
pub open spec fn segments_of(kind: PatKind, text: Seq<char>) -> Seq<ElemV>
    decreases text.len(),
{
    if text.len() == 0 {
        seq![]
    } else {
        match known_split_of(kind, text) {
            None => seq![ElemV::Unmatched(text)],
            Some(parts) => {
                if text == parts.0 + parts.1 + parts.2 && parts.1.len() > 0 {
                    let head = if parts.0.len() == 0 {
                        seq![ElemV::Matched(parts.1)]
                    } else {
                        seq![ElemV::Unmatched(parts.0), ElemV::Matched(parts.1)]
                    };
                    head + segments_of(kind, parts.2)
                } else {
                    seq![ElemV::Unmatched(text)]
                }
            },
        }
    }
}

/// Whether no two unmatched runs sit side by side: adjacent unmatched text
/// is always coalesced into a single element.
pub open spec fn no_adjacent_unmatched(s: Seq<ElemV>) -> bool {
    forall|i: int|
        0 <= i && i + 1 < s.len() ==> !((#[trigger] s[i]) is Unmatched && s[i + 1] is Unmatched)
}

/// Split `text` into the runs the pattern leaves unmatched and the pattern's
/// matches, in order. Every character of the input lands in exactly one
/// element, no element is empty, no two unmatched runs are adjacent, and for
/// the fixed patterns the result is exactly `segments_of`.
fn split_all_at(pat: &Pattern, text: String) -> (r: Vec<SplittedElement>)
    ensures
        elems_source(elems_view(r@)) == text@,
        forall|i: int| 0 <= i < r@.len() ==> (#[trigger] r@[i]@).text().len() > 0,
        no_adjacent_unmatched(elems_view(r@)),
        pat matches Pattern::Known(k) ==> elems_view(r@) == segments_of(*k, text@),
{
    let mut result: Vec<SplittedElement> = Vec::new();
    let mut rest: String = text;
    let ghost whole: Seq<char> = rest@;
    loop
        invariant_except_break
            elems_source(elems_view(result@)) + rest@ == whole,
            forall|i: int| 0 <= i < result@.len() ==> (#[trigger] result@[i]@).text().len() > 0,
            no_adjacent_unmatched(elems_view(result@)),
            result@.len() > 0 ==> result@[result@.len() - 1]@ is Matched,
            pat matches Pattern::Known(k) ==> elems_view(result@) + segments_of(*k, rest@)
                == segments_of(*k, whole),
        ensures
            elems_source(elems_view(result@)) == whole,
            forall|i: int| 0 <= i < result@.len() ==> (#[trigger] result@[i]@).text().len() > 0,
            no_adjacent_unmatched(elems_view(result@)),
            pat matches Pattern::Known(k) ==> elems_view(result@) == segments_of(*k, whole),
        decreases rest@.len(),
    {
        if rest.as_str().is_empty() {
            proof {
                assert(elems_source(elems_view(result@)) =~= elems_source(elems_view(result@))
                    + rest@);
                assert(pat matches Pattern::Known(k) ==> elems_view(result@) =~= elems_view(
                    result@,
                ) + segments_of(*k, rest@));
            }
            break ;
        }
        let ghost remaining: Seq<char> = rest@;
        match find_split(pat, rest.as_str()) {
            None => {
                proof {
                    lemma_elems_view_push(result@, SplittedElement::Unmatched(rest));
                    lemma_elems_source_push(elems_view(result@), ElemV::Unmatched(rest@));
                    lemma_no_adjacent_push(elems_view(result@), ElemV::Unmatched(rest@));
                }
                let ghost old_views = elems_view(result@);
                result.push(SplittedElement::Unmatched(rest));
                proof {
                    assert(elems_source(elems_view(result@)) =~= whole);
                    assert(pat matches Pattern::Known(k) ==> segments_of(*k, remaining) == seq![
                        ElemV::Unmatched(remaining),
                    ]);
                    assert(pat matches Pattern::Known(k) ==> elems_view(result@) =~= old_views
                        + segments_of(*k, remaining));
                }
                break ;
            },
            Some((prefix, matched, suffix)) => {
                if matched.as_str().is_empty() {
                    // The fixed patterns never match the empty string; an
                    // arbitrary pattern may, and an empty match offers no
                    // foothold to advance past, so the remainder stays one
                    // unmatched run.
                    proof {
                        assert(!(pat is Known));
                        lemma_elems_view_push(result@, SplittedElement::Unmatched(rest));
                        lemma_elems_source_push(elems_view(result@), ElemV::Unmatched(rest@));
                        lemma_no_adjacent_push(elems_view(result@), ElemV::Unmatched(rest@));
                    }
                    result.push(SplittedElement::Unmatched(rest));
                    proof {
                        assert(elems_source(elems_view(result@)) =~= whole);
                    }
                    break ;
                }
                let ghost head = if prefix@.len() == 0 {
                    seq![ElemV::Matched(matched@)]
                } else {
                    seq![ElemV::Unmatched(prefix@), ElemV::Matched(matched@)]
                };
                proof {
                    assert(pat matches Pattern::Known(k) ==> segments_of(*k, remaining) == head
                        + segments_of(*k, suffix@));
                }
                let ghost views_before = elems_view(result@);
                if !prefix.as_str().is_empty() {
                    proof {
                        lemma_elems_view_push(result@, SplittedElement::Unmatched(prefix));
                        lemma_elems_source_push(elems_view(result@), ElemV::Unmatched(prefix@));
                        lemma_no_adjacent_push(elems_view(result@), ElemV::Unmatched(prefix@));
                    }
                    result.push(SplittedElement::Unmatched(prefix));
                }
                proof {
                    lemma_elems_view_push(result@, SplittedElement::Matched(matched));
                    lemma_elems_source_push(elems_view(result@), ElemV::Matched(matched@));
                    lemma_no_adjacent_push(elems_view(result@), ElemV::Matched(matched@));
                }
                result.push(SplittedElement::Matched(matched));
                proof {
                    assert(elems_view(result@) =~= views_before + head);
                    assert(elems_source(elems_view(result@)) + suffix@ =~= whole);
                    assert(pat matches Pattern::Known(k) ==> elems_view(result@) + segments_of(
                        *k,
                        suffix@,
                    ) =~= views_before + (head + segments_of(*k, suffix@)));
                }
                rest = suffix;
            },
        }
    }
    result
}

/// The views of a pushed sequence are the pushed views.
proof fn lemma_elems_view_push(s: Seq<SplittedElement>, e: SplittedElement)
    ensures
        elems_view(s.push(e)) == elems_view(s).push(e@),
{
    assert(elems_view(s.push(e)) =~= elems_view(s).push(e@));
}

/// Appending keeps unmatched runs non-adjacent, provided an unmatched run
/// only follows a match — or nothing.
proof fn lemma_no_adjacent_push(s: Seq<ElemV>, e: ElemV)
    requires
        no_adjacent_unmatched(s),
        e is Unmatched ==> (s.len() > 0 ==> s[s.len() - 1] is Matched),
    ensures
        no_adjacent_unmatched(s.push(e)),
{
    assert forall|i: int|
        0 <= i && i + 1 < s.push(e).len() implies !((#[trigger] s.push(e)[i]) is Unmatched
        && s.push(e)[i + 1] is Unmatched) by {
        if i + 1 < s.len() {
            assert(s.push(e)[i] == s[i]);
            assert(s.push(e)[i + 1] == s[i + 1]);
        } else {
            assert(s.push(e)[i] == s[i]);
            assert(s.push(e)[i + 1] == e);
        }
    }
}

/// Split `text` around the first match of `regex`, classifying the outcome by
/// which sides of the match hold unmatched text.
pub fn split_first_regex(text: String, regex: &Regex) -> (r: SplittedText)
    ensures
        r.source() == text@,
        r matches SplittedText::HasPrefix(p, m) ==> p@.len() > 0,
        r matches SplittedText::HasSuffix(m, s) ==> s@.len() > 0,
        r matches SplittedText::HasPrefixAndSuffix(p, m, s) ==> p@.len() > 0 && s@.len() > 0,
{
    match regex_find_split(regex, text.as_str()) {
        None => SplittedText::Unmatched(text),
        Some((prefix, matched, suffix)) => {
            if prefix.as_str().is_empty() {
                if suffix.as_str().is_empty() {
                    proof {
                        assert(text@ =~= matched@);
                    }
                    SplittedText::FullMatch(matched)
                } else {
                    proof {
                        assert(matched@ + suffix@ =~= text@);
                    }
                    SplittedText::HasSuffix(matched, suffix)
                }
            } else if suffix.as_str().is_empty() {
                proof {
                    assert(prefix@ + matched@ =~= text@);
                }
                SplittedText::HasPrefix(prefix, matched)
            } else {
                SplittedText::HasPrefixAndSuffix(prefix, matched, suffix)
            }
        },
    }
}

/// Split `text` into the runs `regex` leaves unmatched and its matches, in
/// order: every character lands in exactly one element, no element is empty,
/// and unmatched runs are coalesced — no two sit side by side. Which pieces
/// count as matches is the pattern's own affair and is pinned only for the
/// library's fixed patterns, in `split_all_known`.
pub fn split_all_regex(text: String, regex: &Regex) -> (r: Vec<SplittedElement>)
    ensures
        elems_source(elems_view(r@)) == text@,
        forall|i: int| 0 <= i < r@.len() ==> (#[trigger] r@[i]@).text().len() > 0,
        no_adjacent_unmatched(elems_view(r@)),
{
    split_all_at(&Pattern::Generic(regex), text)
}

/// Split `text` by one of the library's fixed patterns: the result is exactly
/// `segments_of` for that pattern.
pub fn split_all_known(kind: PatKind, text: String) -> (r: Vec<SplittedElement>)
    ensures
        elems_view(r@) == segments_of(kind, text@),
        elems_source(elems_view(r@)) == text@,
        forall|i: int| 0 <= i < r@.len() ==> (#[trigger] r@[i]@).text().len() > 0,
        no_adjacent_unmatched(elems_view(r@)),
{
    split_all_at(&Pattern::Known(kind), text)
}

} // verus!
