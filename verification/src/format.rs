//! Segmentation of a raw chat message into typed spans.
//!
//! Two fixed patterns are applied in priority order: entity links first, then
//! stamp codes over the text the first pass left unmatched. Every character of
//! the input lands in exactly one span, and no span is empty.

use vstd::prelude::*;

use crate::split::{
    elems_source, elems_view, known_split_of, segments_of, split_all_known, ElemV, PatKind,
    SplittedElement,
};

use regex::Regex;

verus! {

/// One typed span of a message: plain text, an atomic stamp code, or an
/// entity link carrying both the raw label shown to the model and the source
/// text it was matched from.
#[derive(Debug, Clone, PartialEq, Eq)]
pub enum ContentType {
    Text(String),
    Stamp(String),
    SpecialLink { raw: String, source: String },
}

/// The mathematical shadow of a `ContentType`.
pub enum SegV {
    Text(Seq<char>),
    Stamp(Seq<char>),
    SpecialLink { raw: Seq<char>, source: Seq<char> },
}

impl SegV {
    /// The substring of the original message the span covers.
    pub open spec fn source(self) -> Seq<char> {
        match self {
            SegV::Text(t) => t,
            SegV::Stamp(s) => s,
            SegV::SpecialLink { raw, source } => source,
        }
    }
}

impl View for ContentType {
    type V = SegV;

    open spec fn view(&self) -> SegV {
        match self {
            ContentType::Text(t) => SegV::Text(t@),
            ContentType::Stamp(s) => SegV::Stamp(s@),
            ContentType::SpecialLink { raw, source } => SegV::SpecialLink {
                raw: raw@,
                source: source@,
            },
        }
    }
}

/// The views of a sequence of spans.
pub open spec fn segs_view(s: Seq<ContentType>) -> Seq<SegV> {
    s.map_values(|c: ContentType| c@)
}

/// The concatenation of the source texts of a sequence of spans, in order.
pub open spec fn segs_source(s: Seq<SegV>) -> Seq<char>
    decreases s.len(),
{
    if s.len() == 0 {
        Seq::empty()
    } else {
        s[0].source() + segs_source(s.drop_first())
    }
}

/// The raw label inside one entity-link match: the text of its first capture
/// group. The pattern is fixed, so the result depends on the matched text
/// alone.
pub uninterp spec fn link_raw_of(matched: Seq<char>) -> Option<Seq<char>>;

/// The view of an optional string.
pub open spec fn opt_str_view(r: Option<String>) -> Option<Seq<char>> {
    match r {
        Some(s) => Some(s@),
        None => None,
    }
}

/// Relies on `regex::Regex::captures` with the entity-link pattern
/// `!\{"type":"\w+","raw":"([^"]+)","id":"(?:\w|[-])+"\}` (compiled by
/// `regex::Regex::new`): capture group 1 is the link's raw label; the pattern
/// is a constant, so the outcome is a function of the text alone.
#[verifier::external_body]
fn link_raw(matched: &str) -> (r: Option<String>)
    ensures
        opt_str_view(r) == link_raw_of(matched@),
{
    match Regex::new(r#"!\{"type":"\w+","raw":"([^"]+)","id":"(?:\w|[-])+"\}"#).unwrap().captures(
        matched,
    ) {
        Some(caps) => match caps.get(1) {
            Some(group) => Some(group.as_str().to_string()),
            None => None,
        },
        None => None,
    }
}

/// The span one entity-link match becomes: its raw label where the capture
/// yields one, else the matched text itself.
pub open spec fn seg_of_link(m: Seq<char>) -> SegV {
    match link_raw_of(m) {
        Some(raw) => SegV::SpecialLink { raw: raw, source: m },
        None => SegV::SpecialLink { raw: m, source: m },
    }
}

/// The span one element of the stamp pass becomes.
pub open spec fn seg_of_stamp_elem(e: ElemV) -> SegV {
    match e {
        ElemV::Unmatched(t) => SegV::Text(t),
        ElemV::Matched(m) => SegV::Stamp(m),
    }
}

/// The spans one element of the entity-link pass becomes: a link match stays
/// one span; an unmatched run is split again by the stamp pattern.
pub open spec fn segs_of_elem(e: ElemV) -> Seq<SegV> {
    match e {
        ElemV::Unmatched(t) => segments_of(PatKind::Stamp, t).map_values(
            |x: ElemV| seg_of_stamp_elem(x),
        ),
        ElemV::Matched(m) => seq![seg_of_link(m)],
    }
}

/// The spans a sequence of entity-link-pass elements becomes, in order.
pub open spec fn format_elems(elems: Seq<ElemV>) -> Seq<SegV>
    decreases elems.len(),
{
    if elems.len() == 0 {
        seq![]
    } else {
        segs_of_elem(elems[0]) + format_elems(elems.drop_first())
    }
}

/// The full segmentation of a raw message: the entity-link pass, then the
/// stamp pass over its unmatched runs.
pub open spec fn message_format_of(text: Seq<char>) -> Seq<SegV> {
    format_elems(segments_of(PatKind::EntityLink, text))
}

/// The source of a single-element sequence is that element's text.
proof fn lemma_elems_source_singleton(e: ElemV)
    ensures
        elems_source(seq![e]) == e.text(),
{
    assert(seq![e].drop_first() =~= Seq::<ElemV>::empty());
    assert(elems_source(seq![e].drop_first()) == Seq::<char>::empty());
    assert(elems_source(seq![e]) =~= e.text());
}

/// The source of a single-span sequence is that span's source.
proof fn lemma_segs_source_singleton(s: SegV)
    ensures
        segs_source(seq![s]) == s.source(),
{
    assert(seq![s].drop_first() =~= Seq::<SegV>::empty());
    assert(segs_source(seq![s].drop_first()) == Seq::<char>::empty());
    assert(segs_source(seq![s]) =~= s.source());
}

/// Formatting a single element yields exactly its spans.
proof fn lemma_format_elems_singleton(e: ElemV)
    ensures
        format_elems(seq![e]) == segs_of_elem(e),
{
    assert(seq![e].drop_first() =~= Seq::<ElemV>::empty());
    assert(format_elems(seq![e].drop_first()) == Seq::<SegV>::empty());
    assert(format_elems(seq![e]) =~= segs_of_elem(e));
}

/// The views of a pushed span sequence are the pushed views.
proof fn lemma_segs_view_push(s: Seq<ContentType>, c: ContentType)
    ensures
        segs_view(s.push(c)) == segs_view(s).push(c@),
{
    assert(segs_view(s.push(c)) =~= segs_view(s).push(c@));
}

/// `format_elems` distributes over concatenation.
proof fn lemma_format_elems_append(a: Seq<ElemV>, b: Seq<ElemV>)
    ensures
        format_elems(a + b) == format_elems(a) + format_elems(b),
    decreases a.len(),
{
    if a.len() == 0 {
        assert(a + b =~= b);
        assert(format_elems(a) + format_elems(b) =~= format_elems(b));
    } else {
        assert((a + b).drop_first() =~= a.drop_first() + b);
        lemma_format_elems_append(a.drop_first(), b);
        assert(format_elems(a + b) =~= (segs_of_elem(a[0]) + format_elems(a.drop_first()))
            + format_elems(b));
        assert(format_elems(a) + format_elems(b) =~= (segs_of_elem(a[0]) + format_elems(
            a.drop_first(),
        )) + format_elems(b));
    }
}

/// Split a raw message into its ordered typed spans: entity links first, then
/// stamps within the remaining text. The result is exactly the two-pass
/// segmentation `message_format_of`, it covers the input, and no span is
/// empty.
pub fn traq_message_format(messages: String) -> (r: Vec<ContentType>)
    ensures
        segs_view(r@) == message_format_of(messages@),
        segs_source(segs_view(r@)) == messages@,
        forall|i: int| 0 <= i < r@.len() ==> (#[trigger] r@[i]@).source().len() > 0,
{
    let ghost text: Seq<char> = messages@;
    let elems: Vec<SplittedElement> = split_all_known(PatKind::EntityLink, messages);
    let mut result: Vec<ContentType> = Vec::new();
    let mut i: usize = 0;
    while i < elems.len()
        invariant
            i <= elems.len(),
            elems_view(elems@) == segments_of(PatKind::EntityLink, text),
            segs_view(result@) == format_elems(elems_view(elems@).take(i as int)),
            forall|j: int|
                0 <= j < elems@.len() ==> (#[trigger] elems@[j]@).text().len() > 0,
            forall|j: int| 0 <= j < result@.len() ==> (#[trigger] result@[j]@).source().len() > 0,
        decreases elems.len() - i,
    {
        let ghost views = elems_view(elems@);
        proof {
            assert(views.take(i + 1) =~= views.take(i as int) + seq![views[i as int]]);
            lemma_format_elems_append(views.take(i as int), seq![views[i as int]]);
            lemma_format_elems_singleton(views[i as int]);
        }
        match &elems[i] {
            SplittedElement::Unmatched(t) => {
                let inner: Vec<SplittedElement> = split_all_known(PatKind::Stamp, t.clone());
                let ghost inner_views = elems_view(inner@);
                let ghost segs_before = segs_view(result@);
                let mut j: usize = 0;
                while j < inner.len()
                    invariant
                        j <= inner.len(),
                        elems_view(inner@) == inner_views,
                        segs_view(result@) == segs_before + inner_views.take(j as int).map_values(
                            |x: ElemV| seg_of_stamp_elem(x),
                        ),
                        forall|k: int|
                            0 <= k < inner@.len() ==> (#[trigger] inner@[k]@).text().len() > 0,
                        forall|k: int|
                            0 <= k < result@.len() ==> (#[trigger] result@[k]@).source().len() > 0,
                    decreases inner.len() - j,
                {
                    let elem: ContentType = match &inner[j] {
                        SplittedElement::Unmatched(u) => ContentType::Text(u.clone()),
                        SplittedElement::Matched(m) => ContentType::Stamp(m.clone()),
                    };
                    proof {
                        assert(elem@ == seg_of_stamp_elem(inner_views[j as int]));
                        lemma_segs_view_push(result@, elem);
                        assert(inner_views.take(j + 1) =~= inner_views.take(j as int).push(
                            inner_views[j as int],
                        ));
                    }
                    result.push(elem);
                    proof {
                        assert(segs_view(result@) =~= segs_before + inner_views.take(
                            j + 1,
                        ).map_values(|x: ElemV| seg_of_stamp_elem(x)));
                    }
                    j += 1;
                }
                proof {
                    assert(inner_views.take(inner@.len() as int) =~= inner_views);
                    assert(segs_of_elem(views[i as int]) == inner_views.map_values(
                        |x: ElemV| seg_of_stamp_elem(x),
                    ));
                    assert(segs_view(result@) =~= format_elems(views.take(i as int)) + segs_of_elem(
                        views[i as int],
                    ));
                }
            },
            SplittedElement::Matched(m) => {
                let elem: ContentType = match link_raw(m.as_str()) {
                    Some(raw) => ContentType::SpecialLink { raw, source: m.clone() },
                    None => ContentType::SpecialLink { raw: m.clone(), source: m.clone() },
                };
                proof {
                    assert(elem@ == seg_of_link(m@));
                    assert(elem@.source().len() > 0);
                }
                result.push(elem);
                proof {
                    assert(segs_view(result@) =~= format_elems(views.take(i as int)) + seq![
                        seg_of_link(m@),
                    ]);
                }
            },
        }
        i += 1;
    }
    proof {
        assert(elems_view(elems@).take(elems@.len() as int) =~= elems_view(elems@));
        lemma_message_format_covers(text);
        assert forall|k: int| 0 <= k < result@.len() implies (
        #[trigger] result@[k]@).source().len() > 0 by {
            assert(segs_view(result@)[k] == result@[k]@);
        }
    }
    result
}

/// Every element a fixed-pattern split yields is non-empty.
proof fn lemma_segments_nonempty(kind: PatKind, text: Seq<char>)
    ensures
        forall|i: int|
            0 <= i < segments_of(kind, text).len() ==> (#[trigger] segments_of(
                kind,
                text,
            )[i]).text().len() > 0,
    decreases text.len(),
{
    if text.len() == 0 {
    } else {
        match known_split_of_case(kind, text) {
            SplitCase::Productive(p, m, s) => {
                lemma_segments_nonempty(kind, s);
                let head = if p.len() == 0 {
                    seq![ElemV::Matched(m)]
                } else {
                    seq![ElemV::Unmatched(p), ElemV::Matched(m)]
                };
                assert forall|i: int|
                    0 <= i < segments_of(kind, text).len() implies (#[trigger] segments_of(
                    kind,
                    text,
                )[i]).text().len() > 0 by {
                    if i < head.len() {
                        assert(segments_of(kind, text)[i] == head[i]);
                    } else {
                        assert(segments_of(kind, text)[i] == segments_of(kind, s)[i - head.len()]);
                    }
                }
            },
            SplitCase::Whole => {
            },
        }
    }
}

/// The shape `segments_of` takes on a non-empty text: either the split is
/// productive — a non-empty match with the text around it — or the whole text
/// stays one unmatched run.
pub enum SplitCase {
    Productive(Seq<char>, Seq<char>, Seq<char>),
    Whole,
}

/// Which arm of `segments_of` a non-empty text falls into.
pub open spec fn known_split_of_case(kind: PatKind, text: Seq<char>) -> SplitCase {
    match known_split_of(kind, text) {
        Some(parts) => {
            if text == parts.0 + parts.1 + parts.2 && parts.1.len() > 0 {
                SplitCase::Productive(parts.0, parts.1, parts.2)
            } else {
                SplitCase::Whole
            }
        },
        None => SplitCase::Whole,
    }
}

/// A fixed-pattern split covers its text.
proof fn lemma_segments_source(kind: PatKind, text: Seq<char>)
    ensures
        elems_source(segments_of(kind, text)) == text,
    decreases text.len(),
{
    if text.len() == 0 {
    } else {
        match known_split_of_case(kind, text) {
            SplitCase::Productive(p, m, s) => {
                lemma_segments_source(kind, s);
                let head = if p.len() == 0 {
                    seq![ElemV::Matched(m)]
                } else {
                    seq![ElemV::Unmatched(p), ElemV::Matched(m)]
                };
                lemma_elems_source_append(head, segments_of(kind, s));
                assert(elems_source(head) =~= p + m) by {
                    if p.len() == 0 {
                        lemma_elems_source_singleton(ElemV::Matched(m));
                        assert(p + m =~= m);
                    } else {
                        assert(head.drop_first() =~= seq![ElemV::Matched(m)]);
                        lemma_elems_source_singleton(ElemV::Matched(m));
                        assert(elems_source(head) =~= head[0].text() + elems_source(
                            head.drop_first(),
                        ));
                    }
                }
                assert((p + m) + s =~= text);
            },
            SplitCase::Whole => {
                assert(segments_of(kind, text) =~= seq![ElemV::Unmatched(text)]);
                lemma_elems_source_singleton(ElemV::Unmatched(text));
            },
        }
    }
}

/// `elems_source` distributes over concatenation.
proof fn lemma_elems_source_append(a: Seq<ElemV>, b: Seq<ElemV>)
    ensures
        elems_source(a + b) == elems_source(a) + elems_source(b),
    decreases a.len(),
{
    if a.len() == 0 {
        assert(a + b =~= b);
        assert(elems_source(a) + elems_source(b) =~= elems_source(b));
    } else {
        assert((a + b).drop_first() =~= a.drop_first() + b);
        lemma_elems_source_append(a.drop_first(), b);
        assert(elems_source(a + b) =~= (a[0].text() + elems_source(a.drop_first()))
            + elems_source(b));
        assert(elems_source(a) + elems_source(b) =~= (a[0].text() + elems_source(a.drop_first()))
            + elems_source(b));
    }
}

/// `segs_source` distributes over concatenation.
proof fn lemma_segs_source_append(a: Seq<SegV>, b: Seq<SegV>)
    ensures
        segs_source(a + b) == segs_source(a) + segs_source(b),
    decreases a.len(),
{
    if a.len() == 0 {
        assert(a + b =~= b);
        assert(segs_source(a) + segs_source(b) =~= segs_source(b));
    } else {
        assert((a + b).drop_first() =~= a.drop_first() + b);
        lemma_segs_source_append(a.drop_first(), b);
        assert(segs_source(a + b) =~= (a[0].source() + segs_source(a.drop_first())) + segs_source(
            b,
        ));
        assert(segs_source(a) + segs_source(b) =~= (a[0].source() + segs_source(a.drop_first()))
            + segs_source(b));
    }
}

/// The spans of one entity-link-pass element cover its text.
proof fn lemma_segs_of_elem_source(e: ElemV)
    ensures
        segs_source(segs_of_elem(e)) == e.text(),
{
    match e {
        ElemV::Unmatched(t) => {
            lemma_segments_source(PatKind::Stamp, t);
            let inner = segments_of(PatKind::Stamp, t);
            let mapped = inner.map_values(|x: ElemV| seg_of_stamp_elem(x));
            lemma_mapped_source(inner);
        },
        ElemV::Matched(m) => {
            lemma_segs_source_singleton(seg_of_link(m));
        },
    }
}

/// Mapping stamp elements to spans preserves the covered text.
proof fn lemma_mapped_source(inner: Seq<ElemV>)
    ensures
        segs_source(inner.map_values(|x: ElemV| seg_of_stamp_elem(x))) == elems_source(inner),
    decreases inner.len(),
{
    let mapped = inner.map_values(|x: ElemV| seg_of_stamp_elem(x));
    if inner.len() == 0 {
    } else {
        lemma_mapped_source(inner.drop_first());
        assert(mapped.drop_first() =~= inner.drop_first().map_values(
            |x: ElemV| seg_of_stamp_elem(x),
        ));
        assert(mapped[0].source() == inner[0].text());
    }
}

/// Segmentation coverage: concatenating the spans of the two-pass
/// segmentation, in order, reproduces the message exactly.
pub proof fn lemma_message_format_covers(text: Seq<char>)
    ensures
        segs_source(message_format_of(text)) == text,
{
    lemma_segments_source(PatKind::EntityLink, text);
    lemma_format_elems_source(segments_of(PatKind::EntityLink, text));
}

/// The spans of a sequence of entity-link-pass elements cover their texts.
proof fn lemma_format_elems_source(elems: Seq<ElemV>)
    ensures
        segs_source(format_elems(elems)) == elems_source(elems),
    decreases elems.len(),
{
    if elems.len() == 0 {
    } else {
        lemma_format_elems_source(elems.drop_first());
        lemma_segs_of_elem_source(elems[0]);
        lemma_segs_source_append(segs_of_elem(elems[0]), format_elems(elems.drop_first()));
    }
}

/// No span of the two-pass segmentation is empty.
pub proof fn lemma_message_format_nonempty(text: Seq<char>)
    ensures
        forall|i: int|
            0 <= i < message_format_of(text).len() ==> (#[trigger] message_format_of(
                text,
            )[i]).source().len() > 0,
{
    lemma_segments_nonempty(PatKind::EntityLink, text);
    lemma_format_elems_nonempty(segments_of(PatKind::EntityLink, text));
}

/// Formatting non-empty elements yields non-empty spans.
proof fn lemma_format_elems_nonempty(elems: Seq<ElemV>)
    requires
        forall|i: int| 0 <= i < elems.len() ==> (#[trigger] elems[i]).text().len() > 0,
    ensures
        forall|i: int|
            0 <= i < format_elems(elems).len() ==> (#[trigger] format_elems(
                elems,
            )[i]).source().len() > 0,
    decreases elems.len(),
{
    if elems.len() == 0 {
    } else {
        lemma_format_elems_nonempty(elems.drop_first());
        let head = segs_of_elem(elems[0]);
        assert forall|i: int| 0 <= i < head.len() implies (#[trigger] head[i]).source().len()
            > 0 by {
            match elems[0] {
                ElemV::Unmatched(t) => {
                    lemma_segments_nonempty(PatKind::Stamp, t);
                    assert(head[i] == seg_of_stamp_elem(segments_of(PatKind::Stamp, t)[i]));
                },
                ElemV::Matched(m) => {
                    assert(head[i] == seg_of_link(m));
                },
            }
        }
        assert forall|i: int| 0 <= i < format_elems(elems).len() implies (
        #[trigger] format_elems(elems)[i]).source().len() > 0 by {
            if i < head.len() {
                assert(format_elems(elems)[i] == head[i]);
            } else {
                assert(format_elems(elems)[i] == format_elems(elems.drop_first())[i - head.len()]);
            }
        }
    }
}

} // verus!
