//! The tokenizer adapter: a message's typed spans become one space-joined
//! training string.
//!
//! Plain-text spans are split into whitespace-delimited word tokens; stamp and
//! entity-link spans pass through as exactly one opaque token each, never
//! subdivided. A message whose raw text matches one of the configured block
//! patterns is excluded from training altogether.

use vstd::prelude::*;

use crate::format::{message_format_of, segs_view, traq_message_format, ContentType, SegV};

use regex::RegexSet;

verus! {

/// The whitespace characters the word tokenizer splits on.
pub open spec fn is_space_char(c: char) -> bool {
    c == ' ' || c == '\t' || c == '\n' || c == '\r'
}

/// The word tokens of `text` given the word collected so far: maximal
/// non-whitespace runs, in order, never empty.
pub open spec fn tokens_acc(text: Seq<char>, cur: Seq<char>) -> Seq<Seq<char>>
    decreases text.len(),
{
    if text.len() == 0 {
        if cur.len() == 0 {
            seq![]
        } else {
            seq![cur]
        }
    } else if is_space_char(text[0]) {
        if cur.len() == 0 {
            tokens_acc(text.drop_first(), Seq::empty())
        } else {
            seq![cur] + tokens_acc(text.drop_first(), Seq::empty())
        }
    } else {
        tokens_acc(text.drop_first(), cur.push(text[0]))
    }
}

/// The word tokens of a plain-text span.
pub open spec fn whitespace_tokens(text: Seq<char>) -> Seq<Seq<char>> {
    tokens_acc(text, Seq::empty())
}

/// The views of a sequence of token strings.
pub open spec fn tokens_view(s: Seq<String>) -> Seq<Seq<char>> {
    s.map_values(|t: String| t@)
}

/// Split a plain-text span into its whitespace-delimited word tokens.
pub fn tokenize(text: &str) -> (r: Vec<String>)
    ensures
        tokens_view(r@) == whitespace_tokens(text@),
{
    let ghost chars: Seq<char> = text@;
    let len: usize = text.unicode_len();
    let mut result: Vec<String> = Vec::new();
    let mut start: usize = 0;
    let mut i: usize = 0;
    proof {
        assert(chars.skip(0) =~= chars);
        assert(chars.subrange(0, 0) =~= Seq::<char>::empty());
        assert(tokens_view(Seq::<String>::empty()) =~= Seq::<Seq<char>>::empty());
        assert(Seq::<Seq<char>>::empty() + whitespace_tokens(chars) =~= whitespace_tokens(chars));
    }
    while i < len
        invariant
            len == chars.len(),
            text@ == chars,
            start <= i <= len,
            forall|k: int| start <= k < i ==> !is_space_char(chars[k]),
            tokens_view(result@) + tokens_acc(chars.skip(i as int), chars.subrange(start as int, i as int))
                == whitespace_tokens(chars),
        decreases len - i,
    {
        let ghost rest = chars.skip(i as int);
        let ghost cur = chars.subrange(start as int, i as int);
        proof {
            assert(rest[0] == chars[i as int]);
            assert(rest.drop_first() =~= chars.skip(i + 1));
        }
        let c: char = text.get_char(i);
        if c == ' ' || c == '\t' || c == '\n' || c == '\r' {
            proof {
                assert(is_space_char(rest[0]));
                assert(chars.subrange(i + 1, i + 1) =~= Seq::<char>::empty());
                assert(tokens_acc(rest.drop_first(), Seq::empty()) == tokens_acc(
                    chars.skip(i + 1),
                    Seq::empty(),
                ));
                assert(tokens_acc(chars.skip(i + 1), Seq::empty()) == tokens_acc(
                    chars.skip(i + 1),
                    chars.subrange(i + 1, i + 1),
                ));
            }
            if start < i {
                let word: String = text.substring_char(start, i).to_owned();
                proof {
                    assert(word@ == cur);
                    assert(cur.len() > 0);
                    assert(tokens_acc(rest, cur) == seq![cur] + tokens_acc(
                        chars.skip(i + 1),
                        Seq::empty(),
                    ));
                    lemma_tokens_view_push(result@, word);
                    assert(tokens_view(result@).push(word@) + tokens_acc(
                        chars.skip(i + 1),
                        Seq::empty(),
                    ) =~= tokens_view(result@) + (seq![cur] + tokens_acc(
                        chars.skip(i + 1),
                        Seq::empty(),
                    )));
                }
                result.push(word);
            } else {
                proof {
                    assert(cur =~= Seq::<char>::empty());
                    assert(tokens_acc(rest, cur) == tokens_acc(chars.skip(i + 1), Seq::empty()));
                }
            }
            start = i + 1;
        } else {
            proof {
                assert(!is_space_char(rest[0]));
                assert(tokens_acc(rest, cur) == tokens_acc(rest.drop_first(), cur.push(rest[0])));
                assert(cur.push(chars[i as int]) =~= chars.subrange(start as int, i + 1));
                assert(tokens_acc(rest.drop_first(), cur.push(rest[0])) == tokens_acc(
                    chars.skip(i + 1),
                    chars.subrange(start as int, i + 1),
                ));
            }
        }
        i += 1;
    }
    proof {
        assert(chars.skip(len as int) =~= Seq::<char>::empty());
    }
    if start < len {
        let word: String = text.substring_char(start, len).to_owned();
        proof {
            let cur = chars.subrange(start as int, len as int);
            assert(cur.len() > 0);
            assert(tokens_acc(Seq::<char>::empty(), cur) == seq![cur]);
            assert(tokens_acc(chars.skip(len as int), cur) == seq![cur]);
            lemma_tokens_view_push(result@, word);
            assert(tokens_view(result@).push(word@) =~= tokens_view(result@) + seq![cur]);
        }
        result.push(word);
    } else {
        proof {
            let cur = chars.subrange(start as int, len as int);
            assert(cur =~= Seq::<char>::empty());
            assert(tokens_acc(chars.skip(len as int), cur) == Seq::<Seq<char>>::empty());
            assert(tokens_view(result@) + Seq::<Seq<char>>::empty() =~= tokens_view(result@));
        }
    }
    result
}

/// The views of a pushed token sequence are the pushed views.
proof fn lemma_tokens_view_push(s: Seq<String>, t: String)
    ensures
        tokens_view(s.push(t)) == tokens_view(s).push(t@),
{
    assert(tokens_view(s.push(t)) =~= tokens_view(s).push(t@));
}

/// The tokens one span contributes: word tokens for plain text, the span
/// itself — one atomic token — for a stamp, its raw label for an entity link.
pub open spec fn seg_tokens(s: SegV) -> Seq<Seq<char>> {
    match s {
        SegV::Text(t) => whitespace_tokens(t),
        SegV::Stamp(x) => seq![x],
        SegV::SpecialLink { raw, source } => seq![raw],
    }
}

/// The token stream of a span sequence, in order.
pub open spec fn segs_tokens(s: Seq<SegV>) -> Seq<Seq<char>>
    decreases s.len(),
{
    if s.len() == 0 {
        seq![]
    } else {
        seg_tokens(s[0]) + segs_tokens(s.drop_first())
    }
}

/// Joining a token sequence with single spaces.
pub open spec fn join_spaces(tokens: Seq<Seq<char>>) -> Seq<char>
    decreases tokens.len(),
{
    if tokens.len() == 0 {
        Seq::empty()
    } else if tokens.len() == 1 {
        tokens[0]
    } else {
        tokens[0] + seq![' '] + join_spaces(tokens.drop_first())
    }
}

/// Joining after appending one token appends a space and the token — unless
/// nothing preceded it.
proof fn lemma_join_spaces_push(tokens: Seq<Seq<char>>, t: Seq<char>)
    ensures
        tokens.len() == 0 ==> join_spaces(tokens.push(t)) == t,
        tokens.len() > 0 ==> join_spaces(tokens.push(t)) == join_spaces(tokens) + seq![' '] + t,
    decreases tokens.len(),
{
    if tokens.len() == 0 {
        assert(tokens.push(t)[0] == t);
    } else {
        lemma_join_spaces_push(tokens.drop_first(), t);
        assert(tokens.push(t).drop_first() =~= tokens.drop_first().push(t));
        if tokens.len() == 1 {
            assert(tokens.drop_first() =~= Seq::<Seq<char>>::empty());
            assert(join_spaces(tokens.push(t)) =~= tokens[0] + seq![' '] + t);
            assert(join_spaces(tokens) + seq![' '] + t =~= tokens[0] + seq![' '] + t);
        } else {
            assert(join_spaces(tokens.push(t)) =~= (tokens[0] + seq![' ']) + (join_spaces(
                tokens.drop_first(),
            ) + seq![' '] + t));
            assert(join_spaces(tokens) + seq![' '] + t =~= (tokens[0] + seq![' ']) + (join_spaces(
                tokens.drop_first(),
            ) + seq![' '] + t));
        }
    }
}

/// The token stream of a message's spans: each plain-text span split into
/// words, each stamp or entity link kept as one token.
pub fn flatten_segments(segments: &Vec<ContentType>) -> (r: Vec<String>)
    ensures
        tokens_view(r@) == segs_tokens(segs_view(segments@)),
{
    let mut result: Vec<String> = Vec::new();
    let mut i: usize = 0;
    let ghost segs = segs_view(segments@);
    proof {
        assert(segs.skip(0) =~= segs);
        assert(tokens_view(Seq::<String>::empty()) =~= Seq::<Seq<char>>::empty());
        assert(Seq::<Seq<char>>::empty() + segs_tokens(segs) =~= segs_tokens(segs));
    }
    while i < segments.len()
        invariant
            i <= segments.len(),
            segs == segs_view(segments@),
            tokens_view(result@) + segs_tokens(segs.skip(i as int)) == segs_tokens(segs),
        decreases segments.len() - i,
    {
        proof {
            assert(segs.skip(i as int)[0] == segs[i as int]);
            assert(segs.skip(i as int).drop_first() =~= segs.skip(i + 1));
            assert(segs[i as int] == segments@[i as int]@);
        }
        let ghost before = tokens_view(result@);
        match &segments[i] {
            ContentType::Text(t) => {
                let words: Vec<String> = tokenize(t.as_str());
                let mut j: usize = 0;
                while j < words.len()
                    invariant
                        j <= words.len(),
                        tokens_view(result@) == before + tokens_view(words@).take(j as int),
                    decreases words.len() - j,
                {
                    proof {
                        lemma_tokens_view_push(result@, words@[j as int]);
                        assert(tokens_view(words@).take(j + 1) =~= tokens_view(words@).take(
                            j as int,
                        ).push(words@[j as int]@));
                        assert(tokens_view(words@)[j as int] == words@[j as int]@);
                        assert(before + tokens_view(words@).take(j as int).push(words@[j as int]@)
                            =~= (before + tokens_view(words@).take(j as int)).push(
                            words@[j as int]@,
                        ));
                    }
                    let word: String = words[j].clone();
                    result.push(word);
                    j += 1;
                }
                proof {
                    assert(tokens_view(words@).take(words@.len() as int) =~= tokens_view(words@));
                    assert(before + tokens_view(words@) + segs_tokens(segs.skip(i + 1))
                        =~= before + (seg_tokens(segs[i as int]) + segs_tokens(segs.skip(i + 1))));
                }
            },
            ContentType::Stamp(x) => {
                let tok: String = x.clone();
                proof {
                    lemma_tokens_view_push(result@, tok);
                }
                result.push(tok);
                proof {
                    assert(before.push(x@) + segs_tokens(segs.skip(i + 1)) =~= before + (seq![x@]
                        + segs_tokens(segs.skip(i + 1))));
                }
            },
            ContentType::SpecialLink { raw, source } => {
                let tok: String = raw.clone();
                proof {
                    lemma_tokens_view_push(result@, tok);
                }
                result.push(tok);
                proof {
                    assert(before.push(raw@) + segs_tokens(segs.skip(i + 1)) =~= before + (seq![
                        raw@,
                    ] + segs_tokens(segs.skip(i + 1))));
                }
            },
        }
        i += 1;
    }
    proof {
        assert(segs.skip(segs.len() as int) =~= Seq::<SegV>::empty());
        assert(tokens_view(result@) + Seq::<Seq<char>>::empty() =~= tokens_view(result@));
    }
    result
}

/// Join a token stream into one space-separated string.
pub fn join_tokens(tokens: &Vec<String>) -> (r: String)
    ensures
        r@ == join_spaces(tokens_view(tokens@)),
{
    let mut acc: String = String::new();
    let mut i: usize = 0;
    while i < tokens.len()
        invariant
            i <= tokens.len(),
            acc@ == join_spaces(tokens_view(tokens@).take(i as int)),
        decreases tokens.len() - i,
    {
        proof {
            lemma_join_spaces_push(tokens_view(tokens@).take(i as int), tokens@[i as int]@);
            assert(tokens_view(tokens@).take(i + 1) =~= tokens_view(tokens@).take(i as int).push(
                tokens@[i as int]@,
            ));
            reveal_strlit(" ");
            assert(" "@ =~= seq![' ']);
        }
        if i > 0 {
            acc.append(" ");
        }
        acc.append(tokens[i].as_str());
        proof {
            if i == 0 {
                assert(tokens_view(tokens@).take(0int) =~= Seq::<Seq<char>>::empty());
                assert(acc@ =~= tokens@[i as int]@);
            }
        }
        i += 1;
    }
    proof {
        assert(tokens_view(tokens@).take(tokens@.len() as int) =~= tokens_view(tokens@));
    }
    acc
}

/// The single training string one message yields: the space-join of the token
/// stream of its two-pass segmentation.
pub open spec fn training_string_of(text: Seq<char>) -> Seq<char> {
    join_spaces(segs_tokens(message_format_of(text)))
}

/// Non-text spans are atomic: whatever the message, every stamp span of its
/// segmentation contributes exactly one token — its own text — and every
/// entity-link span exactly one token — its raw label — to the token stream;
/// the word tokenizer never subdivides either.
pub proof fn lemma_non_text_spans_atomic(text: Seq<char>, i: int)
    requires
        0 <= i < message_format_of(text).len(),
    ensures
        message_format_of(text)[i] matches SegV::Stamp(s) ==> seg_tokens(
            message_format_of(text)[i],
        ) == seq![s],
        (message_format_of(text)[i] matches SegV::SpecialLink { raw, source } ==> seg_tokens(
            message_format_of(text)[i],
        ) == seq![raw]),
{
}

/// Whether a raw message matches one of the configured block patterns — a lone
/// reaction stamp, a bare URL, a bare link embed, a filler-syllable message,
/// or a command prefix. The patterns are constants, so the outcome is a
/// function of the text alone.
pub uninterp spec fn blocked_of(text: Seq<char>) -> bool;

/// Relies on `regex::RegexSet::is_match` over the constant block patterns
/// (compiled by `regex::RegexSet::new`): whether any of them matches the raw
/// message.
#[verifier::external_body]
fn is_block_message(text: &str) -> (r: bool)
    ensures
        r == blocked_of(text@),
{
    RegexSet::new([
        r"^:awoo:$",
        r"^(?:https?:)?//(?:\w|[.-])+/\S+\n*$",
        r"^\[[^\[\]]+\]\((?:https?:)?//(?:\w|[.-])+/\S+\)\n*$",
        r"^う+\n*$",
        r"^%",
    ]).unwrap().is_match(text)
}

/// The training string a raw message contributes, or `None` when its raw text
/// matches a block pattern and the message is excluded from training.
pub fn eligible_training_string(text: String) -> (r: Option<String>)
    ensures
        r is None <==> blocked_of(text@),
        r matches Some(s) ==> s@ == training_string_of(text@),
{
    if is_block_message(text.as_str()) {
        None
    } else {
        let segments: Vec<ContentType> = traq_message_format(text);
        let tokens: Vec<String> = flatten_segments(&segments);
        Some(join_tokens(&tokens))
    }
}

} // verus!
