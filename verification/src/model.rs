//! The Markov model and the pipeline that feeds it.
//!
//! The chain itself — an order-2 state-transition table — comes from the
//! `markov` crate and stays opaque; the library tracks it by the sequence of
//! training strings fed so far. Feeding turns each eligible stored message
//! into its training string; generation samples a token walk and joins it.

use vstd::prelude::*;

use crate::messages::{insert_ignore, MessageRecord, MessageStore};
use crate::sync::{fetch_messages, window};
use crate::freq::opt_i64_view;
use crate::tokenize::{blocked_of, eligible_training_string, tokens_view, training_string_of};

verus! {

/// The shared language model: an order-2 chain from the `markov` crate, held
/// opaquely — Verus sees it only through its corpus, the sequence of training
/// strings fed so far.
#[verifier::external_body]
pub struct MarkovModel {
    chain: markov::Chain<String>,
}

/// The training strings fed into a model so far, in order.
pub uninterp spec fn model_corpus(m: MarkovModel) -> Seq<Seq<char>>;

/// The pieces of `text` between single space characters, in order, empty
/// pieces kept: exactly how the chain's feeding splits a training string into
/// tokens.
pub open spec fn space_split(text: Seq<char>, cur: Seq<char>) -> Seq<Seq<char>>
    decreases text.len(),
{
    if text.len() == 0 {
        seq![cur]
    } else if text[0] == ' ' {
        seq![cur] + space_split(text.drop_first(), Seq::empty())
    } else {
        space_split(text.drop_first(), cur.push(text[0]))
    }
}

/// Whether `tok` is one of the space-separated tokens of some string of the
/// corpus.
pub open spec fn corpus_token(corpus: Seq<Seq<char>>, tok: Seq<char>) -> bool {
    exists|j: int|
        0 <= j < corpus.len() && #[trigger] space_split(corpus[j], Seq::empty()).contains(tok)
}

impl MarkovModel {
    /// The training strings fed into the model so far, in order.
    pub open spec fn corpus(self) -> Seq<Seq<char>> {
        model_corpus(self)
    }

    /// Relies on `markov::Chain::of_order`: a fresh chain of order 2 with
    /// nothing fed into it.
    #[verifier::external_body]
    pub fn new() -> (r: MarkovModel)
        ensures
            model_corpus(r) == Seq::<Seq<char>>::empty(),
    {
        MarkovModel { chain: markov::Chain::of_order(2) }
    }

    /// Relies on `markov::Chain::feed_str`: feeds one training string — its
    /// space-separated tokens — into the chain.
    #[verifier::external_body]
    pub fn feed(&mut self, text: &str)
        ensures
            model_corpus(*final(self)) == model_corpus(*old(self)).push(text@),
    {
        self.chain.feed_str(text);
    }

    /// Relies on `markov::Chain::is_empty`: whether nothing has been fed;
    /// `feed_str` always feeds at least one token, so this is exactly an
    /// empty corpus.
    #[verifier::external_body]
    pub fn is_empty(&self) -> (r: bool)
        ensures
            r == (model_corpus(*self).len() == 0),
    {
        self.chain.is_empty()
    }

    /// Relies on `markov::Chain::generate`: a token walk sampled from the
    /// chain. The walk draws random numbers, so which tokens come is not
    /// pinned; but the start state's successors are exactly first tokens of
    /// fed strings, so the walk opens with one, and every later token was fed
    /// too — each element of the walk is a space-separated token of some
    /// corpus string. On an empty chain the sampler draws from an empty range
    /// and panics, so the corpus must be non-empty.
    #[verifier::external_body]
    pub fn generate(&self) -> (r: Vec<String>)
        requires
            model_corpus(*self).len() > 0,
        ensures
            r@.len() > 0,
            forall|i: int|
                0 <= i < r@.len() ==> corpus_token(model_corpus(*self), (#[trigger] r@[i])@),
    {
        self.chain.generate()
    }
}

/// The concatenation of token views, with nothing between them.
pub open spec fn concat_views(tokens: Seq<Seq<char>>) -> Seq<char>
    decreases tokens.len(),
{
    if tokens.len() == 0 {
        Seq::empty()
    } else {
        tokens[0] + concat_views(tokens.drop_first())
    }
}

/// Join tokens into one string with nothing between them.
fn join_all(tokens: &Vec<String>) -> (r: String)
    ensures
        r@ == concat_views(tokens_view(tokens@)),
{
    let mut acc: String = String::new();
    let mut i: usize = 0;
    proof {
        assert(tokens_view(tokens@).take(0) =~= Seq::<Seq<char>>::empty());
        assert(acc@ =~= concat_views(Seq::<Seq<char>>::empty()));
    }
    while i < tokens.len()
        invariant
            i <= tokens.len(),
            acc@ == concat_views(tokens_view(tokens@).take(i as int)),
        decreases tokens.len() - i,
    {
        proof {
            lemma_concat_views_push(tokens_view(tokens@).take(i as int), tokens@[i as int]@);
            assert(tokens_view(tokens@).take(i + 1) =~= tokens_view(tokens@).take(i as int).push(
                tokens@[i as int]@,
            ));
        }
        acc.append(tokens[i].as_str());
        i += 1;
    }
    proof {
        assert(tokens_view(tokens@).take(tokens@.len() as int) =~= tokens_view(tokens@));
    }
    acc
}

/// Concatenating after appending one token appends that token's text.
proof fn lemma_concat_views_push(tokens: Seq<Seq<char>>, t: Seq<char>)
    ensures
        concat_views(tokens.push(t)) == concat_views(tokens) + t,
    decreases tokens.len(),
{
    if tokens.len() == 0 {
        assert(tokens.push(t)[0] == t);
        assert(tokens.push(t).drop_first() =~= Seq::<Seq<char>>::empty());
        assert(concat_views(tokens.push(t).drop_first()) == Seq::<char>::empty());
        assert(concat_views(tokens.push(t)) =~= t);
        assert(concat_views(tokens) + t =~= t);
    } else {
        lemma_concat_views_push(tokens.drop_first(), t);
        assert(tokens.push(t).drop_first() =~= tokens.drop_first().push(t));
        assert(concat_views(tokens.push(t)) =~= tokens[0] + (concat_views(tokens.drop_first())
            + t));
        assert(concat_views(tokens) + t =~= tokens[0] + (concat_views(tokens.drop_first()) + t));
    }
}

/// Produce one generated message: a sampled token walk joined into a single
/// string. The sampling is random, so which string comes out is not pinned;
/// the model must have been fed.
pub fn generate_message(model: &MarkovModel) -> (r: String)
    requires
        model.corpus().len() > 0,
    ensures
        exists|walk: Seq<Seq<char>>|
            #[trigger] concat_views(walk) == r@ && walk.len() > 0 && forall|i: int|
                0 <= i < walk.len() ==> corpus_token(model.corpus(), #[trigger] walk[i]),
{
    let tokens: Vec<String> = model.generate();
    let joined: String = join_all(&tokens);
    proof {
        let walk = tokens_view(tokens@);
        assert(concat_views(walk) == joined@);
        assert(walk.len() > 0);
        assert forall|i: int| 0 <= i < walk.len() implies corpus_token(
            model.corpus(),
            #[trigger] walk[i],
        ) by {
            assert(walk[i] == tokens@[i]@);
        }
    }
    joined
}

/// The training strings a sequence of raw messages contributes: blocked
/// messages are skipped, each other message becomes its training string.
pub open spec fn trained_strings(msgs: Seq<Seq<char>>) -> Seq<Seq<char>>
    decreases msgs.len(),
{
    if msgs.len() == 0 {
        seq![]
    } else {
        let rest = trained_strings(msgs.drop_first());
        if blocked_of(msgs[0]) {
            rest
        } else {
            seq![training_string_of(msgs[0])] + rest
        }
    }
}

/// `trained_strings` distributes over concatenation.
proof fn lemma_trained_strings_append(a: Seq<Seq<char>>, b: Seq<Seq<char>>)
    ensures
        trained_strings(a + b) == trained_strings(a) + trained_strings(b),
    decreases a.len(),
{
    if a.len() == 0 {
        assert(a + b =~= b);
        assert(trained_strings(a) + trained_strings(b) =~= trained_strings(b));
    } else {
        assert((a + b).drop_first() =~= a.drop_first() + b);
        lemma_trained_strings_append(a.drop_first(), b);
        if blocked_of(a[0]) {
            assert(trained_strings(a + b) =~= trained_strings(a) + trained_strings(b));
        } else {
            assert(trained_strings(a + b) =~= seq![training_string_of(a[0])] + (trained_strings(
                a.drop_first(),
            ) + trained_strings(b)));
            assert(trained_strings(a) + trained_strings(b) =~= seq![training_string_of(a[0])] + (
            trained_strings(a.drop_first()) + trained_strings(b)));
        }
    }
}

/// Feed a batch of raw messages into the model: each message not matching a
/// block pattern contributes exactly its training string, in order.
pub fn feed_messages(model: &mut MarkovModel, messages: &Vec<String>)
    ensures
        final(model).corpus() == old(model).corpus() + trained_strings(tokens_view(messages@)),
{
    let ghost msgs = tokens_view(messages@);
    let mut i: usize = 0;
    proof {
        assert(msgs.take(0) =~= Seq::<Seq<char>>::empty());
        assert(trained_strings(Seq::<Seq<char>>::empty()) == Seq::<Seq<char>>::empty());
        assert(old(model).corpus() + Seq::<Seq<char>>::empty() =~= old(model).corpus());
    }
    while i < messages.len()
        invariant
            i <= messages.len(),
            msgs == tokens_view(messages@),
            model.corpus() == old(model).corpus() + trained_strings(msgs.take(i as int)),
        decreases messages.len() - i,
    {
        proof {
            assert(msgs.take(i + 1) =~= msgs.take(i as int) + seq![msgs[i as int]]);
            lemma_trained_strings_append(msgs.take(i as int), seq![msgs[i as int]]);
            assert(seq![msgs[i as int]].drop_first() =~= Seq::<Seq<char>>::empty());
            assert(seq![msgs[i as int]][0] == msgs[i as int]);
            assert(trained_strings(Seq::<Seq<char>>::empty()) == Seq::<Seq<char>>::empty());
            assert(msgs[i as int] == messages@[i as int]@);
        }
        let text: String = messages[i].clone();
        match eligible_training_string(text) {
            Some(training) => {
                model.feed(training.as_str());
                proof {
                    assert(trained_strings(seq![msgs[i as int]]) =~= seq![
                        training_string_of(msgs[i as int]),
                    ]);
                    assert(model.corpus() =~= old(model).corpus() + trained_strings(
                        msgs.take(i + 1),
                    ));
                }
            },
            None => {
                proof {
                    assert(trained_strings(seq![msgs[i as int]]) =~= Seq::<Seq<char>>::empty());
                    assert(model.corpus() =~= old(model).corpus() + trained_strings(
                        msgs.take(i + 1),
                    ));
                }
            },
        }
        i += 1;
    }
    proof {
        assert(msgs.take(msgs.len() as int) =~= msgs);
    }
}

/// The content strings of stored records, in order.
pub open spec fn records_contents(s: Seq<MessageRecord>) -> Seq<Seq<char>> {
    s.map_values(|m: MessageRecord| m.content@)
}

/// The creation time of the newest record.
pub open spec fn max_created(s: Seq<MessageRecord>) -> int
    decreases s.len(),
{
    if s.len() <= 1 {
        if s.len() == 1 {
            s[0].created_at as int
        } else {
            0
        }
    } else {
        let rest = max_created(s.drop_first());
        if s[0].created_at >= rest {
            s[0].created_at as int
        } else {
            rest
        }
    }
}

/// The incremental boundary one refresh queries from: nothing when forced or
/// when the store is empty, else the newest stored creation time.
pub open spec fn refresh_after(s: Seq<MessageRecord>, force_fetch: bool) -> Option<int> {
    if force_fetch || s.len() == 0 {
        None
    } else {
        Some(max_created(s))
    }
}

/// A record at least as new as every record, present in the sequence, carries
/// the newest creation time.
proof fn lemma_max_created(s: Seq<MessageRecord>, i: int)
    requires
        0 <= i < s.len(),
        forall|j: int| 0 <= j < s.len() ==> (#[trigger] s[j]).created_at <= s[i].created_at,
    ensures
        max_created(s) == s[i].created_at,
    decreases s.len(),
{
    if s.len() > 1 {
        if i == 0 {
            let rest = s.drop_first();
            let k = lemma_exists_max(rest);
            lemma_max_created(rest, k);
            assert(rest[k] == s[k + 1]);
        } else {
            let rest = s.drop_first();
            assert forall|j: int|
                0 <= j < rest.len() implies (#[trigger] rest[j]).created_at <= rest[i
                - 1].created_at by {
                assert(rest[j] == s[j + 1]);
            }
            lemma_max_created(rest, i - 1);
            assert(rest[i - 1] == s[i]);
        }
    }
}

/// A witness index of a record at least as new as every record.
proof fn lemma_exists_max(s: Seq<MessageRecord>) -> (k: int)
    requires
        s.len() > 0,
    ensures
        0 <= k < s.len(),
        forall|j: int| 0 <= j < s.len() ==> (#[trigger] s[j]).created_at <= s[k].created_at,
    decreases s.len(),
{
    if s.len() == 1 {
        0
    } else {
        let k = lemma_exists_max(s.drop_first());
        assert(forall|j: int| 1 <= j < s.len() ==> #[trigger] s[j] == s.drop_first()[j - 1]);
        if s[0].created_at >= s.drop_first()[k].created_at {
            0
        } else {
            assert(s[k + 1] == s.drop_first()[k]);
            k + 1
        }
    }
}

/// One corpus refresh: synchronize the store to the remote window past the
/// incremental boundary — the newest stored record, unless a full fetch is
/// forced — then feed every stored message into the model, blocked ones
/// skipped.
pub fn update_markov_chain(
    model: &mut MarkovModel,
    store: &mut MessageStore,
    remote: &Vec<MessageRecord>,
    force_fetch: bool,
    page_size: usize,
) -> (fetched: Vec<MessageRecord>)
    requires
        page_size > 0,
        remote@.len() < usize::MAX,
    ensures
        fetched@ == window(remote@, None, refresh_after(old(store).records@, force_fetch)),
        final(store).records@ == insert_ignore(old(store).records@, fetched@),
        final(model).corpus() == old(model).corpus() + trained_strings(
            records_contents(final(store).records@),
        ),
{
    let after: Option<i64> = if force_fetch {
        None
    } else {
        match store.get_latest_message() {
            Some(m) => {
                proof {
                    let w = choose|i: int|
                        0 <= i < store.records@.len() && #[trigger] store.records@[i] == m;
                    lemma_max_created(store.records@, w);
                }
                Some(m.created_at)
            },
            None => None,
        }
    };
    proof {
        assert(opt_i64_view(after) == refresh_after(old(store).records@, force_fetch));
    }
    let fetched: Vec<MessageRecord> = fetch_messages(store, remote, None, after, page_size);
    let stored: &Vec<MessageRecord> = store.get_messages();
    let mut contents: Vec<String> = Vec::new();
    let mut i: usize = 0;
    proof {
        assert(tokens_view(contents@) =~= records_contents(stored@.take(0)));
    }
    while i < stored.len()
        invariant
            i <= stored.len(),
            stored@ == store.records@,
            tokens_view(contents@) == records_contents(stored@.take(i as int)),
        decreases stored.len() - i,
    {
        let c: String = stored[i].content.clone();
        let ghost contents_before = contents@;
        contents.push(c);
        proof {
            assert(tokens_view(contents@) =~= tokens_view(contents_before).push(c@));
            assert(stored@.take(i + 1) =~= stored@.take(i as int).push(stored@[i as int]));
            assert(records_contents(stored@.take(i + 1)) =~= records_contents(
                stored@.take(i as int),
            ).push(stored@[i as int].content@));
            assert(tokens_view(contents@) =~= records_contents(stored@.take(i + 1)));
        }
        i += 1;
    }
    proof {
        assert(stored@.take(stored@.len() as int) =~= stored@);
    }
    feed_messages(model, &contents);
    fetched
}

} // verus!
