//! The corpus synchronizer: paginated fetching from a remote message source,
//! converging to an exact, deduplicated, gap-free window of records.
//!
//! The remote source is modelled as the sequence of records it holds; a page
//! request is a pure function of that sequence, an offset and time bounds.
//! The forward pass walks offsets until the total reported by the first page
//! is exhausted; each page is persisted through the store's idempotent insert
//! before it joins the accumulator, so an aborted run leaves a durable
//! prefix. A bounded backward extension then re-queries before the oldest
//! record seen and keeps only records at or after that boundary — against a
//! stable source it finds nothing and stops at once.

use vstd::prelude::*;
use vstd::seq_lib::group_seq_properties;

use crate::freq::opt_i64_view;
use crate::messages::{
    has_id, insert_ignore, lemma_insert_ignore_adds_ids, lemma_insert_ignore_append,
    lemma_insert_ignore_noop, MessageRecord, MessageStore,
};

verus! {

/// How many backward extension rounds one run may attempt before giving up:
/// the conservative bound on total-count drift compensation.
pub const MAX_BACKWARD_ROUNDS: usize = 8;

/// Whether a record falls in the queried time window: at or after `after`,
/// strictly before `before`.
pub open spec fn in_window(m: MessageRecord, before: Option<int>, after: Option<int>) -> bool {
    (match after {
        Some(a) => m.created_at >= a,
        None => true,
    }) && (match before {
        Some(b) => m.created_at < b,
        None => true,
    })
}

/// The window predicate as a function value, shared by every filter.
pub open spec fn window_pred(before: Option<int>, after: Option<int>) -> spec_fn(
    MessageRecord,
) -> bool {
    |m: MessageRecord| in_window(m, before, after)
}

/// The records of the remote source that fall in the window, in source order.
pub open spec fn window(
    s: Seq<MessageRecord>,
    before: Option<int>,
    after: Option<int>,
) -> Seq<MessageRecord> {
    s.filter(window_pred(before, after))
}

/// Whether a record falls in the window, decided executably.
fn in_window_exec(m: &MessageRecord, before: &Option<i64>, after: &Option<i64>) -> (r: bool)
    ensures
        r == in_window(*m, opt_i64_view(*before), opt_i64_view(*after)),
{
    let after_ok: bool = match after {
        Some(a) => m.created_at >= *a,
        None => true,
    };
    let before_ok: bool = match before {
        Some(b) => m.created_at < *b,
        None => true,
    };
    after_ok && before_ok
}

/// One page request against the modelled remote source: the window's total
/// size, and the window's records from `offset` on, at most `page_size` of
/// them.
pub fn fetch_page(
    remote: &Vec<MessageRecord>,
    offset: usize,
    page_size: usize,
    before: Option<i64>,
    after: Option<i64>,
) -> (r: (usize, Vec<MessageRecord>))
    ensures
        ({
            let win = window(remote@, opt_i64_view(before), opt_i64_view(after));
            r.0 == win.len() && r.1@ == win.subrange(
                if offset as int <= win.len() {
                    offset as int
                } else {
                    win.len() as int
                },
                if offset as int + page_size as int <= win.len() {
                    offset as int + page_size as int
                } else {
                    win.len() as int
                },
            )
        }),
{
    let ghost win = window(remote@, opt_i64_view(before), opt_i64_view(after));
    let mut filtered: Vec<MessageRecord> = Vec::new();
    let mut i: usize = 0;
    proof {
        assert(remote@.take(0) =~= Seq::<MessageRecord>::empty());
        assert(Seq::<MessageRecord>::empty().filter(
            window_pred(opt_i64_view(before), opt_i64_view(after)),
        ) =~= Seq::<MessageRecord>::empty()) by {
            reveal(Seq::filter);
        }
    }
    while i < remote.len()
        invariant
            i <= remote.len(),
            filtered@ == remote@.take(i as int).filter(
                window_pred(opt_i64_view(before), opt_i64_view(after)),
            ),
        decreases remote.len() - i,
    {
        proof {
            assert(remote@.take(i + 1) =~= remote@.take(i as int).push(remote@[i as int]));
            remote@.take(i as int).lemma_filter_push(
                remote@[i as int],
                window_pred(opt_i64_view(before), opt_i64_view(after)),
            );
        }
        if in_window_exec(&remote[i], &before, &after) {
            let rec = remote[i].duplicate();
            filtered.push(rec);
        }
        i += 1;
    }
    proof {
        assert(remote@.take(remote@.len() as int) =~= remote@);
    }
    let total: usize = filtered.len();
    let lo: usize = if offset <= total {
        offset
    } else {
        total
    };
    let hi: usize = if page_size <= total - lo {
        lo + page_size
    } else {
        total
    };
    let mut page: Vec<MessageRecord> = Vec::new();
    let mut k: usize = lo;
    proof {
        assert(win.subrange(lo as int, lo as int) =~= Seq::<MessageRecord>::empty());
    }
    while k < hi
        invariant
            lo <= k <= hi <= total,
            total == win.len(),
            filtered@ == win,
            page@ == win.subrange(lo as int, k as int),
        decreases hi - k,
    {
        let rec = filtered[k].duplicate();
        proof {
            assert(win.subrange(lo as int, k + 1) =~= win.subrange(lo as int, k as int).push(
                win[k as int],
            ));
        }
        page.push(rec);
        k += 1;
    }
    proof {
        if offset as int + page_size as int <= win.len() {
            assert(hi as int == offset as int + page_size as int || lo == total);
        }
    }
    (total, page)
}

/// A page count bounded on both sides by multiples of the page size is the
/// rounded-up quotient.
pub proof fn lemma_page_count_ceil(pages: int, size: int, total: int)
    requires
        size >= 1,
        total >= 1,
        (pages - 1) * size < total,
        total <= pages * size,
    ensures
        pages == (total + size - 1) / size,
{
    assert(pages * size <= total + size - 1 < (pages + 1) * size) by (nonlinear_arith)
        requires
            size >= 1,
            (pages - 1) * size < total,
            total <= pages * size,
    ;
    assert((total + size - 1) / size == pages) by (nonlinear_arith)
        requires
            size >= 1,
            pages * size <= total + size - 1 < (pages + 1) * size,
    ;
}

/// The forward pass: page through the window at increasing offsets until the
/// total reported by the first page is reached, persisting every page through
/// the store's idempotent insert before accumulating it. The accumulated
/// result is the whole window, and a non-empty window takes exactly the
/// rounded-up quotient of page requests.
pub fn fetch_messages_as_match_as_possible_at_once(
    store: &mut MessageStore,
    remote: &Vec<MessageRecord>,
    before: Option<i64>,
    after: Option<i64>,
    page_size: usize,
) -> (r: (usize, Vec<MessageRecord>))
    requires
        page_size > 0,
        remote@.len() < usize::MAX,
    ensures
        ({
            let win = window(remote@, opt_i64_view(before), opt_i64_view(after));
            r.1@ == win && final(store).records@ == insert_ignore(old(store).records@, win) && (
            win.len() == 0 ==> r.0 == 1) && (win.len() > 0 ==> r.0 as int == (win.len() + page_size
                - 1) / (page_size as int))
        }),
{
    let ghost win = window(remote@, opt_i64_view(before), opt_i64_view(after));
    let ghost total: int = win.len() as int;
    let (limit, first_page) = fetch_page(remote, 0, page_size, before, after);
    proof {
        broadcast use group_seq_properties;

        assert(win.subrange(0, if page_size as int <= total {
            page_size as int
        } else {
            total
        }) =~= win.take(
            if page_size as int <= total {
                page_size as int
            } else {
                total
            },
        ));
    }
    store.insert_messages(&first_page);
    let mut messages: Vec<MessageRecord> = first_page;
    let mut now: usize = messages.len();
    let mut pages: usize = 1;
    proof {
        assert(messages@.len() == if page_size as int <= total {
            page_size as int
        } else {
            total
        });
        assert(1 * page_size as int == page_size as int);
    }
    while now < limit
        invariant
            page_size > 0,
            remote@.len() < usize::MAX,
            limit == total,
            total == win.len(),
            win == window(remote@, opt_i64_view(before), opt_i64_view(after)),
            now == messages@.len(),
            now <= total,
            messages@ == win.take(now as int),
            store_progress_inv(store, old(store), win, now as int),
            pages >= 1,
            total == 0 ==> pages == 1,
            now as int == if pages as int * page_size as int <= total {
                pages as int * page_size as int
            } else {
                total
            },
            total > 0 ==> (pages as int - 1) * page_size < total,
        decreases limit - now,
    {
        proof {
            assert(pages as int * page_size as int == now as int) by {
                if pages as int * page_size as int > total {
                    assert(now as int == total);
                }
            }
            assert(pages as int <= pages as int * page_size as int) by (nonlinear_arith)
                requires
                    page_size >= 1,
                    pages >= 1,
            ;
        }
        let (_, page) = fetch_page(remote, now, page_size, before, after);
        let ghost hi: int = if now as int + page_size as int <= total {
            now as int + page_size as int
        } else {
            total
        };
        proof {
            assert(page@ == win.subrange(now as int, hi));
            lemma_insert_ignore_append(old(store).records@, win.take(now as int), page@);
            assert(win.take(now as int) + win.subrange(now as int, hi) =~= win.take(hi));
        }
        store.insert_messages(&page);
        let mut page_tail: Vec<MessageRecord> = page;
        messages.append(&mut page_tail);
        proof {
            assert(messages@ =~= win.take(hi));
        }
        now = messages.len();
        pages = pages + 1;
        proof {
            assert((pages as int) * page_size as int == (pages as int - 1) * page_size as int
                + page_size as int) by (nonlinear_arith);
        }
    }
    proof {
        assert(now as int == total);
        assert(messages@ =~= win);
        if total > 0 {
            assert(pages as int * page_size as int >= total) by {
                if pages as int * page_size as int <= total {
                    assert(now as int == pages as int * page_size as int);
                }
            }
            lemma_page_count_ceil(pages as int, page_size as int, total);
        }
    }
    // A remote total drifting downward mid-run could overfill the
    // accumulator; against the stable source model this is a proven no-op,
    // and it caps the result at the initially observed total either way.
    if messages.len() > limit {
        messages.truncate(limit);
    }
    (pages, messages)
}

/// The store-progress invariant of the forward pass, named so the loop can
/// carry it.
pub open spec fn store_progress_inv(
    store: &MessageStore,
    old_store: &MessageStore,
    win: Seq<MessageRecord>,
    now: int,
) -> bool {
    store.records@ == insert_ignore(old_store.records@, win.take(now))
}

/// The backward-pass retention predicate: keep only records that are not the
/// current oldest and not older than its creation time.
pub open spec fn retain_pred(oldest_id: Seq<char>, oldest_created_at: int) -> spec_fn(
    MessageRecord,
) -> bool {
    |m: MessageRecord| m.id@ != oldest_id && m.created_at >= oldest_created_at
}

/// Keep only the records a backward page may legitimately add: the current
/// oldest itself and anything older than it are dropped.
pub fn filter_older(
    older: &Vec<MessageRecord>,
    oldest_id: &String,
    oldest_created_at: i64,
) -> (r: Vec<MessageRecord>)
    ensures
        r@ == older@.filter(retain_pred(oldest_id@, oldest_created_at as int)),
{
    let mut result: Vec<MessageRecord> = Vec::new();
    let mut i: usize = 0;
    proof {
        assert(older@.take(0) =~= Seq::<MessageRecord>::empty());
        assert(Seq::<MessageRecord>::empty().filter(
            retain_pred(oldest_id@, oldest_created_at as int),
        ) =~= Seq::<MessageRecord>::empty()) by {
            reveal(Seq::filter);
        }
    }
    while i < older.len()
        invariant
            i <= older.len(),
            result@ == older@.take(i as int).filter(
                retain_pred(oldest_id@, oldest_created_at as int),
            ),
        decreases older.len() - i,
    {
        proof {
            assert(older@.take(i + 1) =~= older@.take(i as int).push(older@[i as int]));
            older@.take(i as int).lemma_filter_push(
                older@[i as int],
                retain_pred(oldest_id@, oldest_created_at as int),
            );
        }
        let keep: bool = !(older[i].id == *oldest_id) && older[i].created_at >= oldest_created_at;
        if keep {
            let rec = older[i].duplicate();
            result.push(rec);
        }
        i += 1;
    }
    proof {
        assert(older@.take(older@.len() as int) =~= older@);
    }
    result
}

/// Every element of a filtered sequence is an element of the original.
proof fn lemma_filter_elem_of(s: Seq<MessageRecord>, pred: spec_fn(MessageRecord) -> bool, k: int)
    requires
        0 <= k < s.filter(pred).len(),
    ensures
        s.contains(s.filter(pred)[k]),
    decreases s.len(),
{
    reveal(Seq::filter);
    if s.len() > 0 {
        let sub = s.drop_last().filter(pred);
        if k < sub.len() {
            lemma_filter_elem_of(s.drop_last(), pred, k);
            let w = choose|j: int| 0 <= j < s.drop_last().len() && s.drop_last()[j] == sub[k];
            assert(s[w] == sub[k]);
            assert(s.filter(pred)[k] == sub[k]);
        } else {
            assert(pred(s.last()));
            assert(s.filter(pred)[k] == s.last());
            assert(s[s.len() - 1] == s.last());
        }
    }
}

/// Synchronize the store to the full remote window at or after `after`: the
/// forward pass accumulates and persists the whole window, and the backward
/// extension — re-querying before the oldest record seen, keeping only
/// records at or after that boundary — finds nothing against a stable source
/// and stops at once, its bounded rounds guarding against total-count drift.
pub fn fetch_messages(
    store: &mut MessageStore,
    remote: &Vec<MessageRecord>,
    limit: Option<usize>,
    after: Option<i64>,
    page_size: usize,
) -> (r: Vec<MessageRecord>)
    requires
        page_size > 0,
        remote@.len() < usize::MAX,
    ensures
        ({
            let win = window(remote@, None, opt_i64_view(after));
            r@ == win && final(store).records@ == insert_ignore(old(store).records@, win)
        }),
{
    let ghost win = window(remote@, None, opt_i64_view(after));
    proof {
        assert(opt_i64_view(None::<i64>) == None::<int>);
    }
    let (_, mut messages) = fetch_messages_as_match_as_possible_at_once(
        store,
        remote,
        None,
        after,
        page_size,
    );
    if messages.len() == 0 {
        return messages;
    }
    let mut rounds: usize = 0;
    proof {
        assert(win.take(win.len() as int) =~= win);
    }
    loop
        invariant_except_break
            page_size > 0,
            remote@.len() < usize::MAX,
            win == window(remote@, None, opt_i64_view(after)),
            messages@ == win,
            messages@.len() > 0,
            store_progress_inv(store, old(store), win, win.len() as int),
            rounds <= MAX_BACKWARD_ROUNDS,
        ensures
            messages@ == win,
            store_progress_inv(store, old(store), win, win.len() as int),
        decreases MAX_BACKWARD_ROUNDS - rounds,
    {
        proof {
            assert(win.take(win.len() as int) =~= win);
        }
        match limit {
            Some(l) => {
                if messages.len() >= l {
                    break ;
                }
            },
            None => {},
        }
        let last_index: usize = messages.len() - 1;
        let oldest: MessageRecord = messages[last_index].duplicate();
        let ghost boundary: int = oldest.created_at as int;
        let ghost store_pre = store.records@;
        let (_, older_raw) = fetch_messages_as_match_as_possible_at_once(
            store,
            remote,
            Some(oldest.created_at),
            after,
            page_size,
        );
        let ghost bwin = window(remote@, Some(boundary), opt_i64_view(after));
        proof {
            // Every record of the backward window already sits in the store:
            // its identifier came in with the forward window.
            assert forall|k: int|
                0 <= k < bwin.len() implies has_id(store_pre, (#[trigger] bwin[k]).id@) by {
                lemma_filter_elem_of(remote@, window_pred(Some(boundary), opt_i64_view(after)), k);
                let w = choose|j: int| 0 <= j < remote@.len() && remote@[j] == bwin[k];
                assert(in_window(remote@[w], Some(boundary), opt_i64_view(after))) by {
                    remote@.lemma_filter_pred(window_pred(Some(boundary), opt_i64_view(after)), k);
                }
                assert(in_window(remote@[w], None, opt_i64_view(after)));
                remote@.lemma_filter_contains(window_pred(None, opt_i64_view(after)), w);
                let v = choose|j: int| 0 <= j < win.len() && win[j] == remote@[w];
                lemma_insert_ignore_adds_ids(old(store).records@, win);
                assert(has_id(store_pre, win[v].id@));
            }
            lemma_insert_ignore_noop(store_pre, bwin);
        }
        let older: Vec<MessageRecord> = filter_older(&older_raw, &oldest.id, oldest.created_at);
        proof {
            // The backward window lies strictly before the boundary, so the
            // retention filter keeps none of it.
            assert(older@.len() == 0) by {
                if older@.len() > 0 {
                    older_raw@.lemma_filter_pred(
                        retain_pred(oldest.id@, boundary),
                        0,
                    );
                    lemma_filter_elem_of(older_raw@, retain_pred(oldest.id@, boundary), 0);
                    let w = choose|j: int|
                        0 <= j < older_raw@.len() && older_raw@[j] == older@[0];
                    remote@.lemma_filter_pred(window_pred(Some(boundary), opt_i64_view(after)), w);
                }
            }
        }
        if older.len() == 0 {
            break ;
        }
        // A non-empty remainder would mean the remote total drifted mid-run;
        // the extension keeps absorbing it, up to the bounded retries.
        let mut older_tail: Vec<MessageRecord> = older;
        messages.append(&mut older_tail);
        rounds = rounds + 1;
        if rounds >= MAX_BACKWARD_ROUNDS {
            break ;
        }
    }
    proof {
        assert(win.take(win.len() as int) =~= win);
    }
    messages
}

} // verus!
