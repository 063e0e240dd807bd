//! Scheduler- and handler-facing decisions: which command a mention carries,
//! the emission jitter, and the cron cadence.

use vstd::prelude::*;

use crate::freq::draw_in_range;

verus! {

/// Whether `needle` occurs in `hay` starting at position `i`.
pub open spec fn is_match_at(hay: Seq<char>, needle: Seq<char>, i: int) -> bool {
    0 <= i && i + needle.len() <= hay.len() && hay.subrange(i, i + needle.len()) == needle
}

/// Whether `needle` occurs anywhere in `hay`.
pub open spec fn contains_sub(hay: Seq<char>, needle: Seq<char>) -> bool {
    exists|i: int| #[trigger] is_match_at(hay, needle, i)
}

/// Whether `needle` occurs in `h` starting at position `i`.
fn match_at(h: &str, needle: &str, i: usize) -> (r: bool)
    requires
        i + needle@.len() <= h@.len(),
    ensures
        r == is_match_at(h@, needle@, i as int),
{
    let nlen: usize = needle.unicode_len();
    let hlen: usize = h.unicode_len();
    let mut j: usize = 0;
    while j < nlen
        invariant
            j <= nlen,
            nlen == needle@.len(),
            hlen == h@.len(),
            i + nlen <= h@.len(),
            forall|t: int| 0 <= t < j ==> h@[i + t] == needle@[t],
        decreases nlen - j,
    {
        if !(h.get_char(i + j) == needle.get_char(j)) {
            proof {
                assert(!is_match_at(h@, needle@, i as int)) by {
                    if h@.subrange(i as int, i as int + needle@.len() as int) == needle@ {
                        assert(h@.subrange(i as int, i as int + needle@.len() as int)[j as int]
                            == needle@[j as int]);
                    }
                }
            }
            return false;
        }
        j += 1;
    }
    proof {
        assert(h@.subrange(i as int, i as int + needle@.len() as int) =~= needle@);
    }
    true
}

/// Whether `needle` occurs anywhere in `hay`: the leftmost-scan substring
/// search.
pub fn str_contains(hay: &String, needle: &str) -> (r: bool)
    ensures
        r == contains_sub(hay@, needle@),
{
    let h: &str = hay.as_str();
    let hlen: usize = h.unicode_len();
    let nlen: usize = needle.unicode_len();
    if nlen > hlen {
        proof {
            assert forall|k: int| !#[trigger] is_match_at(hay@, needle@, k) by {
                if is_match_at(hay@, needle@, k) {
                    assert(k + needle@.len() <= hay@.len());
                }
            }
        }
        return false;
    }
    let limit: usize = hlen - nlen;
    let mut i: usize = 0;
    loop
        invariant_except_break
            i <= limit,
            limit == hlen - nlen,
            nlen <= hlen,
            hlen == hay@.len(),
            nlen == needle@.len(),
            h@ == hay@,
            forall|k: int| 0 <= k < i ==> !#[trigger] is_match_at(hay@, needle@, k),
        ensures
            forall|k: int| 0 <= k <= limit ==> !#[trigger] is_match_at(hay@, needle@, k),
        decreases limit - i,
    {
        if match_at(h, needle, i) {
            proof {
                assert(is_match_at(hay@, needle@, i as int));
            }
            return true;
        }
        if i == limit {
            break ;
        }
        i += 1;
    }
    proof {
        assert forall|k: int| !#[trigger] is_match_at(hay@, needle@, k) by {
            if is_match_at(hay@, needle@, k) {
                if k <= limit as int {
                } else {
                    assert(k + needle@.len() > hay@.len());
                }
            }
        }
    }
    false
}

/// The command a mention carries: joining takes priority over leaving, and
/// anything else falls through to the reply path.
#[derive(Debug, Clone, Copy, PartialEq, Eq, Structural)]
pub enum MentionCommand {
    JoinChannel,
    LeaveChannel,
    Other,
}

/// Read the command out of a mention's plain text.
pub fn mention_command(plain_text: &String) -> (r: MentionCommand)
    ensures
        contains_sub(plain_text@, "join"@) ==> r == MentionCommand::JoinChannel,
        !contains_sub(plain_text@, "join"@) && contains_sub(plain_text@, "leave"@) ==> r
            == MentionCommand::LeaveChannel,
        !contains_sub(plain_text@, "join"@) && !contains_sub(plain_text@, "leave"@) ==> r
            == MentionCommand::Other,
{
    if str_contains(plain_text, "join") {
        MentionCommand::JoinChannel
    } else if str_contains(plain_text, "leave") {
        MentionCommand::LeaveChannel
    } else {
        MentionCommand::Other
    }
}

/// The randomized delay, in minutes, an emission waits before posting, so
/// emissions are not perfectly periodic: a uniform draw of a few up to twenty
/// minutes.
pub fn emission_jitter_minutes() -> (m: u64)
    ensures
        1 <= m < 20,
{
    draw_in_range(1, 19)
}

/// The cron cadence of the emission job: every few seconds when rapid
/// emission is configured, else thrice an hour through the active hours.
pub fn cron_schedule(many_msg: bool) -> (r: &'static str)
    ensures
        many_msg ==> r@ == "1/4 * * * * *"@,
        !many_msg ==> r@ == "0 0,20,40 0-15,22-23 * * *"@,
{
    if many_msg {
        "1/4 * * * * *"
    } else {
        "0 0,20,40 0-15,22-23 * * *"
    }
}

} // verus!
