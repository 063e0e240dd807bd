//! Per-channel reply-frequency control.
//!
//! A frequency is an integer percentage in 0–100. The persistent store is the
//! source of truth; an in-memory cache fronts it. A successful update writes
//! through to both, so cache and store never diverge. The command grammar
//! accepts `off`/`0`/`no`, `full`/`100`, and bare integers, and rejects
//! anything else with a validation error.

use vstd::prelude::*;

use crate::format::opt_str_view;

use regex::Regex;

verus! {

/// The reply frequency a channel falls back to when no entry is stored.
pub const DEFAULT_FREQUENCY: i64 = 20;

/// One stored frequency entry: a channel and its reply percentage.
#[derive(Debug, Clone, PartialEq, Eq)]
pub struct FrequencyRecord {
    pub channel_id: String,
    pub frequency: i64,
}

/// The frequency the first entry for `id` holds, scanning left to right.
pub open spec fn seq_get(s: Seq<FrequencyRecord>, id: Seq<char>) -> Option<int>
    decreases s.len(),
{
    if s.len() == 0 {
        None
    } else if s[0].channel_id@ == id {
        Some(s[0].frequency as int)
    } else {
        seq_get(s.drop_first(), id)
    }
}

/// The view of an optional frequency.
pub open spec fn opt_i64_view(r: Option<i64>) -> Option<int> {
    match r {
        Some(v) => Some(v as int),
        None => None,
    }
}

/// A keyed table of frequency entries. It models both roles the library
/// needs: the persistent store's contents and the in-memory cache in front of
/// it.
#[derive(Debug, Clone, PartialEq, Eq)]
pub struct FrequencyTable {
    pub entries: Vec<FrequencyRecord>,
}

/// Updating the entry at a first-match position changes only that key.
proof fn lemma_seq_get_update(s: Seq<FrequencyRecord>, i: int, rec: FrequencyRecord, id: Seq<char>)
    requires
        0 <= i < s.len(),
        s[i].channel_id@ == id,
        rec.channel_id@ == id,
        forall|j: int| 0 <= j < i ==> (#[trigger] s[j]).channel_id@ != id,
    ensures
        seq_get(s.update(i, rec), id) == Some(rec.frequency as int),
        forall|k: Seq<char>| k != id ==> #[trigger] seq_get(s.update(i, rec), k) == seq_get(s, k),
    decreases s.len(),
{
    if i == 0 {
        assert forall|k: Seq<char>| k != id implies #[trigger] seq_get(s.update(i, rec), k)
            == seq_get(s, k) by {
            assert(s.update(0, rec).drop_first() =~= s.drop_first());
        }
        assert(s.update(0, rec)[0] == rec);
    } else {
        lemma_seq_get_update(s.drop_first(), i - 1, rec, id);
        assert(s.update(i, rec).drop_first() =~= s.drop_first().update(i - 1, rec));
        assert(s.update(i, rec)[0] == s[0]);
        assert(s[0].channel_id@ != id);
        assert forall|k: Seq<char>| k != id implies #[trigger] seq_get(s.update(i, rec), k)
            == seq_get(s, k) by {
            assert(seq_get(s.drop_first().update(i - 1, rec), k) == seq_get(s.drop_first(), k));
        }
    }
}

/// Appending an entry for a key no earlier entry holds binds that key and no
/// other.
proof fn lemma_seq_get_push(s: Seq<FrequencyRecord>, rec: FrequencyRecord)
    requires
        forall|j: int| 0 <= j < s.len() ==> (#[trigger] s[j]).channel_id@ != rec.channel_id@,
    ensures
        seq_get(s.push(rec), rec.channel_id@) == Some(rec.frequency as int),
        forall|k: Seq<char>|
            k != rec.channel_id@ ==> #[trigger] seq_get(s.push(rec), k) == seq_get(s, k),
    decreases s.len(),
{
    if s.len() == 0 {
        assert(s.push(rec)[0] == rec);
        assert(s.push(rec).drop_first() =~= Seq::<FrequencyRecord>::empty());
        assert forall|k: Seq<char>|
            k != rec.channel_id@ implies #[trigger] seq_get(s.push(rec), k) == seq_get(s, k) by {
            assert(seq_get(s.push(rec), k) == seq_get(Seq::<FrequencyRecord>::empty(), k));
            assert(seq_get(Seq::<FrequencyRecord>::empty(), k) is None);
        }
    } else {
        lemma_seq_get_push(s.drop_first(), rec);
        assert(s.push(rec).drop_first() =~= s.drop_first().push(rec));
        assert(s.push(rec)[0] == s[0]);
        assert forall|k: Seq<char>|
            k != rec.channel_id@ implies #[trigger] seq_get(s.push(rec), k) == seq_get(s, k) by {
            if s[0].channel_id@ == k {
                assert(seq_get(s.push(rec), k) == Some(s[0].frequency as int));
                assert(seq_get(s, k) == Some(s[0].frequency as int));
            } else {
                assert(seq_get(s.push(rec), k) == seq_get(s.drop_first().push(rec), k));
                assert(seq_get(s.drop_first().push(rec), k) == seq_get(s.drop_first(), k));
                assert(seq_get(s, k) == seq_get(s.drop_first(), k));
            }
        }
    }
}

/// A first match at `i` with no earlier match is what `seq_get` yields.
proof fn lemma_seq_get_found(s: Seq<FrequencyRecord>, id: Seq<char>, i: int)
    requires
        0 <= i < s.len(),
        s[i].channel_id@ == id,
        forall|j: int| 0 <= j < i ==> (#[trigger] s[j]).channel_id@ != id,
    ensures
        seq_get(s, id) == Some(s[i].frequency as int),
    decreases i,
{
    if i > 0 {
        lemma_seq_get_found(s.drop_first(), id, i - 1);
    }
}

/// No match anywhere means `seq_get` yields nothing.
proof fn lemma_seq_get_absent(s: Seq<FrequencyRecord>, id: Seq<char>)
    requires
        forall|j: int| 0 <= j < s.len() ==> (#[trigger] s[j]).channel_id@ != id,
    ensures
        seq_get(s, id) is None,
    decreases s.len(),
{
    if s.len() > 0 {
        lemma_seq_get_absent(s.drop_first(), id);
    }
}

impl FrequencyTable {
    /// The frequency the table holds for a channel, if any.
    pub open spec fn spec_get(self, id: Seq<char>) -> Option<int> {
        seq_get(self.entries@, id)
    }

    /// An empty table.
    pub fn new() -> (r: FrequencyTable)
        ensures
            forall|k: Seq<char>| #[trigger] r.spec_get(k) is None,
    {
        let table = FrequencyTable { entries: Vec::new() };
        proof {
            assert forall|k: Seq<char>| #[trigger] table.spec_get(k) is None by {
                lemma_seq_get_absent(table.entries@, k);
            }
        }
        table
    }

    /// All stored entries.
    pub fn get_frequencies(&self) -> (r: &Vec<FrequencyRecord>)
        ensures
            r@ == self.entries@,
    {
        &self.entries
    }

    /// The frequency stored for `channel_id`, if any.
    pub fn get_frequency(&self, channel_id: &String) -> (r: Option<i64>)
        ensures
            opt_i64_view(r) == self.spec_get(channel_id@),
    {
        let mut i: usize = 0;
        while i < self.entries.len()
            invariant
                i <= self.entries.len(),
                forall|j: int|
                    0 <= j < i ==> (#[trigger] self.entries@[j]).channel_id@ != channel_id@,
            decreases self.entries.len() - i,
        {
            if self.entries[i].channel_id == *channel_id {
                proof {
                    lemma_seq_get_found(self.entries@, channel_id@, i as int);
                }
                return Some(self.entries[i].frequency);
            }
            i += 1;
        }
        proof {
            lemma_seq_get_absent(self.entries@, channel_id@);
        }
        None
    }

    /// Store `frequency` for `channel_id`, inserting or overwriting: an
    /// upsert. Every other channel's entry is untouched.
    pub fn update_frequency(&mut self, channel_id: String, frequency: i64)
        ensures
            final(self).spec_get(channel_id@) == Some(frequency as int),
            forall|k: Seq<char>|
                k != channel_id@ ==> #[trigger] final(self).spec_get(k) == old(self).spec_get(k),
    {
        let mut i: usize = 0;
        while i < self.entries.len()
            invariant
                i <= self.entries.len(),
                self.entries@ == old(self).entries@,
                forall|j: int|
                    0 <= j < i ==> (#[trigger] self.entries@[j]).channel_id@ != channel_id@,
            decreases self.entries.len() - i,
        {
            if self.entries[i].channel_id == *&channel_id {
                let rec = FrequencyRecord { channel_id, frequency };
                proof {
                    lemma_seq_get_update(self.entries@, i as int, rec, rec.channel_id@);
                }
                self.entries[i] = rec;
                return ;
            }
            i += 1;
        }
        let rec = FrequencyRecord { channel_id, frequency };
        proof {
            lemma_seq_get_push(self.entries@, rec);
        }
        self.entries.push(rec);
    }
}

/// Read a channel's frequency through the cache: a cached value answers at
/// once; otherwise the store's value — or the default where the store has
/// none — is returned and cached. Other channels' cache entries are
/// untouched.
pub fn get_frequency_with_cache(
    cache: &mut FrequencyTable,
    store: &FrequencyTable,
    channel_id: String,
) -> (freq: i64)
    ensures
        old(cache).spec_get(channel_id@) matches Some(v) ==> freq == v,
        old(cache).spec_get(channel_id@) matches Some(v) ==> *final(cache) == *old(cache),
        old(cache).spec_get(channel_id@) is None ==> freq as int == (match store.spec_get(
            channel_id@,
        ) {
            Some(v) => v,
            None => DEFAULT_FREQUENCY as int,
        }) && final(cache).spec_get(channel_id@) == Some(freq as int),
        forall|k: Seq<char>|
            k != channel_id@ ==> #[trigger] final(cache).spec_get(k) == old(cache).spec_get(k),
{
    match cache.get_frequency(&channel_id) {
        Some(freq) => freq,
        None => {
            let freq = match store.get_frequency(&channel_id) {
                Some(v) => v,
                None => DEFAULT_FREQUENCY,
            };
            cache.update_frequency(channel_id, freq);
            freq
        },
    }
}

/// Fold a store read into the cache after a miss: the fetched value — or the
/// default where the store had none — is cached and returned.
pub fn apply_fetched_frequency(
    cache: &mut FrequencyTable,
    channel_id: String,
    fetched: Option<i64>,
) -> (freq: i64)
    ensures
        freq as int == (match opt_i64_view(fetched) {
            Some(v) => v,
            None => DEFAULT_FREQUENCY as int,
        }),
        final(cache).spec_get(channel_id@) == Some(freq as int),
        forall|k: Seq<char>|
            k != channel_id@ ==> #[trigger] final(cache).spec_get(k) == old(cache).spec_get(k),
{
    let freq = match fetched {
        Some(v) => v,
        None => DEFAULT_FREQUENCY,
    };
    cache.update_frequency(channel_id, freq);
    freq
}

/// The error a frequency update outside 0–100 is rejected with.
#[derive(Debug, Clone, PartialEq, Eq, Structural)]
pub enum FreqError {
    OutOfRange,
}

/// Validate and store a channel's frequency: a value in 0–100 is written
/// through to the store and the cache — they cannot diverge afterwards — and
/// anything else is rejected, leaving both untouched.
pub fn set_frequency(
    cache: &mut FrequencyTable,
    store: &mut FrequencyTable,
    channel_id: String,
    value: i64,
) -> (r: Result<(), FreqError>)
    ensures
        r is Ok <==> 0 <= value <= 100,
        r is Ok ==> final(store).spec_get(channel_id@) == Some(value as int),
        r is Ok ==> final(cache).spec_get(channel_id@) == Some(value as int),
        r is Ok ==> forall|k: Seq<char>|
            k != channel_id@ ==> #[trigger] final(cache).spec_get(k) == old(cache).spec_get(k)
                && #[trigger] final(store).spec_get(k) == old(store).spec_get(k),
        r is Err ==> *final(cache) == *old(cache) && *final(store) == *old(store),
{
    if value < 0 || value > 100 {
        return Err(FreqError::OutOfRange);
    }
    store.update_frequency(channel_id.clone(), value);
    cache.update_frequency(channel_id, value);
    Ok(())
}

/// Whether a character is a decimal digit.
pub open spec fn is_digit(c: char) -> bool {
    48 <= c as u32 && c as u32 <= 57
}

/// The numeric value of a digit character.
pub open spec fn digit_val(c: char) -> int {
    (c as u32) as int - 48
}

/// Whether every character of `s` is a decimal digit.
pub open spec fn all_digits(s: Seq<char>) -> bool {
    forall|i: int| 0 <= i < s.len() ==> is_digit(#[trigger] s[i])
}

/// The value of a digit string read in base ten.
pub open spec fn digits_value(s: Seq<char>) -> int
    decreases s.len(),
{
    if s.len() == 0 {
        0
    } else {
        digits_value(s.drop_last()) * 10 + digit_val(s.last())
    }
}

/// The digits of an integer literal, the optional sign stripped.
pub open spec fn int_body(s: Seq<char>) -> Seq<char> {
    if s.len() > 0 && (s[0] == '+' || s[0] == '-') {
        s.drop_first()
    } else {
        s
    }
}

/// Whether a literal carries a minus sign.
pub open spec fn is_negative_literal(s: Seq<char>) -> bool {
    s.len() > 0 && s[0] == '-'
}

/// Whether `s` is a well-formed 64-bit signed integer literal: an optional
/// sign, then one or more digits, with a magnitude the type can hold.
pub open spec fn is_int_literal(s: Seq<char>) -> bool {
    let body = int_body(s);
    body.len() > 0 && all_digits(body) && (if is_negative_literal(s) {
        digits_value(body) <= 0x8000000000000000
    } else {
        digits_value(body) <= 0x7fffffffffffffff
    })
}

/// The signed value of a well-formed integer literal.
pub open spec fn int_value(s: Seq<char>) -> int {
    if is_negative_literal(s) {
        -digits_value(int_body(s))
    } else {
        digits_value(int_body(s))
    }
}

/// What parsing a string as a 64-bit signed integer yields.
#[derive(Debug, Clone, PartialEq, Eq)]
pub enum ParseOutcome {
    Value(i64),
    Invalid,
}

/// A digit string's value only grows as digits are appended.
proof fn lemma_digits_value_nonneg(s: Seq<char>)
    requires
        all_digits(s),
    ensures
        digits_value(s) >= 0,
    decreases s.len(),
{
    if s.len() > 0 {
        assert(all_digits(s.drop_last())) by {
            assert(forall|i: int|
                0 <= i < s.drop_last().len() ==> s.drop_last()[i] == #[trigger] s[i]);
        }
        lemma_digits_value_nonneg(s.drop_last());
        assert(is_digit(s.last()));
    }
}

/// Parse `s` as a 64-bit signed integer: exactly the well-formed literals
/// yield a value, and that value is the literal's.
pub fn parse_i64(s: &String) -> (r: ParseOutcome)
    ensures
        r is Value <==> is_int_literal(s@),
        r matches ParseOutcome::Value(v) ==> v as int == int_value(s@),
{
    let text: &str = s.as_str();
    let len: usize = text.unicode_len();
    if len == 0 {
        return ParseOutcome::Invalid;
    }
    let first: char = text.get_char(0);
    let neg: bool = first == '-';
    let has_sign: bool = first == '+' || first == '-';
    let start: usize = if has_sign {
        1
    } else {
        0
    };
    let ghost body: Seq<char> = int_body(s@);
    proof {
        assert(body =~= s@.skip(start as int));
    }
    if start == len {
        // A bare sign has no digits.
        return ParseOutcome::Invalid;
    }
    let mut mag: u64 = 0;
    let mut too_big: bool = false;
    let mut i: usize = start;
    proof {
        assert(body.take(0) =~= Seq::<char>::empty());
    }
    while i < len
        invariant
            start <= i <= len,
            len == s@.len(),
            text@ == s@,
            body == s@.skip(start as int),
            start == if has_sign {
                1int
            } else {
                0int
            },
            has_sign ==> s@.len() > 0 && (s@[0] == '+' || s@[0] == '-'),
            !has_sign ==> s@.len() > 0 && !(s@[0] == '+' || s@[0] == '-'),
            all_digits(body.take(i - start)),
            !too_big ==> mag as int == digits_value(body.take(i - start)),
            too_big ==> digits_value(body.take(i - start)) > 0x8000000000000000,
        decreases len - i,
    {
        let c: char = text.get_char(i);
        let cv: u32 = c as u32;
        if cv < 48 || cv > 57 {
            // A non-digit anywhere in the body disqualifies the literal.
            proof {
                assert(body[i - start] == s@[i as int]);
                assert(!is_digit(body[i - start]));
            }
            return ParseOutcome::Invalid;
        }
        let d: u64 = (cv - 48) as u64;
        let ghost prefix = body.take(i - start);
        let ghost prefix1 = body.take(i + 1 - start);
        proof {
            assert(prefix1.drop_last() =~= prefix);
            assert(prefix1.last() == body[i - start]);
            assert(body[i - start] == s@[i as int]);
            assert(digits_value(prefix1) == digits_value(prefix) * 10 + digit_val(s@[i as int]));
            assert(all_digits(prefix1)) by {
                assert(forall|j: int|
                    0 <= j < prefix.len() ==> prefix1[j] == #[trigger] prefix[j]);
            }
        }
        if too_big {
            proof {
                lemma_digits_value_nonneg(prefix);
                assert(digits_value(prefix) * 10 >= 0x8000000000000001 * 10) by (nonlinear_arith)
                    requires
                        digits_value(prefix) >= 0x8000000000000001,
                ;
            }
        } else if mag > 1844674407370955160 {
            proof {
                assert(digits_value(prefix) * 10 >= 18446744073709551610) by (nonlinear_arith)
                    requires
                        digits_value(prefix) >= 1844674407370955161,
                ;
            }
            too_big = true;
        } else {
            mag = mag * 10 + d;
        }
        i += 1;
    }
    proof {
        assert(body.take(len - start) =~= body);
        assert(body.len() > 0);
    }
    if too_big {
        return ParseOutcome::Invalid;
    }
    if neg {
        if mag > 0x8000000000000000 {
            return ParseOutcome::Invalid;
        }
        if mag == 0x8000000000000000 {
            return ParseOutcome::Value(i64::MIN);
        }
        return ParseOutcome::Value(-(mag as i64));
    }
    if mag > 0x7fffffffffffffff {
        return ParseOutcome::Invalid;
    }
    ParseOutcome::Value(mag as i64)
}

/// Whether a string equals a literal.
pub(crate) fn eq_lit(a: &String, lit: &str) -> (r: bool)
    ensures
        r == (a@ == lit@),
{
    let s: String = lit.to_owned();
    *a == s
}

/// How a frequency-command argument is classified: a value to set, a number
/// outside the accepted range, or something that is not a number at all.
#[derive(Debug, Clone, Copy, PartialEq, Eq, Structural)]
pub enum FreqArg {
    SetTo(i64),
    OutOfRange,
    NotNumeric,
}

/// The classification of a frequency-command argument: the word forms and the
/// two boundary numerals set 0 or 100, a bare integer strictly between 0 and
/// 100 sets that value, any other integer is out of range, and anything else
/// is not numeric.
pub open spec fn classify_arg_spec(arg: Seq<char>) -> FreqArg {
    if arg == "off"@ || arg == "0"@ || arg == "no"@ {
        FreqArg::SetTo(0)
    } else if arg == "full"@ || arg == "100"@ {
        FreqArg::SetTo(100)
    } else if is_int_literal(arg) && 0 < int_value(arg) < 100 {
        FreqArg::SetTo(int_value(arg) as i64)
    } else if is_int_literal(arg) {
        FreqArg::OutOfRange
    } else {
        FreqArg::NotNumeric
    }
}

/// Classify one frequency-command argument, exactly as `classify_arg_spec`
/// reads it.
pub fn classify_freq_arg(arg: &String) -> (r: FreqArg)
    ensures
        r == classify_arg_spec(arg@),
{
    if eq_lit(arg, "off") || eq_lit(arg, "0") || eq_lit(arg, "no") {
        return FreqArg::SetTo(0);
    }
    if eq_lit(arg, "full") || eq_lit(arg, "100") {
        return FreqArg::SetTo(100);
    }
    match parse_i64(arg) {
        ParseOutcome::Value(v) => {
            if 0 < v && v < 100 {
                FreqArg::SetTo(v)
            } else {
                FreqArg::OutOfRange
            }
        },
        ParseOutcome::Invalid => FreqArg::NotNumeric,
    }
}

/// The argument of a frequency command, when the message is one: the text a
/// mention, `/freq` (or `\freq`) and one argument, nothing else. The pattern
/// is fixed, so the result depends on the text alone.
pub uninterp spec fn freq_arg_of(text: Seq<char>) -> Option<Seq<char>>;

/// Relies on `regex::Regex::captures` with the frequency-command pattern
/// `^\s*@(?:\w|[_-])+\s+(?:\\|/)freq\s+(\S+)\s*$` (compiled by
/// `regex::Regex::new`): capture group 1 is the command's argument; the
/// pattern is a constant, so the outcome is a function of the text alone.
#[verifier::external_body]
fn freq_command_arg(text: &str) -> (r: Option<String>)
    ensures
        opt_str_view(r) == freq_arg_of(text@),
{
    match Regex::new(r"^\s*@(?:\w|[_-])+\s+(?:\\|/)freq\s+(\S+)\s*$").unwrap().captures(text) {
        Some(caps) => match caps.get(1) {
            Some(group) => Some(group.as_str().to_string()),
            None => None,
        },
        None => None,
    }
}

/// Read a message as a frequency command: `None` when it is no such command,
/// else the classification of its argument.
pub fn parse_freq_command(plain_text: &String) -> (r: Option<FreqArg>)
    ensures
        r is None <==> freq_arg_of(plain_text@) is None,
        freq_arg_of(plain_text@) matches Some(arg) ==> r == Some(classify_arg_spec(arg)),
{
    match freq_command_arg(plain_text.as_str()) {
        Some(arg) => Some(classify_freq_arg(&arg)),
        None => None,
    }
}

/// The reply a handled frequency command earns: the new value was stored, or
/// the argument was rejected as an out-of-range number or as not numeric.
#[derive(Debug, Clone, Copy, PartialEq, Eq, Structural)]
pub enum FreqReply {
    Updated(i64),
    InvalidNumber,
    InvalidArgument,
}

/// Handle a message that may be a frequency command against the store and the
/// cache: no command leaves everything untouched; a valid argument is written
/// through to both; an invalid one is rejected with a validation reply and
/// changes nothing.
pub fn handle_try_change_freq(
    cache: &mut FrequencyTable,
    store: &mut FrequencyTable,
    channel_id: String,
    plain_text: &String,
) -> (r: Option<FreqReply>)
    ensures
        r is None <==> freq_arg_of(plain_text@) is None,
        r is None ==> *final(cache) == *old(cache) && *final(store) == *old(store),
        freq_arg_of(plain_text@) matches Some(arg) ==> match classify_arg_spec(arg) {
            FreqArg::SetTo(v) => r == Some(FreqReply::Updated(v)) && final(store).spec_get(
                channel_id@,
            ) == Some(v as int) && final(cache).spec_get(channel_id@) == Some(v as int),
            FreqArg::OutOfRange => r == Some(FreqReply::InvalidNumber) && *final(cache) == *old(
                cache,
            ) && *final(store) == *old(store),
            FreqArg::NotNumeric => r == Some(FreqReply::InvalidArgument) && *final(cache) == *old(
                cache,
            ) && *final(store) == *old(store),
        },
        forall|k: Seq<char>|
            k != channel_id@ ==> #[trigger] final(cache).spec_get(k) == old(cache).spec_get(k)
                && #[trigger] final(store).spec_get(k) == old(store).spec_get(k),
{
    match parse_freq_command(plain_text) {
        None => None,
        Some(FreqArg::SetTo(v)) => {
            store.update_frequency(channel_id.clone(), v);
            cache.update_frequency(channel_id, v);
            Some(FreqReply::Updated(v))
        },
        Some(FreqArg::OutOfRange) => Some(FreqReply::InvalidNumber),
        Some(FreqArg::NotNumeric) => Some(FreqReply::InvalidArgument),
    }
}

/// Relies on `rand::random_range`: a uniform integer in the inclusive range;
/// the call panics on an empty range, so the bounds must be ordered.
#[verifier::external_body]
pub(crate) fn draw_in_range(lo: u64, hi: u64) -> (r: u64)
    requires
        lo <= hi,
    ensures
        lo <= r <= hi,
{
    rand::random_range(lo..=hi)
}

/// The reply gate's rule: reply exactly when the frequency is at least the
/// drawn value.
pub open spec fn gate_passes(frequency: int, draw: int) -> bool {
    frequency >= draw
}

/// Decide whether to reply in a channel with the given frequency: one uniform
/// draw from 1–100 against it, replying exactly when the frequency is at
/// least the draw. A frequency of 100 or more always replies; 0 or less never
/// does.
pub fn should_reply(frequency: i64) -> (r: bool)
    ensures
        exists|draw: int| 1 <= draw <= 100 && r == #[trigger] gate_passes(frequency as int, draw),
        frequency >= 100 ==> r,
        frequency <= 0 ==> !r,
{
    let draw: u64 = draw_in_range(1, 100);
    let r = frequency >= draw as i64;
    proof {
        assert(1 <= draw as int <= 100 && r == gate_passes(frequency as int, draw as int));
    }
    r
}

} // verus!
