//! Message records and the store they converge into.
//!
//! A record's identifier is globally unique; inserting a batch ignores every
//! record whose identifier is already stored, so re-ingesting a page is a
//! no-op. The store models the persistent storage collaborator exactly as the
//! synchronizer relies on it.

use vstd::prelude::*;

use serde_json::Value;

use crate::events::{json_as_array, json_as_str, json_as_u64, json_error_message, json_get,
    json_of, json_parse_of, jsons_of, obj_get, opt_arr_of, opt_str_of, opt_u64_of, parse_json,
    JsonV};
use crate::format::opt_str_view;
use crate::freq::opt_i64_view;

verus! {

/// One message as the remote source hands it over: plain fields, the creation
/// time still a textual timestamp.
#[derive(Debug, Clone, PartialEq, Eq)]
pub struct Message {
    pub id: String,
    pub channel_id: String,
    pub content: String,
    pub created_at: String,
}

/// The mathematical shadow of a remote message.
pub struct MessageV {
    pub id: Seq<char>,
    pub channel_id: Seq<char>,
    pub content: Seq<char>,
    pub created_at: Seq<char>,
}

impl View for Message {
    type V = MessageV;

    open spec fn view(&self) -> MessageV {
        MessageV {
            id: self.id@,
            channel_id: self.channel_id@,
            content: self.content@,
            created_at: self.created_at@,
        }
    }
}

/// The views of a sequence of remote messages.
pub open spec fn msgs_view(s: Seq<Message>) -> Seq<MessageV> {
    s.map_values(|m: Message| m@)
}

/// One stored message: the creation time resolved to a microsecond timestamp.
#[derive(Debug, Clone, PartialEq, Eq)]
pub struct MessageRecord {
    pub id: String,
    pub channel_id: String,
    pub content: String,
    pub created_at: i64,
}

/// Why a synchronization step failed.
#[derive(Debug, Clone, Copy, PartialEq, Eq, Structural)]
pub enum SyncError {
    MalformedTimestamp,
}

/// The microsecond timestamp an RFC 3339 string denotes, or nothing when it
/// is malformed. The result depends on the string alone.
pub uninterp spec fn rfc3339_micros_of(s: Seq<char>) -> Option<int>;

/// Relies on `chrono::DateTime::parse_from_rfc3339` and
/// `chrono::DateTime::timestamp_micros`: a well-formed RFC 3339 string parses
/// to a fixed-offset instant whose microsecond timestamp is returned; both are
/// functions of the string alone.
#[verifier::external_body]
fn parse_rfc3339_micros(s: &str) -> (r: Option<i64>)
    ensures
        opt_i64_view(r) == rfc3339_micros_of(s@),
{
    match chrono::DateTime::parse_from_rfc3339(s) {
        Ok(dt) => Some(dt.timestamp_micros()),
        Err(_) => None,
    }
}

impl MessageRecord {
    /// A field-for-field copy of the record.
    pub fn duplicate(&self) -> (r: MessageRecord)
        ensures
            r == *self,
    {
        MessageRecord {
            id: self.id.clone(),
            channel_id: self.channel_id.clone(),
            content: self.content.clone(),
            created_at: self.created_at,
        }
    }
}

impl Message {
    /// Resolve the message into a stored record. A malformed creation
    /// timestamp is the one way this fails; it aborts the enclosing
    /// synchronization step rather than the process.
    pub fn to_record(&self) -> (r: Result<MessageRecord, SyncError>)
        ensures
            r is Ok <==> rfc3339_micros_of(self.created_at@) is Some,
            r matches Ok(rec) ==> rec.id@ == self.id@ && rec.channel_id@ == self.channel_id@
                && rec.content@ == self.content@ && rfc3339_micros_of(self.created_at@) == Some(
                rec.created_at as int,
            ),
            r is Err ==> r == Err::<MessageRecord, SyncError>(SyncError::MalformedTimestamp),
    {
        match parse_rfc3339_micros(self.created_at.as_str()) {
            Some(t) => Ok(
                MessageRecord {
                    id: self.id.clone(),
                    channel_id: self.channel_id.clone(),
                    content: self.content.clone(),
                    created_at: t,
                },
            ),
            None => Err(SyncError::MalformedTimestamp),
        }
    }
}

/// One string field of a hit, when present and a string.
fn hit_field(v: &Value, key: &str) -> (r: Option<String>)
    ensures
        opt_str_view(r) == opt_str_of(obj_get(json_of(*v), key@)),
{
    match json_get(v, key) {
        Some(x) => json_as_str(x),
        None => None,
    }
}

/// The message one hit of a page response yields, or the error its first
/// missing or ill-typed string field earns.
pub open spec fn hit_of(j: JsonV) -> Result<MessageV, Seq<char>> {
    match opt_str_of(obj_get(j, "id"@)) {
        None => Err("hit id is not a string"@),
        Some(id) => match opt_str_of(obj_get(j, "channelId"@)) {
            None => Err("hit channelId is not a string"@),
            Some(channel_id) => match opt_str_of(obj_get(j, "content"@)) {
                None => Err("hit content is not a string"@),
                Some(content) => match opt_str_of(obj_get(j, "createdAt"@)) {
                    None => Err("hit createdAt is not a string"@),
                    Some(created_at) => Ok(MessageV { id, channel_id, content, created_at }),
                },
            },
        },
    }
}

/// The messages of a hit list in order, or the first hit's error.
pub open spec fn hits_of(items: Seq<JsonV>) -> Result<Seq<MessageV>, Seq<char>>
    decreases items.len(),
{
    if items.len() == 0 {
        Ok(Seq::empty())
    } else {
        match hits_of(items.drop_last()) {
            Err(e) => Err(e),
            Ok(rest) => match hit_of(items.last()) {
                Err(e) => Err(e),
                Ok(m) => Ok(rest.push(m)),
            },
        }
    }
}

/// Once a prefix of the hit list fails, the whole list fails the same way.
proof fn lemma_hits_of_err(items: Seq<JsonV>, k: int)
    requires
        0 <= k <= items.len(),
        hits_of(items.take(k)) is Err,
    ensures
        hits_of(items) == hits_of(items.take(k)),
    decreases items.len() - k,
{
    if k < items.len() {
        assert(items.take(k + 1).drop_last() =~= items.take(k));
        lemma_hits_of_err(items, k + 1);
    } else {
        assert(items.take(k) =~= items);
    }
}

/// The page a parsed response document yields: its total-hits count and its
/// messages, field for field and in order — or the first malformed field's
/// error.
pub open spec fn page_of(doc: JsonV) -> Result<(int, Seq<MessageV>), Seq<char>> {
    match opt_u64_of(obj_get(doc, "totalHits"@)) {
        None => Err("totalHits is not a number"@),
        Some(total) => if total > usize::MAX as int {
            Err("totalHits is out of range"@)
        } else {
            match opt_arr_of(obj_get(doc, "hits"@)) {
                None => Err("hits is not an array"@),
                Some(items) => match hits_of(items) {
                    Err(e) => Err(e),
                    Ok(msgs) => Ok((total, msgs)),
                },
            }
        },
    }
}

/// Interpret one page response of the remote message source: a string the
/// JSON parser rejects is an error, and any parsed document yields exactly
/// the page or error `page_of` assigns it — the total-hits count and the
/// messages field for field, in order, or the first malformed field's error,
/// aborting the enclosing synchronization run rather than the process.
pub fn parse_messages_response(res: &str) -> (r: Result<(usize, Vec<Message>), String>)
    ensures
        json_parse_of(res@) is None ==> r is Err,
        json_parse_of(res@) matches Some(doc) ==> (match page_of(doc) {
            Ok(page) => r matches Ok(p) && p.0 as int == page.0 && msgs_view(p.1@) == page.1,
            Err(m) => r matches Err(e) && e@ == m,
        }),
{
    let value: Value = match parse_json(res) {
        Ok(v) => v,
        Err(e) => {
            return Err(json_error_message(&e));
        },
    };
    let ghost doc: JsonV = json_of(value);
    let total_hits: u64 = match json_get(&value, "totalHits") {
        Some(t) => match json_as_u64(t) {
            Some(n) => n,
            None => {
                return Err("totalHits is not a number".to_owned());
            },
        },
        None => {
            return Err("totalHits is not a number".to_owned());
        },
    };
    proof {
        assert(opt_u64_of(obj_get(doc, "totalHits"@)) == Some(total_hits as int));
    }
    if total_hits > usize::MAX as u64 {
        return Err("totalHits is out of range".to_owned());
    }
    let hits: &Vec<Value> = match json_get(&value, "hits") {
        Some(h) => match json_as_array(h) {
            Some(items) => items,
            None => {
                return Err("hits is not an array".to_owned());
            },
        },
        None => {
            return Err("hits is not an array".to_owned());
        },
    };
    let ghost hits_v: Seq<JsonV> = jsons_of(hits@);
    proof {
        assert(opt_arr_of(obj_get(doc, "hits"@)) == Some(hits_v));
        assert(hits_v.take(0) =~= Seq::<JsonV>::empty());
    }
    let mut messages: Vec<Message> = Vec::new();
    let mut i: usize = 0;
    proof {
        assert(msgs_view(Seq::<Message>::empty()) =~= Seq::<MessageV>::empty());
        assert(hits_of(Seq::<JsonV>::empty()) == Ok::<Seq<MessageV>, Seq<char>>(
            Seq::<MessageV>::empty(),
        ));
    }
    while i < hits.len()
        invariant
            i <= hits@.len(),
            json_parse_of(res@) == Some(doc),
            hits_v == jsons_of(hits@),
            opt_u64_of(obj_get(doc, "totalHits"@)) == Some(total_hits as int),
            total_hits <= usize::MAX as u64,
            opt_arr_of(obj_get(doc, "hits"@)) == Some(hits_v),
            hits_of(hits_v.take(i as int)) == Ok::<Seq<MessageV>, Seq<char>>(
                msgs_view(messages@),
            ),
        decreases hits@.len() - i,
    {
        let ghost hv: JsonV = hits_v[i as int];
        proof {
            assert(hits_v.take(i + 1).drop_last() =~= hits_v.take(i as int));
            assert(hits_v.take(i + 1).last() == hv);
            assert(hv == json_of(hits@[i as int]));
        }
        let id: String = match hit_field(&hits[i], "id") {
            Some(s) => s,
            None => {
                proof {
                    assert(hit_of(hv) == Err::<MessageV, Seq<char>>("hit id is not a string"@));
                    assert(hits_of(hits_v.take(i + 1)) == Err::<Seq<MessageV>, Seq<char>>(
                        "hit id is not a string"@,
                    ));
                    lemma_hits_of_err(hits_v, i + 1);
                }
                return Err("hit id is not a string".to_owned());
            },
        };
        let channel_id: String = match hit_field(&hits[i], "channelId") {
            Some(s) => s,
            None => {
                proof {
                    assert(hit_of(hv) == Err::<MessageV, Seq<char>>(
                        "hit channelId is not a string"@,
                    ));
                    assert(hits_of(hits_v.take(i + 1)) == Err::<Seq<MessageV>, Seq<char>>(
                        "hit channelId is not a string"@,
                    ));
                    lemma_hits_of_err(hits_v, i + 1);
                }
                return Err("hit channelId is not a string".to_owned());
            },
        };
        let content: String = match hit_field(&hits[i], "content") {
            Some(s) => s,
            None => {
                proof {
                    assert(hit_of(hv) == Err::<MessageV, Seq<char>>(
                        "hit content is not a string"@,
                    ));
                    assert(hits_of(hits_v.take(i + 1)) == Err::<Seq<MessageV>, Seq<char>>(
                        "hit content is not a string"@,
                    ));
                    lemma_hits_of_err(hits_v, i + 1);
                }
                return Err("hit content is not a string".to_owned());
            },
        };
        let created_at: String = match hit_field(&hits[i], "createdAt") {
            Some(s) => s,
            None => {
                proof {
                    assert(hit_of(hv) == Err::<MessageV, Seq<char>>(
                        "hit createdAt is not a string"@,
                    ));
                    assert(hits_of(hits_v.take(i + 1)) == Err::<Seq<MessageV>, Seq<char>>(
                        "hit createdAt is not a string"@,
                    ));
                    lemma_hits_of_err(hits_v, i + 1);
                }
                return Err("hit createdAt is not a string".to_owned());
            },
        };
        let message = Message { id, channel_id, content, created_at };
        proof {
            assert(hit_of(hv) == Ok::<MessageV, Seq<char>>(message@));
            assert(hits_of(hits_v.take(i + 1)) == Ok::<Seq<MessageV>, Seq<char>>(
                msgs_view(messages@).push(message@),
            ));
            assert(msgs_view(messages@.push(message)) =~= msgs_view(messages@).push(message@));
        }
        messages.push(message);
        i += 1;
    }
    proof {
        assert(hits_v.take(hits_v.len() as int) =~= hits_v);
    }
    Ok((total_hits as usize, messages))
}

/// Whether some record in `s` carries the identifier `id`.
pub open spec fn has_id(s: Seq<MessageRecord>, id: Seq<char>) -> bool {
    exists|i: int| 0 <= i < s.len() && (#[trigger] s[i]).id@ == id
}

/// Insert a batch into stored records, ignoring every record whose
/// identifier is already present — including one earlier in the same batch.
pub open spec fn insert_ignore(s: Seq<MessageRecord>, batch: Seq<MessageRecord>) -> Seq<
    MessageRecord,
>
    decreases batch.len(),
{
    if batch.len() == 0 {
        s
    } else {
        let s1 = if has_id(s, batch[0].id@) {
            s
        } else {
            s.push(batch[0])
        };
        insert_ignore(s1, batch.drop_first())
    }
}

/// Whether all identifiers in `s` are distinct.
pub open spec fn distinct_ids(s: Seq<MessageRecord>) -> bool {
    forall|i: int, j: int|
        0 <= i < j < s.len() ==> (#[trigger] s[i]).id@ != (#[trigger] s[j]).id@
}

/// Inserting a batch in two halves is inserting it whole.
pub proof fn lemma_insert_ignore_append(
    s: Seq<MessageRecord>,
    b1: Seq<MessageRecord>,
    b2: Seq<MessageRecord>,
)
    ensures
        insert_ignore(s, b1 + b2) == insert_ignore(insert_ignore(s, b1), b2),
    decreases b1.len(),
{
    if b1.len() == 0 {
        assert(b1 + b2 =~= b2);
    } else {
        let s1 = if has_id(s, b1[0].id@) {
            s
        } else {
            s.push(b1[0])
        };
        assert((b1 + b2)[0] == b1[0]);
        assert((b1 + b2).drop_first() =~= b1.drop_first() + b2);
        lemma_insert_ignore_append(s1, b1.drop_first(), b2);
    }
}

/// An identifier present before an insert is present after it.
pub proof fn lemma_insert_ignore_keeps_id(
    s: Seq<MessageRecord>,
    batch: Seq<MessageRecord>,
    id: Seq<char>,
)
    requires
        has_id(s, id),
    ensures
        has_id(insert_ignore(s, batch), id),
    decreases batch.len(),
{
    if batch.len() > 0 {
        let s1 = if has_id(s, batch[0].id@) {
            s
        } else {
            s.push(batch[0])
        };
        assert(has_id(s1, id)) by {
            let w = choose|i: int| 0 <= i < s.len() && (#[trigger] s[i]).id@ == id;
            assert(s1[w].id@ == id);
        }
        lemma_insert_ignore_keeps_id(s1, batch.drop_first(), id);
    }
}

/// Every identifier of the batch is present after the insert.
pub proof fn lemma_insert_ignore_adds_ids(s: Seq<MessageRecord>, batch: Seq<MessageRecord>)
    ensures
        forall|i: int|
            0 <= i < batch.len() ==> has_id(insert_ignore(s, batch), (#[trigger] batch[i]).id@),
    decreases batch.len(),
{
    if batch.len() > 0 {
        let s1 = if has_id(s, batch[0].id@) {
            s
        } else {
            s.push(batch[0])
        };
        assert(has_id(s1, batch[0].id@)) by {
            if has_id(s, batch[0].id@) {
                let w = choose|i: int| 0 <= i < s.len() && (#[trigger] s[i]).id@ == batch[0].id@;
                assert(s1[w].id@ == batch[0].id@);
            } else {
                assert(s1[s.len() as int].id@ == batch[0].id@);
            }
        }
        lemma_insert_ignore_keeps_id(s1, batch.drop_first(), batch[0].id@);
        lemma_insert_ignore_adds_ids(s1, batch.drop_first());
        assert forall|i: int|
            0 <= i < batch.len() implies has_id(
            insert_ignore(s, batch),
            (#[trigger] batch[i]).id@,
        ) by {
            if i > 0 {
                assert(batch.drop_first()[i - 1] == batch[i]);
            }
        }
    }
}

/// Inserting a batch whose identifiers are all present already changes
/// nothing.
pub proof fn lemma_insert_ignore_noop(s: Seq<MessageRecord>, batch: Seq<MessageRecord>)
    requires
        forall|i: int| 0 <= i < batch.len() ==> has_id(s, (#[trigger] batch[i]).id@),
    ensures
        insert_ignore(s, batch) == s,
    decreases batch.len(),
{
    if batch.len() > 0 {
        assert(has_id(s, batch[0].id@));
        assert forall|i: int|
            0 <= i < batch.drop_first().len() implies has_id(
            s,
            (#[trigger] batch.drop_first()[i]).id@,
        ) by {
            assert(batch.drop_first()[i] == batch[i + 1]);
        }
        lemma_insert_ignore_noop(s, batch.drop_first());
    }
}

/// Idempotent ingestion: feeding the same batch twice leaves the stored
/// records exactly as one feeding left them.
pub proof fn lemma_insert_ignore_idempotent(s: Seq<MessageRecord>, batch: Seq<MessageRecord>)
    ensures
        insert_ignore(insert_ignore(s, batch), batch) == insert_ignore(s, batch),
{
    lemma_insert_ignore_adds_ids(s, batch);
    lemma_insert_ignore_noop(insert_ignore(s, batch), batch);
}

/// The store's uniqueness invariant is preserved: inserting any batch into
/// records with mutually distinct identifiers leaves the identifiers
/// mutually distinct.
pub proof fn lemma_insert_ignore_distinct(s: Seq<MessageRecord>, batch: Seq<MessageRecord>)
    requires
        distinct_ids(s),
    ensures
        distinct_ids(insert_ignore(s, batch)),
    decreases batch.len(),
{
    if batch.len() > 0 {
        let s1 = if has_id(s, batch[0].id@) {
            s
        } else {
            s.push(batch[0])
        };
        assert(distinct_ids(s1)) by {
            if !has_id(s, batch[0].id@) {
                assert forall|i: int, j: int|
                    0 <= i < j < s1.len() implies (#[trigger] s1[i]).id@ != (
                #[trigger] s1[j]).id@ by {
                    if j == s.len() {
                        assert(s1[j] == batch[0]);
                        assert(s1[i] == s[i]);
                        if s[i].id@ == batch[0].id@ {
                            assert(has_id(s, batch[0].id@));
                        }
                    }
                }
            }
        }
        lemma_insert_ignore_distinct(s1, batch.drop_first());
    }
}

/// Inserting a batch of fresh, mutually distinct identifiers appends it
/// whole, in order.
pub proof fn lemma_insert_ignore_all_new(s: Seq<MessageRecord>, batch: Seq<MessageRecord>)
    requires
        forall|i: int| 0 <= i < batch.len() ==> !has_id(s, (#[trigger] batch[i]).id@),
        distinct_ids(batch),
    ensures
        insert_ignore(s, batch) == s + batch,
    decreases batch.len(),
{
    if batch.len() == 0 {
        assert(s + batch =~= s);
    } else {
        assert(!has_id(s, batch[0].id@));
        let s1 = s.push(batch[0]);
        assert forall|i: int|
            0 <= i < batch.drop_first().len() implies !has_id(
            s1,
            (#[trigger] batch.drop_first()[i]).id@,
        ) by {
            assert(batch.drop_first()[i] == batch[i + 1]);
            assert(!has_id(s, batch[i + 1].id@));
            assert(batch[0].id@ != batch[i + 1].id@);
            if has_id(s1, batch[i + 1].id@) {
                let w = choose|j: int|
                    0 <= j < s1.len() && (#[trigger] s1[j]).id@ == batch[i + 1].id@;
                if w < s.len() {
                    assert(s[w].id@ == batch[i + 1].id@);
                }
            }
        }
        assert(distinct_ids(batch.drop_first())) by {
            assert(forall|i: int, j: int|
                0 <= i < j < batch.drop_first().len() ==> (#[trigger] batch.drop_first()[i]).id@
                    != (#[trigger] batch.drop_first()[j]).id@) by {
                assert(forall|i: int|
                    0 <= i < batch.drop_first().len() ==> #[trigger] batch.drop_first()[i]
                        == batch[i + 1]);
            }
        }
        lemma_insert_ignore_all_new(s1, batch.drop_first());
        assert(s1 + batch.drop_first() =~= s + batch);
    }
}

/// The stored set of messages: records keyed by their globally unique
/// identifier.
#[derive(Debug, Clone, PartialEq, Eq)]
pub struct MessageStore {
    pub records: Vec<MessageRecord>,
}

impl MessageStore {
    /// An empty store.
    pub fn new() -> (r: MessageStore)
        ensures
            r.records@.len() == 0,
    {
        MessageStore { records: Vec::new() }
    }

    /// Whether a record with this identifier is stored.
    pub fn contains_id(&self, id: &String) -> (r: bool)
        ensures
            r == has_id(self.records@, id@),
    {
        let mut i: usize = 0;
        while i < self.records.len()
            invariant
                i <= self.records.len(),
                forall|j: int| 0 <= j < i ==> (#[trigger] self.records@[j]).id@ != id@,
            decreases self.records.len() - i,
        {
            if self.records[i].id == *id {
                assert(has_id(self.records@, id@)) by {
                    assert(self.records@[i as int].id@ == id@);
                }
                return true;
            }
            i += 1;
        }
        false
    }

    /// Insert a batch, ignoring every record whose identifier is already
    /// stored: the idempotent upsert the synchronizer relies on.
    pub fn insert_messages(&mut self, messages: &Vec<MessageRecord>)
        ensures
            final(self).records@ == insert_ignore(old(self).records@, messages@),
    {
        let mut i: usize = 0;
        while i < messages.len()
            invariant
                i <= messages.len(),
                self.records@ == insert_ignore(old(self).records@, messages@.take(i as int)),
            decreases messages.len() - i,
        {
            let ghost m = messages@[i as int];
            let ghost before = self.records@;
            proof {
                assert(messages@.take(i + 1) =~= messages@.take(i as int) + seq![m]);
                lemma_insert_ignore_append(
                    old(self).records@,
                    messages@.take(i as int),
                    seq![m],
                );
                assert(seq![m].drop_first() =~= Seq::<MessageRecord>::empty());
                assert(seq![m][0] == m);
                let s1 = if has_id(before, m.id@) {
                    before
                } else {
                    before.push(m)
                };
                assert(insert_ignore(before, seq![m]) == insert_ignore(
                    s1,
                    seq![m].drop_first(),
                ));
                assert(insert_ignore(s1, Seq::<MessageRecord>::empty()) == s1);
                assert(insert_ignore(before, seq![m]) == s1);
            }
            if !self.contains_id(&messages[i].id) {
                let rec = messages[i].duplicate();
                self.records.push(rec);
            }
            i += 1;
        }
        proof {
            assert(messages@.take(messages@.len() as int) =~= messages@);
        }
    }

    /// All stored records.
    pub fn get_messages(&self) -> (r: &Vec<MessageRecord>)
        ensures
            r@ == self.records@,
    {
        &self.records
    }

    /// The most recently created stored record, or nothing when the store is
    /// empty.
    pub fn get_latest_message(&self) -> (r: Option<MessageRecord>)
        ensures
            r is None <==> self.records@.len() == 0,
            r matches Some(m) ==> has_id(self.records@, m.id@) && exists|i: int|
                0 <= i < self.records@.len() && #[trigger] self.records@[i] == m,
            r matches Some(m) ==> forall|j: int|
                0 <= j < self.records@.len() ==> (#[trigger] self.records@[j]).created_at
                    <= m.created_at,
    {
        if self.records.len() == 0 {
            return None;
        }
        let mut best: usize = 0;
        let mut i: usize = 1;
        while i < self.records.len()
            invariant
                best < i <= self.records.len(),
                forall|j: int|
                    0 <= j < i ==> (#[trigger] self.records@[j]).created_at
                        <= self.records@[best as int].created_at,
            decreases self.records.len() - i,
        {
            if self.records[i].created_at > self.records[best].created_at {
                best = i;
            }
            i += 1;
        }
        let m = self.records[best].duplicate();
        proof {
            assert(self.records@[best as int].id@ == m.id@);
        }
        Some(m)
    }
}

} // verus!
