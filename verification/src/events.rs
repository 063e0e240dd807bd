//! Inbound events from the chat platform, parsed from their JSON form.
//!
//! A `serde_json::Value` is opaque to the verifier, so its contents get a
//! name, `json_of`, and a second name, `json_parse_of`, stands for what
//! parsing a string yields; every accessor wrapper speaks over the first, the
//! parser over both. On those names the whole pipeline is exact: `event_of`
//! says which event or error any parsed document yields, and `from_str`
//! returns precisely that.

use vstd::prelude::*;

use serde_json::Value;

use crate::format::opt_str_view;
use crate::freq::eq_lit;

verus! {

/// The identity this agent posts under; an embedded mention of it marks a
/// message as directed at the agent.
pub const BOT_USER_ID: &'static str = "d8ff0b6c-431f-4476-9708-cb9d2e49b0a5";

/// The mathematical shadow of a JSON document. Numbers keep only what the
/// library reads of them: whether the value is an unsigned integer, and
/// which; every other number form is opaque.
pub enum JsonV {
    Null,
    Bool(bool),
    NumUnsigned(int),
    NumOther,
    Str(Seq<char>),
    Arr(Seq<JsonV>),
    Obj(Map<Seq<char>, JsonV>),
}

/// `serde_json::Value` values pass through the library opaquely; only the
/// trusted wrappers below look inside, each exactly described over `json_of`.
#[verifier::external_type_specification]
#[verifier::external_body]
pub struct ExValue(Value);

/// `serde_json::Error` passes through opaquely; only its message is read.
#[verifier::external_type_specification]
#[verifier::external_body]
pub struct ExJsonError(serde_json::Error);

/// The contents of a JSON value.
pub uninterp spec fn json_of(v: Value) -> JsonV;

/// What parsing a string as JSON yields: the document's contents, or nothing
/// when the string is rejected. Parsing is a function of the string alone.
pub uninterp spec fn json_parse_of(s: Seq<char>) -> Option<JsonV>;

/// The contents of each value of a sequence.
pub open spec fn jsons_of(s: Seq<Value>) -> Seq<JsonV> {
    s.map_values(|x: Value| json_of(x))
}

/// The contents of an optional value reference.
pub open spec fn opt_json_of(r: Option<&Value>) -> Option<JsonV> {
    match r {
        Some(v) => Some(json_of(*v)),
        None => None,
    }
}

/// The named member of an object's contents, if the contents are an object
/// holding one.
pub open spec fn obj_get(j: JsonV, key: Seq<char>) -> Option<JsonV> {
    match j {
        JsonV::Obj(m) => if m.dom().contains(key) {
            Some(m[key])
        } else {
            None
        },
        _ => None,
    }
}

/// The named member one level further down an optional contents value.
pub open spec fn opt_get(j: Option<JsonV>, key: Seq<char>) -> Option<JsonV> {
    match j {
        Some(d) => obj_get(d, key),
        None => None,
    }
}

/// The text of contents that are a string.
pub open spec fn str_of(j: JsonV) -> Option<Seq<char>> {
    match j {
        JsonV::Str(s) => Some(s),
        _ => None,
    }
}

/// The text of optional contents that are a string.
pub open spec fn opt_str_of(j: Option<JsonV>) -> Option<Seq<char>> {
    match j {
        Some(d) => str_of(d),
        None => None,
    }
}

/// The value of contents that are a boolean.
pub open spec fn bool_of(j: JsonV) -> Option<bool> {
    match j {
        JsonV::Bool(b) => Some(b),
        _ => None,
    }
}

/// The value of contents that are an unsigned integer.
pub open spec fn u64_of(j: JsonV) -> Option<int> {
    match j {
        JsonV::NumUnsigned(n) => Some(n),
        _ => None,
    }
}

/// The elements of contents that are an array.
pub open spec fn arr_of(j: JsonV) -> Option<Seq<JsonV>> {
    match j {
        JsonV::Arr(items) => Some(items),
        _ => None,
    }
}

/// The value of optional contents that are an unsigned integer.
pub open spec fn opt_u64_of(j: Option<JsonV>) -> Option<int> {
    match j {
        Some(d) => u64_of(d),
        None => None,
    }
}

/// The elements of optional contents that are an array.
pub open spec fn opt_arr_of(j: Option<JsonV>) -> Option<Seq<JsonV>> {
    match j {
        Some(d) => arr_of(d),
        None => None,
    }
}

/// The view of an optional unsigned integer.
pub open spec fn opt_u64_view(r: Option<u64>) -> Option<int> {
    match r {
        Some(n) => Some(n as int),
        None => None,
    }
}

/// Relies on `serde_json::from_str`: parse a JSON document, yielding exactly
/// the named parse of the input — its contents on success, a failure exactly
/// when the named parse rejects the string.
#[verifier::external_body]
pub(crate) fn parse_json(s: &str) -> (r: Result<Value, serde_json::Error>)
    ensures
        r matches Ok(v) ==> json_parse_of(s@) == Some(json_of(v)),
        r is Err ==> json_parse_of(s@) is None,
{
    serde_json::from_str(s)
}

/// Relies on `serde_json::Error`'s `Display` implementation via
/// `ToString::to_string`: the error's message.
#[verifier::external_body]
pub(crate) fn json_error_message(e: &serde_json::Error) -> (r: String) {
    e.to_string()
}

/// Relies on `serde_json::Value::get`: the named member of an object, absent
/// exactly when the value is no object or holds no such member.
#[verifier::external_body]
pub(crate) fn json_get<'a>(v: &'a Value, key: &str) -> (r: Option<&'a Value>)
    ensures
        opt_json_of(r) == obj_get(json_of(*v), key@),
{
    v.get(key)
}

/// Relies on `serde_json::Value::as_str`: the value's text exactly when it is
/// a string.
#[verifier::external_body]
pub(crate) fn json_as_str(v: &Value) -> (r: Option<String>)
    ensures
        opt_str_view(r) == str_of(json_of(*v)),
{
    match v.as_str() {
        Some(s) => Some(s.to_string()),
        None => None,
    }
}

/// Relies on `serde_json::Value::as_bool`: the value exactly when it is a
/// boolean.
#[verifier::external_body]
pub(crate) fn json_as_bool(v: &Value) -> (r: Option<bool>)
    ensures
        r == bool_of(json_of(*v)),
{
    v.as_bool()
}

/// Relies on `serde_json::Value::as_array`: the value's elements exactly when
/// it is an array.
#[verifier::external_body]
pub(crate) fn json_as_array<'a>(v: &'a Value) -> (r: Option<&'a Vec<Value>>)
    ensures
        r matches Some(items) ==> arr_of(json_of(*v)) == Some(jsons_of(items@)),
        r is None ==> arr_of(json_of(*v)) is None,
{
    v.as_array()
}

/// Relies on `serde_json::Value::as_u64`: the value exactly when it is a
/// number the parser stored as an unsigned integer.
#[verifier::external_body]
pub(crate) fn json_as_u64(v: &Value) -> (r: Option<u64>)
    ensures
        opt_u64_view(r) == u64_of(json_of(*v)),
{
    v.as_u64()
}

/// The named member two levels down, if present.
pub(crate) fn json_get2<'a>(v: &'a Value, k1: &str, k2: &str) -> (r: Option<&'a Value>)
    ensures
        opt_json_of(r) == opt_get(obj_get(json_of(*v), k1@), k2@),
{
    match json_get(v, k1) {
        Some(x) => json_get(x, k2),
        None => None,
    }
}

/// One typed inbound event, reduced to the fields the core needs.
#[derive(Debug, Clone, PartialEq, Eq)]
pub enum Events {
    Ping,
    Join { channel_id: String },
    Left { channel_id: String },
    MessageCreated { channel_id: String },
    DirectMessageCreated { channel_id: String },
    MentionMessageCreated { channel_id: String, content: String },
    FromBot,
}

/// The mathematical shadow of an event.
pub enum EventsV {
    Ping,
    Join { channel_id: Seq<char> },
    Left { channel_id: Seq<char> },
    MessageCreated { channel_id: Seq<char> },
    DirectMessageCreated { channel_id: Seq<char> },
    MentionMessageCreated { channel_id: Seq<char>, content: Seq<char> },
    FromBot,
}

impl View for Events {
    type V = EventsV;

    open spec fn view(&self) -> EventsV {
        match self {
            Events::Ping => EventsV::Ping,
            Events::Join { channel_id } => EventsV::Join { channel_id: channel_id@ },
            Events::Left { channel_id } => EventsV::Left { channel_id: channel_id@ },
            Events::MessageCreated { channel_id } => EventsV::MessageCreated {
                channel_id: channel_id@,
            },
            Events::DirectMessageCreated { channel_id } => EventsV::DirectMessageCreated {
                channel_id: channel_id@,
            },
            Events::MentionMessageCreated { channel_id, content } => {
                EventsV::MentionMessageCreated { channel_id: channel_id@, content: content@ }
            },
            Events::FromBot => EventsV::FromBot,
        }
    }
}

/// The view of an event-or-error result.
pub open spec fn event_result_view(r: Result<Events, String>) -> Result<EventsV, Seq<char>> {
    match r {
        Ok(e) => Ok(e@),
        Err(m) => Err(m@),
    }
}

/// The classification of an event's extracted fields: a bot's own message is
/// set aside first; then the event type selects the variant, each missing
/// field rejected with its error.
pub open spec fn classify_spec(
    event_type: Seq<char>,
    from_bot: bool,
    channel_id: Option<Seq<char>>,
    plain_text: Option<Seq<char>>,
    mentions_bot: bool,
) -> Result<EventsV, Seq<char>> {
    if from_bot {
        Ok(EventsV::FromBot)
    } else if event_type == "PING"@ {
        Ok(EventsV::Ping)
    } else if event_type == "MESSAGE_CREATED"@ {
        match channel_id {
            None => Err("body.message.channelId is not string"@),
            Some(c) => if mentions_bot {
                match plain_text {
                    None => Err("body.message.plainText is not string"@),
                    Some(t) => Ok(EventsV::MentionMessageCreated { channel_id: c, content: t }),
                }
            } else {
                Ok(EventsV::MessageCreated { channel_id: c })
            },
        }
    } else if event_type == "DIRECT_MESSAGE_CREATED"@ {
        match channel_id {
            None => Err("body.message.channelId is not string"@),
            Some(c) => Ok(EventsV::DirectMessageCreated { channel_id: c }),
        }
    } else if event_type == "JOINED"@ {
        match channel_id {
            None => Err("body.channel.id is not string"@),
            Some(c) => Ok(EventsV::Join { channel_id: c }),
        }
    } else if event_type == "LEFT"@ {
        match channel_id {
            None => Err("body.channel.id is not string"@),
            Some(c) => Ok(EventsV::Left { channel_id: c }),
        }
    } else {
        Err("Unknown event type: "@ + event_type)
    }
}

/// Classify an event from its extracted fields, exactly as `classify_spec`
/// reads them.
pub fn classify_event(
    event_type: String,
    from_bot: bool,
    channel_id: Option<String>,
    plain_text: Option<String>,
    mentions_bot: bool,
) -> (r: Result<Events, String>)
    ensures
        event_result_view(r) == classify_spec(
            event_type@,
            from_bot,
            opt_str_view(channel_id),
            opt_str_view(plain_text),
            mentions_bot,
        ),
{
    proof {
        reveal_strlit("PING");
        reveal_strlit("MESSAGE_CREATED");
        reveal_strlit("DIRECT_MESSAGE_CREATED");
        reveal_strlit("JOINED");
        reveal_strlit("LEFT");
        assert("PING"@.len() == 4);
        assert("MESSAGE_CREATED"@.len() == 15);
        assert("DIRECT_MESSAGE_CREATED"@.len() == 22);
        assert("JOINED"@.len() == 6);
        assert("LEFT"@.len() == 4);
        assert("PING"@[0] == 'P');
        assert("LEFT"@[0] == 'L');
    }
    if from_bot {
        return Ok(Events::FromBot);
    }
    if eq_lit(&event_type, "PING") {
        return Ok(Events::Ping);
    }
    if eq_lit(&event_type, "MESSAGE_CREATED") {
        let c = match channel_id {
            Some(c) => c,
            None => {
                return Err("body.message.channelId is not string".to_owned());
            },
        };
        if mentions_bot {
            let t = match plain_text {
                Some(t) => t,
                None => {
                    return Err("body.message.plainText is not string".to_owned());
                },
            };
            return Ok(Events::MentionMessageCreated { channel_id: c, content: t });
        }
        return Ok(Events::MessageCreated { channel_id: c });
    }
    if eq_lit(&event_type, "DIRECT_MESSAGE_CREATED") {
        let c = match channel_id {
            Some(c) => c,
            None => {
                return Err("body.message.channelId is not string".to_owned());
            },
        };
        return Ok(Events::DirectMessageCreated { channel_id: c });
    }
    if eq_lit(&event_type, "JOINED") {
        let c = match channel_id {
            Some(c) => c,
            None => {
                return Err("body.channel.id is not string".to_owned());
            },
        };
        return Ok(Events::Join { channel_id: c });
    }
    if eq_lit(&event_type, "LEFT") {
        let c = match channel_id {
            Some(c) => c,
            None => {
                return Err("body.channel.id is not string".to_owned());
            },
        };
        return Ok(Events::Left { channel_id: c });
    }
    let msg: String = "Unknown event type: ".to_owned();
    Err(msg.concat(event_type.as_str()))
}

/// Whether the document marks its sender as a bot: `body.user.bot`, false
/// where absent or ill-typed.
pub open spec fn from_bot_of(doc: JsonV) -> bool {
    match opt_get(opt_get(obj_get(doc, "body"@), "user"@), "bot"@) {
        Some(b) => match bool_of(b) {
            Some(flag) => flag,
            None => false,
        },
        None => false,
    }
}

/// The document's event type, when `type` is a string.
pub open spec fn type_of(doc: JsonV) -> Option<Seq<char>> {
    opt_str_of(obj_get(doc, "type"@))
}

/// The message member of the document's body.
pub open spec fn message_of(doc: JsonV) -> Option<JsonV> {
    opt_get(obj_get(doc, "body"@), "message"@)
}

/// The embedding list of a message, when it is an array.
pub open spec fn embedded_array_of(msg: Option<JsonV>) -> Option<Seq<JsonV>> {
    match opt_get(msg, "embedded"@) {
        Some(j) => arr_of(j),
        None => None,
    }
}

/// Whether one embedding entry mentions the agent.
pub open spec fn mention_entry(e: JsonV) -> bool {
    opt_str_of(obj_get(e, "id"@)) == Some(BOT_USER_ID@)
}

/// Whether any entry of the list mentions the agent.
pub open spec fn any_mentions(items: Seq<JsonV>) -> bool
    decreases items.len(),
{
    if items.len() == 0 {
        false
    } else {
        any_mentions(items.drop_last()) || mention_entry(items.last())
    }
}

/// Whether the message's embedding list mentions the agent; false where the
/// list is absent or no array.
pub open spec fn mentions_bot_of(msg: Option<JsonV>) -> bool {
    match embedded_array_of(msg) {
        Some(items) => any_mentions(items),
        None => false,
    }
}

/// The event or error a parsed document yields: a missing type rejects it; a
/// bot's own message is set aside; message events read their channel, text
/// and embeddings — an unreadable embedding list rejects a channel message —
/// and membership events read their channel; the fields then classify as
/// `classify_spec`.
pub open spec fn event_of(doc: JsonV) -> Result<EventsV, Seq<char>> {
    match type_of(doc) {
        None => Err("type is not string"@),
        Some(t) => {
            if from_bot_of(doc) {
                Ok(EventsV::FromBot)
            } else if t == "MESSAGE_CREATED"@ || t == "DIRECT_MESSAGE_CREATED"@ {
                let msg = message_of(doc);
                let channel = opt_str_of(opt_get(msg, "channelId"@));
                let plain = opt_str_of(opt_get(msg, "plainText"@));
                if t == "MESSAGE_CREATED"@ && channel is Some && embedded_array_of(msg) is None {
                    Err("body.message.embedded is not array"@)
                } else {
                    classify_spec(t, false, channel, plain, mentions_bot_of(msg))
                }
            } else if t == "JOINED"@ || t == "LEFT"@ {
                classify_spec(
                    t,
                    false,
                    opt_str_of(opt_get(opt_get(obj_get(doc, "body"@), "channel"@), "id"@)),
                    None,
                    false,
                )
            } else {
                classify_spec(t, false, None, None, false)
            }
        },
    }
}

impl Events {
    /// Parse one raw platform event: a string the JSON parser rejects is an
    /// error, and any parsed document yields exactly the event or error
    /// `event_of` assigns it. Malformed documents are rejected rather than
    /// aborting the process.
    pub fn from_str(event_str: &str) -> (r: Result<Events, String>)
        ensures
            json_parse_of(event_str@) is None ==> r is Err,
            json_parse_of(event_str@) matches Some(doc) ==> event_result_view(r) == event_of(doc),
    {
        let value: Value = match parse_json(event_str) {
            Ok(v) => v,
            Err(e) => {
                return Err(json_error_message(&e));
            },
        };
        let ghost doc: JsonV = json_of(value);
        let from_bot: bool = match json_get2(&value, "body", "user") {
            Some(user) => match json_get(user, "bot") {
                Some(b) => match json_as_bool(b) {
                    Some(flag) => flag,
                    None => false,
                },
                None => false,
            },
            None => false,
        };
        proof {
            assert(from_bot == from_bot_of(doc));
        }
        let event_type: String = match json_get(&value, "type") {
            Some(t) => match json_as_str(t) {
                Some(s) => s,
                None => {
                    proof {
                        assert(type_of(doc) is None);
                    }
                    return Err("type is not string".to_owned());
                },
            },
            None => {
                proof {
                    assert(type_of(doc) is None);
                }
                return Err("type is not string".to_owned());
            },
        };
        proof {
            assert(type_of(doc) == Some(event_type@));
        }
        if from_bot {
            return Ok(Events::FromBot);
        }
        let mut channel_id: Option<String> = None;
        let mut plain_text: Option<String> = None;
        let mut mentions_bot: bool = false;
        if eq_lit(&event_type, "MESSAGE_CREATED") || eq_lit(&event_type, "DIRECT_MESSAGE_CREATED")
        {
            let ghost msg: Option<JsonV> = message_of(doc);
            match json_get2(&value, "body", "message") {
                Some(message) => {
                    proof {
                        assert(msg == Some(json_of(*message)));
                    }
                    match json_get(message, "channelId") {
                        Some(c) => {
                            channel_id = json_as_str(c);
                        },
                        None => {},
                    }
                    match json_get(message, "plainText") {
                        Some(t) => {
                            plain_text = json_as_str(t);
                        },
                        None => {},
                    }
                    proof {
                        assert(opt_str_view(channel_id) == opt_str_of(
                            opt_get(msg, "channelId"@),
                        ));
                        assert(opt_str_view(plain_text) == opt_str_of(
                            opt_get(msg, "plainText"@),
                        ));
                    }
                    // A missing channel takes precedence over a missing
                    // embedding list, so the mention scan only runs once the
                    // channel is known.
                    if channel_id.is_some() {
                        match json_get(message, "embedded") {
                            Some(embedded) => {
                                match json_as_array(embedded) {
                                    Some(items) => {
                                        let ghost items_v: Seq<JsonV> = jsons_of(items@);
                                        proof {
                                            assert(embedded_array_of(msg) == Some(items_v));
                                            assert(items_v.take(0) =~= Seq::<JsonV>::empty());
                                        }
                                        let mut i: usize = 0;
                                        while i < items.len()
                                            invariant
                                                i <= items@.len(),
                                                items_v == jsons_of(items@),
                                                mentions_bot == any_mentions(
                                                    items_v.take(i as int),
                                                ),
                                            decreases items@.len() - i,
                                        {
                                            proof {
                                                assert(items_v.take(i + 1).drop_last()
                                                    =~= items_v.take(i as int));
                                                assert(items_v.take(i + 1).last() == items_v[
                                                    i as int]);
                                                assert(items_v[i as int] == json_of(
                                                    items@[i as int],
                                                ));
                                            }
                                            let mut here: bool = false;
                                            match json_get(&items[i], "id") {
                                                Some(id_value) => match json_as_str(id_value) {
                                                    Some(id) => {
                                                        if eq_lit(&id, BOT_USER_ID) {
                                                            here = true;
                                                        }
                                                    },
                                                    None => {},
                                                },
                                                None => {},
                                            }
                                            proof {
                                                assert(here == mention_entry(items_v[i as int]));
                                            }
                                            if here {
                                                mentions_bot = true;
                                            }
                                            i += 1;
                                        }
                                        proof {
                                            assert(items_v.take(items_v.len() as int) =~= items_v);
                                        }
                                    },
                                    None => {
                                        if eq_lit(&event_type, "MESSAGE_CREATED") {
                                            proof {
                                                assert(embedded_array_of(msg) is None);
                                            }
                                            return Err(
                                                "body.message.embedded is not array".to_owned(),
                                            );
                                        }
                                    },
                                }
                            },
                            None => {
                                if eq_lit(&event_type, "MESSAGE_CREATED") {
                                    proof {
                                        assert(embedded_array_of(msg) is None);
                                    }
                                    return Err("body.message.embedded is not array".to_owned());
                                }
                            },
                        }
                    }
                },
                None => {
                    proof {
                        assert(msg is None);
                    }
                },
            }
            proof {
                assert(opt_str_view(channel_id) == opt_str_of(
                    opt_get(msg, "channelId"@),
                ));
                assert(opt_str_view(plain_text) == opt_str_of(
                    opt_get(msg, "plainText"@),
                ));
                assert(opt_str_view(channel_id) is Some
                    ==> mentions_bot == mentions_bot_of(msg));
                assert(opt_str_view(channel_id) is None ==> !mentions_bot);
            }
        } else if eq_lit(&event_type, "JOINED") || eq_lit(&event_type, "LEFT") {
            match json_get2(&value, "body", "channel") {
                Some(channel) => {
                    match json_get(channel, "id") {
                        Some(c) => {
                            channel_id = json_as_str(c);
                        },
                        None => {},
                    }
                },
                None => {},
            }
            proof {
                assert(opt_str_view(channel_id) == opt_str_of(
                    opt_get(opt_get(obj_get(doc, "body"@), "channel"@), "id"@),
                ));
            }
        }
        classify_event(event_type, from_bot, channel_id, plain_text, mentions_bot)
    }
}

} // verus!
