//! The wire codec: protocol frames as 5-element JSON arrays.
//!
//! A client frame is `[join_ref, event_ref, topic, event, payload]` with
//! `join_ref` a string or null and `payload` any JSON value; recognized
//! payload shapes are `{"token": ...}` and `{"message": ...}`.  A server
//! frame has the same tuple shape; a reply payload is
//! `{"status": ..., "response": ...}` with the response tagged by `"type"`.
//! Decoding an encoded frame yields the frame back; see
//! `lemma_request_round_trip` and `lemma_response_round_trip`.

use vstd::prelude::*;

use crate::json::{
    is_num_char, json_field_views, json_view, json_views, json_wf, lemma_json_field_views_cons,
    lemma_json_views_index, lemma_json_views_len, num_text_wf, obj_lookup, parse_json,
    print_items, print_json, str_to_chars, text_to_json, write_json, write_string_str, JsonValue,
    JsonView,
};

verus! {

/// The typed body of a server reply or broadcast.
#[derive(Debug, PartialEq, Eq)]
pub enum Response {
    Empty {},
    Join {},
    Heartbeat {},
    Datetime { datetime: String, counter: u32 },
    Message { message: String },
}

/// The payload of a server frame.
#[derive(Debug, PartialEq, Eq)]
pub struct ReplyPayload {
    pub status: String,
    pub response: Response,
}

/// A server frame, sent to clients as a 5-element JSON array.
#[derive(Debug, PartialEq, Eq)]
pub struct ReplyMessage {
    pub join_ref: Option<String>,
    pub event_ref: String,
    pub topic: String,
    pub event: String,
    pub payload: ReplyPayload,
}

/// The payload of a client frame.
#[derive(Debug, PartialEq, Eq)]
pub enum RequestPayload {
    Join { token: String },
    Message { message: String },
    JsonValue(JsonValue),
}

/// A client frame, received as a 5-element JSON array.
#[derive(Debug, PartialEq, Eq)]
pub struct RequestMessage {
    pub join_ref: Option<String>,
    pub event_ref: String,
    pub topic: String,
    pub event: String,
    pub payload: RequestPayload,
}

pub enum ResponseView {
    Empty,
    Join,
    Heartbeat,
    Datetime { datetime: Seq<char>, counter: u32 },
    Message { message: Seq<char> },
}

pub struct ReplyPayloadView {
    pub status: Seq<char>,
    pub response: ResponseView,
}

pub struct ReplyMessageView {
    pub join_ref: Option<Seq<char>>,
    pub event_ref: Seq<char>,
    pub topic: Seq<char>,
    pub event: Seq<char>,
    pub payload: ReplyPayloadView,
}

pub enum RequestPayloadView {
    Join { token: Seq<char> },
    Message { message: Seq<char> },
    JsonValue(JsonView),
}

pub struct RequestMessageView {
    pub join_ref: Option<Seq<char>>,
    pub event_ref: Seq<char>,
    pub topic: Seq<char>,
    pub event: Seq<char>,
    pub payload: RequestPayloadView,
}

impl View for Response {
    type V = ResponseView;

    open spec fn view(&self) -> ResponseView {
        match self {
            Response::Empty {  } => ResponseView::Empty,
            Response::Join {  } => ResponseView::Join,
            Response::Heartbeat {  } => ResponseView::Heartbeat,
            Response::Datetime { datetime, counter } => ResponseView::Datetime {
                datetime: datetime@,
                counter: *counter,
            },
            Response::Message { message } => ResponseView::Message { message: message@ },
        }
    }
}

impl View for ReplyPayload {
    type V = ReplyPayloadView;

    open spec fn view(&self) -> ReplyPayloadView {
        ReplyPayloadView { status: self.status@, response: self.response@ }
    }
}

impl View for ReplyMessage {
    type V = ReplyMessageView;

    open spec fn view(&self) -> ReplyMessageView {
        ReplyMessageView {
            join_ref: match self.join_ref {
                Some(ref s) => Some(s@),
                None => None,
            },
            event_ref: self.event_ref@,
            topic: self.topic@,
            event: self.event@,
            payload: self.payload@,
        }
    }
}

impl View for RequestPayload {
    type V = RequestPayloadView;

    open spec fn view(&self) -> RequestPayloadView {
        match self {
            RequestPayload::Join { token } => RequestPayloadView::Join { token: token@ },
            RequestPayload::Message { message } => RequestPayloadView::Message {
                message: message@,
            },
            RequestPayload::JsonValue(v) => RequestPayloadView::JsonValue(json_view(*v)),
        }
    }
}

impl View for RequestMessage {
    type V = RequestMessageView;

    open spec fn view(&self) -> RequestMessageView {
        RequestMessageView {
            join_ref: match self.join_ref {
                Some(ref s) => Some(s@),
                None => None,
            },
            event_ref: self.event_ref@,
            topic: self.topic@,
            event: self.event@,
            payload: self.payload@,
        }
    }
}

impl Clone for Response {
    fn clone(&self) -> (r: Response)
        ensures
            r == *self,
    {
        match self {
            Response::Empty {  } => Response::Empty {  },
            Response::Join {  } => Response::Join {  },
            Response::Heartbeat {  } => Response::Heartbeat {  },
            Response::Datetime { datetime, counter } => Response::Datetime {
                datetime: datetime.clone(),
                counter: *counter,
            },
            Response::Message { message } => Response::Message { message: message.clone() },
        }
    }
}

impl Clone for ReplyPayload {
    fn clone(&self) -> (r: ReplyPayload)
        ensures
            r == *self,
    {
        ReplyPayload { status: self.status.clone(), response: self.response.clone() }
    }
}

impl Clone for ReplyMessage {
    fn clone(&self) -> (r: ReplyMessage)
        ensures
            r == *self,
    {
        ReplyMessage {
            join_ref: match &self.join_ref {
                Some(s) => Some(s.clone()),
                None => None,
            },
            event_ref: self.event_ref.clone(),
            topic: self.topic.clone(),
            event: self.event.clone(),
            payload: self.payload.clone(),
        }
    }
}

/// The character of one decimal digit.
pub open spec fn dec_digit(d: int) -> char {
    if d == 0 { '0' } else if d == 1 { '1' } else if d == 2 { '2' }
    else if d == 3 { '3' } else if d == 4 { '4' } else if d == 5 { '5' }
    else if d == 6 { '6' } else if d == 7 { '7' } else if d == 8 { '8' }
    else { '9' }
}

pub open spec fn is_dec_digit(c: char) -> bool {
    '0' <= c && c <= '9'
}

pub open spec fn dec_digit_val(c: char) -> int {
    if c == '0' { 0int } else if c == '1' { 1int } else if c == '2' { 2int }
    else if c == '3' { 3int } else if c == '4' { 4int } else if c == '5' { 5int }
    else if c == '6' { 6int } else if c == '7' { 7int } else if c == '8' { 8int }
    else { 9int }
}

/// The decimal text of a natural number, no leading zeros.
pub open spec fn dec_text(n: nat) -> Seq<char>
    decreases n,
{
    if n < 10 {
        seq![dec_digit(n as int)]
    } else {
        dec_text(n / 10) + seq![dec_digit((n % 10) as int)]
    }
}

/// The value of decimal text.
pub open spec fn dec_val(s: Seq<char>) -> int
    decreases s.len(),
{
    if s.len() == 0 {
        0int
    } else {
        dec_val(s.drop_last()) * 10 + dec_digit_val(s.last())
    }
}

pub open spec fn all_dec_digits(s: Seq<char>) -> bool {
    forall|i: int| 0 <= i < s.len() ==> is_dec_digit(#[trigger] s[i])
}

/// What decimal text denotes as a `u32`, if it is digits only and in range.
pub open spec fn dec_u32(s: Seq<char>) -> Option<u32> {
    if s.len() > 0 && all_dec_digits(s) && dec_val(s) <= u32::MAX {
        Some(dec_val(s) as u32)
    } else {
        None
    }
}

pub proof fn lemma_dec_text_digits(n: nat)
    ensures
        dec_text(n).len() > 0,
        all_dec_digits(dec_text(n)),
    decreases n,
{
    if n >= 10 {
        lemma_dec_text_digits(n / 10);
        assert forall|i: int| 0 <= i < dec_text(n).len() implies is_dec_digit(
            #[trigger] dec_text(n)[i],
        ) by {
            if i < dec_text(n / 10).len() {
                assert(dec_text(n)[i] == dec_text(n / 10)[i]);
            }
        }
    }
}

proof fn lemma_dec_digit_val(d: int)
    requires
        0 <= d < 10,
    ensures
        dec_digit_val(dec_digit(d)) == d,
{
}

pub proof fn lemma_dec_text_val(n: nat)
    ensures
        dec_val(dec_text(n)) == n,
    decreases n,
{
    if n < 10 {
        assert(dec_text(n) == seq![dec_digit(n as int)]);
        assert(dec_text(n).drop_last() =~= Seq::<char>::empty());
        assert(dec_text(n).last() == dec_digit(n as int));
        assert(dec_val(Seq::<char>::empty()) == 0);
        lemma_dec_digit_val(n as int);
        assert(dec_digit_val(dec_digit(n as int)) == n);
        assert(dec_val(dec_text(n)) == dec_val(dec_text(n).drop_last()) * 10 + dec_digit_val(dec_text(n).last()));
    } else {
        lemma_dec_text_val(n / 10);
        assert(dec_text(n).drop_last() =~= dec_text(n / 10));
        assert(dec_text(n).last() == dec_digit((n % 10) as int));
        lemma_dec_digit_val((n % 10) as int);
        assert(dec_val(dec_text(n)) == (n / 10) * 10 + n % 10);
        assert((n / 10) * 10 + n % 10 == n) by {
            vstd::arithmetic::div_mod::lemma_fundamental_div_mod(n as int, 10);
        }
    }
}

/// Decimal text is a well-formed numeric literal.
pub proof fn lemma_dec_text_num_wf(n: nat)
    ensures
        num_text_wf(dec_text(n)),
{
    lemma_dec_text_digits(n);
    assert forall|i: int| 0 <= i < dec_text(n).len() implies is_num_char(
        #[trigger] dec_text(n)[i],
    ) by {
        assert(is_dec_digit(dec_text(n)[i]));
    }
    assert(is_dec_digit(dec_text(n)[0]));
}

/// The value only grows as digits are appended.
proof fn lemma_dec_val_take(s: Seq<char>, k: int)
    requires
        0 <= k <= s.len(),
    ensures
        0 <= dec_val(s.take(k)) <= dec_val(s),
    decreases s.len() - k,
{
    lemma_dec_val_nonneg(s.take(k));
    if k == s.len() {
        assert(s.take(k) =~= s);
    } else {
        lemma_dec_val_take(s, k + 1);
        assert(s.take(k + 1).drop_last() =~= s.take(k));
        lemma_dec_val_nonneg(s.take(k + 1));
    }
}

proof fn lemma_dec_val_nonneg(s: Seq<char>)
    ensures
        dec_val(s) >= 0,
    decreases s.len(),
{
    if s.len() > 0 {
        lemma_dec_val_nonneg(s.drop_last());
    }
}

fn dec_digit_x(d: u32) -> (r: char)
    requires
        d < 10,
    ensures
        r == dec_digit(d as int),
{
    if d == 0 { '0' } else if d == 1 { '1' } else if d == 2 { '2' }
    else if d == 3 { '3' } else if d == 4 { '4' } else if d == 5 { '5' }
    else if d == 6 { '6' } else if d == 7 { '7' } else if d == 8 { '8' }
    else { '9' }
}

fn push_dec(out: &mut Vec<char>, n: u32)
    ensures
        final(out)@ == old(out)@ + dec_text(n as nat),
    decreases n,
{
    if n < 10 {
        out.push(dec_digit_x(n));
        assert(final(out)@ =~= old(out)@ + dec_text(n as nat));
    } else {
        push_dec(out, n / 10);
        out.push(dec_digit_x(n % 10));
        assert(final(out)@ =~= old(out)@ + dec_text(n as nat));
    }
}

/// Parse decimal digits as a `u32`; `None` on empty, non-digit or overflow.
fn parse_dec_u32(t: &String) -> (r: Option<u32>)
    ensures
        r == dec_u32(t@),
{
    let cs = str_to_chars(t.as_str());
    if cs.len() == 0 {
        return None;
    }
    let mut acc: u32 = 0;
    let mut k: usize = 0;
    loop
        invariant
            0 < cs@.len(),
            cs@ == t@,
            k <= cs@.len(),
            all_dec_digits(cs@.take(k as int)),
            acc == dec_val(cs@.take(k as int)),
        decreases cs@.len() - k,
    {
        if k == cs.len() {
            assert(cs@.take(k as int) =~= cs@);
            proof {
                lemma_dec_val_nonneg(cs@);
            }
            return Some(acc);
        }
        let c = cs[k];
        if !('0' <= c && c <= '9') {
            assert(!is_dec_digit(cs@[k as int]));
            return None;
        }
        let d: u32 = if c == '0' { 0 } else if c == '1' { 1 } else if c == '2' { 2 }
        else if c == '3' { 3 } else if c == '4' { 4 } else if c == '5' { 5 }
        else if c == '6' { 6 } else if c == '7' { 7 } else if c == '8' { 8 }
        else { 9 };
        assert(d == dec_digit_val(c));
        let wide: u64 = acc as u64 * 10 + d as u64;
        proof {
            assert(cs@.take(k as int + 1).drop_last() =~= cs@.take(k as int));
            assert(cs@.take(k as int + 1).last() == c);
        }
        if wide > u32::MAX as u64 {
            proof {
                lemma_dec_val_take(cs@, k as int + 1);
            }
            return None;
        }
        acc = wide as u32;
        k = k + 1;
    }
}

/// The decimal text of a `u32`.
pub fn u32_to_dec(n: u32) -> (r: String)
    ensures
        r@ == dec_text(n as nat),
{
    let mut out: Vec<char> = Vec::new();
    push_dec(&mut out, n);
    crate::json::chars_to_string(&out)
}

/// The JSON shape of a response: an object tagged by `"type"`.
pub open spec fn response_json(r: ResponseView) -> JsonView {
    match r {
        ResponseView::Empty => JsonView::Obj(seq![("type"@, JsonView::Str("null"@))]),
        ResponseView::Join => JsonView::Obj(seq![("type"@, JsonView::Str("join"@))]),
        ResponseView::Heartbeat => JsonView::Obj(seq![("type"@, JsonView::Str("heartbeat"@))]),
        ResponseView::Datetime { datetime, counter } => JsonView::Obj(
            seq![
                ("type"@, JsonView::Str("datetime"@)),
                ("datetime"@, JsonView::Str(datetime)),
                ("counter"@, JsonView::Num(dec_text(counter as nat))),
            ],
        ),
        ResponseView::Message { message } => JsonView::Obj(
            seq![("type"@, JsonView::Str("message"@)), ("message"@, JsonView::Str(message))],
        ),
    }
}

/// Read a response back from its JSON shape: the `"type"` tag picks the
/// variant and the variant's fields must be present with the right types.
pub open spec fn json_to_response(v: JsonView) -> Option<ResponseView> {
    match v {
        JsonView::Obj(fields) => match obj_lookup(fields, "type"@) {
            Some(JsonView::Str(tag)) => if tag == "null"@ {
                Some(ResponseView::Empty)
            } else if tag == "join"@ {
                Some(ResponseView::Join)
            } else if tag == "heartbeat"@ {
                Some(ResponseView::Heartbeat)
            } else if tag == "message"@ {
                match obj_lookup(fields, "message"@) {
                    Some(JsonView::Str(m)) => Some(ResponseView::Message { message: m }),
                    _ => None,
                }
            } else if tag == "datetime"@ {
                match (obj_lookup(fields, "datetime"@), obj_lookup(fields, "counter"@)) {
                    (Some(JsonView::Str(d)), Some(JsonView::Num(n))) => match dec_u32(n) {
                        Some(c) => Some(ResponseView::Datetime { datetime: d, counter: c }),
                        None => None,
                    },
                    _ => None,
                }
            } else {
                None
            },
            _ => None,
        },
        _ => None,
    }
}

pub open spec fn encode_response_spec(r: ResponseView) -> Seq<char> {
    print_json(response_json(r))
}

pub open spec fn decode_response_spec(s: Seq<char>) -> Option<ResponseView> {
    match parse_json(s) {
        Some(v) => json_to_response(v),
        None => None,
    }
}

/// The JSON shape of a client payload.
pub open spec fn payload_json(p: RequestPayloadView) -> JsonView {
    match p {
        RequestPayloadView::Join { token } => JsonView::Obj(
            seq![("token"@, JsonView::Str(token))],
        ),
        RequestPayloadView::Message { message } => JsonView::Obj(
            seq![("message"@, JsonView::Str(message))],
        ),
        RequestPayloadView::JsonValue(v) => v,
    }
}

/// Recognize a payload shape: an object with a string `"token"` is a join
/// credential, else one with a string `"message"` is a chat message, and
/// anything else passes through opaquely.
pub open spec fn classify_payload(v: JsonView) -> RequestPayloadView {
    match v {
        JsonView::Obj(fields) => match obj_lookup(fields, "token"@) {
            Some(JsonView::Str(t)) => RequestPayloadView::Join { token: t },
            _ => match obj_lookup(fields, "message"@) {
                Some(JsonView::Str(m)) => RequestPayloadView::Message { message: m },
                _ => RequestPayloadView::JsonValue(v),
            },
        },
        _ => RequestPayloadView::JsonValue(v),
    }
}

/// Payloads the codec round-trips: an opaque payload must not look like a
/// recognized shape, else decoding classifies it.
pub open spec fn payload_wf(p: RequestPayloadView) -> bool {
    match p {
        RequestPayloadView::Join { token } => true,
        RequestPayloadView::Message { message } => true,
        RequestPayloadView::JsonValue(v) => json_wf(v) && classify_payload(v)
            == RequestPayloadView::JsonValue(v),
    }
}

pub open spec fn request_wf(m: RequestMessageView) -> bool {
    payload_wf(m.payload)
}

/// The JSON shape of a client frame: the 5-element array.
pub open spec fn request_json(m: RequestMessageView) -> JsonView {
    JsonView::Arr(
        seq![
            match m.join_ref {
                Some(s) => JsonView::Str(s),
                None => JsonView::Null,
            },
            JsonView::Str(m.event_ref),
            JsonView::Str(m.topic),
            JsonView::Str(m.event),
            payload_json(m.payload),
        ],
    )
}

/// Read a client frame back from JSON: exactly five elements, the first a
/// string or null, the next three strings, the payload any value.
pub open spec fn json_to_request(v: JsonView) -> Option<RequestMessageView> {
    match v {
        JsonView::Arr(elems) => if elems.len() == 5 {
            match (elems[1], elems[2], elems[3]) {
                (JsonView::Str(er), JsonView::Str(tp), JsonView::Str(ev)) => match elems[0] {
                    JsonView::Null => Some(
                        RequestMessageView {
                            join_ref: None,
                            event_ref: er,
                            topic: tp,
                            event: ev,
                            payload: classify_payload(elems[4]),
                        },
                    ),
                    JsonView::Str(jr) => Some(
                        RequestMessageView {
                            join_ref: Some(jr),
                            event_ref: er,
                            topic: tp,
                            event: ev,
                            payload: classify_payload(elems[4]),
                        },
                    ),
                    _ => None,
                },
                _ => None,
            }
        } else {
            None
        },
        _ => None,
    }
}

pub open spec fn encode_request_spec(m: RequestMessageView) -> Seq<char> {
    print_json(request_json(m))
}

pub open spec fn decode_request_spec(s: Seq<char>) -> Option<RequestMessageView> {
    match parse_json(s) {
        Some(v) => json_to_request(v),
        None => None,
    }
}

/// The JSON shape of a reply payload.
pub open spec fn reply_payload_json(p: ReplyPayloadView) -> JsonView {
    JsonView::Obj(
        seq![("status"@, JsonView::Str(p.status)), ("response"@, response_json(p.response))],
    )
}

/// The JSON shape of a server frame: the 5-element array.
pub open spec fn reply_json(m: ReplyMessageView) -> JsonView {
    JsonView::Arr(
        seq![
            match m.join_ref {
                Some(s) => JsonView::Str(s),
                None => JsonView::Null,
            },
            JsonView::Str(m.event_ref),
            JsonView::Str(m.topic),
            JsonView::Str(m.event),
            reply_payload_json(m.payload),
        ],
    )
}

pub open spec fn encode_reply_spec(m: ReplyMessageView) -> Seq<char> {
    print_json(reply_json(m))
}

proof fn lemma_response_json_wf(r: ResponseView)
    ensures
        json_wf(response_json(r)),
{
    let fields = response_json(r)->Obj_0;
    match r {
        ResponseView::Datetime { datetime, counter } => {
            lemma_dec_text_num_wf(counter as nat);
            assert forall|i: int| 0 <= i < fields.len() implies json_wf(
                #[trigger] fields[i].1,
            ) by {
                if i == 0 {
                    assert(fields[0].1 == JsonView::Str("datetime"@));
                } else if i == 1 {
                    assert(fields[1].1 == JsonView::Str(datetime));
                } else {
                    assert(fields[2].1 == JsonView::Num(dec_text(counter as nat)));
                }
            }
        },
        ResponseView::Message { message } => {
            assert forall|i: int| 0 <= i < fields.len() implies json_wf(
                #[trigger] fields[i].1,
            ) by {
                if i == 0 {
                    assert(fields[0].1 == JsonView::Str("message"@));
                } else {
                    assert(fields[1].1 == JsonView::Str(message));
                }
            }
        },
        ResponseView::Empty => {
            assert forall|i: int| 0 <= i < fields.len() implies json_wf(
                #[trigger] fields[i].1,
            ) by {
                assert(fields[i].1 == JsonView::Str("null"@));
            }
        },
        ResponseView::Join => {
            assert forall|i: int| 0 <= i < fields.len() implies json_wf(
                #[trigger] fields[i].1,
            ) by {
                assert(fields[i].1 == JsonView::Str("join"@));
            }
        },
        ResponseView::Heartbeat => {
            assert forall|i: int| 0 <= i < fields.len() implies json_wf(
                #[trigger] fields[i].1,
            ) by {
                assert(fields[i].1 == JsonView::Str("heartbeat"@));
            }
        },
    }
}

/// Round trip for responses: decoding an encoded response yields it back,
/// variant and fields alike.
pub proof fn lemma_response_round_trip(r: ResponseView)
    ensures
        decode_response_spec(encode_response_spec(r)) == Some(r),
{
    reveal_strlit("type");
    reveal_strlit("null");
    reveal_strlit("join");
    reveal_strlit("heartbeat");
    reveal_strlit("datetime");
    reveal_strlit("counter");
    reveal_strlit("message");
    reveal_with_fuel(obj_lookup, 4);
    lemma_response_json_wf(r);
    crate::json::lemma_parse_json_print(response_json(r));
    assert("null"@.len() == 4 && "join"@.len() == 4 && "heartbeat"@.len() == 9);
    assert("message"@.len() == 7 && "datetime"@.len() == 8 && "type"@.len() == 4);
    assert("join"@ != "null"@) by {
        assert("join"@[0] == 'j' && "null"@[0] == 'n');
    }
    let fields = response_json(r)->Obj_0;
    match r {
        ResponseView::Empty => {
            assert(obj_lookup(fields, "type"@) == Some(JsonView::Str("null"@)));
            assert(json_to_response(response_json(r)) == Some(r));
        },
        ResponseView::Join => {
            assert(obj_lookup(fields, "type"@) == Some(JsonView::Str("join"@)));
            assert("join"@ != "null"@);
            assert(json_to_response(response_json(r)) == Some(r));
        },
        ResponseView::Heartbeat => {
            assert(obj_lookup(fields, "type"@) == Some(JsonView::Str("heartbeat"@)));
            assert(json_to_response(response_json(r)) == Some(r));
        },
        ResponseView::Message { message } => {
            assert(obj_lookup(fields, "type"@) == Some(JsonView::Str("message"@)));
            assert("type"@.len() == 4 && "message"@.len() == 7);
            assert("type"@ != "message"@);
            assert(fields.drop_first() =~= seq![("message"@, JsonView::Str(message))]);
            assert(obj_lookup(fields, "message"@) == Some(JsonView::Str(message)));
            assert(json_to_response(response_json(r)) == Some(r));
        },
        ResponseView::Datetime { datetime, counter } => {
            assert(obj_lookup(fields, "type"@) == Some(JsonView::Str("datetime"@)));
            assert("type"@.len() == 4 && "datetime"@.len() == 8 && "counter"@.len() == 7);
            assert("type"@ != "datetime"@ && "type"@ != "counter"@);
            assert("datetime"@ != "counter"@ && "counter"@ != "datetime"@);
            let tail1 = seq![
                ("datetime"@, JsonView::Str(datetime)),
                ("counter"@, JsonView::Num(dec_text(counter as nat))),
            ];
            assert(fields.drop_first() =~= tail1);
            assert(obj_lookup(fields, "datetime"@) == Some(JsonView::Str(datetime)));
            assert(tail1.drop_first() =~= seq![
                ("counter"@, JsonView::Num(dec_text(counter as nat))),
            ]);
            assert(obj_lookup(fields, "counter"@) == Some(
                JsonView::Num(dec_text(counter as nat)),
            ));
            lemma_dec_text_digits(counter as nat);
            lemma_dec_text_val(counter as nat);
            assert(dec_u32(dec_text(counter as nat)) == Some(counter));
            assert(json_to_response(response_json(r)) == Some(r));
        },
    }
    assert(parse_json(encode_response_spec(r)) == Some(response_json(r)));
}

proof fn lemma_payload_json_wf(p: RequestPayloadView)
    requires
        payload_wf(p),
    ensures
        json_wf(payload_json(p)),
{
    match p {
        RequestPayloadView::Join { token } => {
            let fs = payload_json(p)->Obj_0;
            assert forall|k: int| 0 <= k < fs.len() implies json_wf(#[trigger] fs[k].1) by {
                assert(fs[k].1 == JsonView::Str(token));
            }
        },
        RequestPayloadView::Message { message } => {
            let fs = payload_json(p)->Obj_0;
            assert forall|k: int| 0 <= k < fs.len() implies json_wf(#[trigger] fs[k].1) by {
                assert(fs[k].1 == JsonView::Str(message));
            }
        },
        RequestPayloadView::JsonValue(v) => {},
    }
}

proof fn lemma_request_json_wf(m: RequestMessageView)
    requires
        request_wf(m),
    ensures
        json_wf(request_json(m)),
{
    lemma_payload_json_wf(m.payload);
    let elems = request_json(m)->Arr_0;
    assert forall|i: int| 0 <= i < elems.len() implies json_wf(#[trigger] elems[i]) by {
        if i == 0 {
            match m.join_ref {
                Some(s) => {
                    assert(elems[0] == JsonView::Str(s));
                },
                None => {
                    assert(elems[0] == JsonView::Null);
                },
            }
        } else if i == 1 {
            assert(elems[1] == JsonView::Str(m.event_ref));
        } else if i == 2 {
            assert(elems[2] == JsonView::Str(m.topic));
        } else if i == 3 {
            assert(elems[3] == JsonView::Str(m.event));
        } else {
            assert(elems[4] == payload_json(m.payload));
        }
    }
}

proof fn lemma_classify_payload_json(p: RequestPayloadView)
    requires
        payload_wf(p),
    ensures
        classify_payload(payload_json(p)) == p,
{
    reveal_strlit("token");
    reveal_strlit("message");
    reveal_with_fuel(obj_lookup, 3);
    match p {
        RequestPayloadView::Join { token } => {
            let fs = payload_json(p)->Obj_0;
            assert(obj_lookup(fs, "token"@) == Some(JsonView::Str(token)));
        },
        RequestPayloadView::Message { message } => {
            let fs = payload_json(p)->Obj_0;
            assert(fs[0].0 == "message"@);
            assert("token"@.len() == 5 && "message"@.len() == 7);
            assert("token"@ != "message"@);
            assert(fs.drop_first() =~= Seq::<(Seq<char>, JsonView)>::empty());
            assert(obj_lookup(fs, "token"@) is None);
            assert(obj_lookup(fs, "message"@) == Some(JsonView::Str(message)));
        },
        RequestPayloadView::JsonValue(v) => {},
    }
}

/// Round trip for client frames: decoding an encoded well-formed frame
/// yields exactly that frame.
pub proof fn lemma_request_round_trip(m: RequestMessageView)
    requires
        request_wf(m),
    ensures
        decode_request_spec(encode_request_spec(m)) == Some(m),
{
    lemma_request_json_wf(m);
    crate::json::lemma_parse_json_print(request_json(m));
    let elems = request_json(m)->Arr_0;
    assert(elems.len() == 5);
    lemma_classify_payload_json(m.payload);
    assert(classify_payload(elems[4]) == m.payload);
}

/// Whether two string slices hold the same text.
pub fn str_eq(a: &str, b: &str) -> (r: bool)
    ensures
        r == (a@ == b@),
{
    let ca = str_to_chars(a);
    let cb = str_to_chars(b);
    if ca.len() != cb.len() {
        return false;
    }
    let mut i: usize = 0;
    while i < ca.len()
        invariant
            i <= ca@.len(),
            ca@ == a@,
            cb@ == b@,
            ca@.len() == cb@.len(),
            forall|k: int| 0 <= k < i ==> ca@[k] == cb@[k],
        decreases ca@.len() - i,
    {
        if ca[i] != cb[i] {
            return false;
        }
        i = i + 1;
    }
    assert(a@ =~= b@);
    true
}

/// The first member with the given key, when its value is a string.
fn obj_get_str(fields: &Vec<(String, JsonValue)>, key: &str) -> (r: Option<String>)
    ensures
        match r {
            Some(t) => obj_lookup(json_field_views(fields@), key@) == Some(JsonView::Str(t@)),
            None => match obj_lookup(json_field_views(fields@), key@) {
                Some(JsonView::Str(_)) => false,
                _ => true,
            },
        },
{
    assert(fields@.skip(0) =~= fields@);
    let mut i: usize = 0;
    loop
        invariant
            i <= fields@.len(),
            obj_lookup(json_field_views(fields@), key@) == obj_lookup(
                json_field_views(fields@.skip(i as int)),
                key@,
            ),
        decreases fields@.len() - i,
    {
        let ghost tail = fields@.skip(i as int);
        if i == fields.len() {
            assert(tail =~= Seq::<(String, JsonValue)>::empty());
            assert(json_field_views(tail) =~= Seq::<(Seq<char>, JsonView)>::empty());
            return None;
        }
        proof {
            assert(tail =~= seq![fields@[i as int]] + fields@.skip(i as int + 1));
            lemma_json_field_views_cons(
                fields@[i as int].0,
                fields@[i as int].1,
                fields@.skip(i as int + 1),
            );
        }
        if str_eq(fields[i].0.as_str(), key) {
            assert(json_field_views(tail)[0] == (key@, json_view(fields@[i as int].1)));
            match &fields[i].1 {
                JsonValue::Str(t) => {
                    return Some(t.clone());
                },
                _ => {
                    return None;
                },
            }
        }
        proof {
            assert(json_field_views(tail)[0].0 == fields@[i as int].0@);
            assert(json_field_views(tail).drop_first() =~= json_field_views(
                fields@.skip(i as int + 1),
            ));
        }
        i = i + 1;
    }
}

/// The first member with the given key, when its value is a number.
fn obj_get_num(fields: &Vec<(String, JsonValue)>, key: &str) -> (r: Option<String>)
    ensures
        match r {
            Some(t) => obj_lookup(json_field_views(fields@), key@) == Some(JsonView::Num(t@)),
            None => match obj_lookup(json_field_views(fields@), key@) {
                Some(JsonView::Num(_)) => false,
                _ => true,
            },
        },
{
    assert(fields@.skip(0) =~= fields@);
    let mut i: usize = 0;
    loop
        invariant
            i <= fields@.len(),
            obj_lookup(json_field_views(fields@), key@) == obj_lookup(
                json_field_views(fields@.skip(i as int)),
                key@,
            ),
        decreases fields@.len() - i,
    {
        let ghost tail = fields@.skip(i as int);
        if i == fields.len() {
            assert(tail =~= Seq::<(String, JsonValue)>::empty());
            assert(json_field_views(tail) =~= Seq::<(Seq<char>, JsonView)>::empty());
            return None;
        }
        proof {
            assert(tail =~= seq![fields@[i as int]] + fields@.skip(i as int + 1));
            lemma_json_field_views_cons(
                fields@[i as int].0,
                fields@[i as int].1,
                fields@.skip(i as int + 1),
            );
        }
        if str_eq(fields[i].0.as_str(), key) {
            assert(json_field_views(tail)[0] == (key@, json_view(fields@[i as int].1)));
            match &fields[i].1 {
                JsonValue::Num(t) => {
                    return Some(t.clone());
                },
                _ => {
                    return None;
                },
            }
        }
        proof {
            assert(json_field_views(tail)[0].0 == fields@[i as int].0@);
            assert(json_field_views(tail).drop_first() =~= json_field_views(
                fields@.skip(i as int + 1),
            ));
        }
        i = i + 1;
    }
}

/// Decode a response from its tagged JSON text.
pub fn decode_response(s: &str) -> (r: Option<Response>)
    ensures
        match r {
            Some(resp) => decode_response_spec(s@) == Some(resp@),
            None => decode_response_spec(s@) is None,
        },
{
    let v = match text_to_json(s) {
        Some(v) => v,
        None => {
            return None;
        },
    };
    let ghost vv = v@;
    let fields = match v {
        JsonValue::Obj(fields) => fields,
        _ => {
            return None;
        },
    };
    let tag = match obj_get_str(&fields, "type") {
        Some(t) => t,
        None => {
            return None;
        },
    };
    if str_eq(tag.as_str(), "null") {
        Some(Response::Empty {  })
    } else if str_eq(tag.as_str(), "join") {
        Some(Response::Join {  })
    } else if str_eq(tag.as_str(), "heartbeat") {
        Some(Response::Heartbeat {  })
    } else if str_eq(tag.as_str(), "message") {
        match obj_get_str(&fields, "message") {
            Some(m) => Some(Response::Message { message: m }),
            None => None,
        }
    } else if str_eq(tag.as_str(), "datetime") {
        let d = match obj_get_str(&fields, "datetime") {
            Some(d) => d,
            None => {
                return None;
            },
        };
        let n = match obj_get_num(&fields, "counter") {
            Some(n) => n,
            None => {
                return None;
            },
        };
        match parse_dec_u32(&n) {
            Some(c) => Some(Response::Datetime { datetime: d, counter: c }),
            None => None,
        }
    } else {
        None
    }
}

#[verifier::rlimit(100)]
fn write_response(out: &mut Vec<char>, r: &Response)
    ensures
        final(out)@ == old(out)@ + print_json(response_json(r@)),
{
    proof {
        reveal_with_fuel(print_json, 3);
        reveal_with_fuel(crate::json::print_fields, 4);
    }
    match r {
        Response::Empty {  } => {
            out.push('{');
            write_string_str(out, "type");
            out.push(':');
            write_string_str(out, "null");
            out.push('}');
            assert(final(out)@ =~= old(out)@ + print_json(response_json(r@)));
        },
        Response::Join {  } => {
            out.push('{');
            write_string_str(out, "type");
            out.push(':');
            write_string_str(out, "join");
            out.push('}');
            assert(final(out)@ =~= old(out)@ + print_json(response_json(r@)));
        },
        Response::Heartbeat {  } => {
            out.push('{');
            write_string_str(out, "type");
            out.push(':');
            write_string_str(out, "heartbeat");
            out.push('}');
            assert(final(out)@ =~= old(out)@ + print_json(response_json(r@)));
        },
        Response::Message { message } => {
            out.push('{');
            write_string_str(out, "type");
            out.push(':');
            write_string_str(out, "message");
            out.push(',');
            write_string_str(out, "message");
            out.push(':');
            write_string_str(out, message.as_str());
            out.push('}');
            proof {
                let fs = response_json(r@)->Obj_0;
                assert(fs.drop_first() =~= seq![("message"@, JsonView::Str(message@))]);
                assert(final(out)@ =~= old(out)@ + print_json(response_json(r@)));
            }
        },
        Response::Datetime { datetime, counter } => {
            out.push('{');
            write_string_str(out, "type");
            out.push(':');
            write_string_str(out, "datetime");
            out.push(',');
            write_string_str(out, "datetime");
            out.push(':');
            write_string_str(out, datetime.as_str());
            out.push(',');
            write_string_str(out, "counter");
            out.push(':');
            push_dec(out, *counter);
            out.push('}');
            proof {
                let fs = response_json(r@)->Obj_0;
                let tail = seq![
                    ("datetime"@, JsonView::Str(datetime@)),
                    ("counter"@, JsonView::Num(dec_text(*counter as nat))),
                ];
                assert(fs.drop_first() =~= tail);
                assert(tail.drop_first() =~= seq![
                    ("counter"@, JsonView::Num(dec_text(*counter as nat))),
                ]);
                let pf = crate::json::print_string("type"@) + seq![':']
                    + crate::json::print_string("datetime"@) + seq![',']
                    + crate::json::print_string("datetime"@) + seq![':']
                    + crate::json::print_string(datetime@) + seq![',']
                    + crate::json::print_string("counter"@) + seq![':']
                    + dec_text(*counter as nat);
                assert(crate::json::print_fields(fs) =~= pf);
                assert(final(out)@ =~= old(out)@ + seq!['{'] + pf + seq!['}']);
                assert(final(out)@ =~= old(out)@ + print_json(response_json(r@)));
            }
        },
    }
}

/// Encode a response as its tagged JSON text.
pub fn encode_response(r: &Response) -> (t: String)
    ensures
        t@ == encode_response_spec(r@),
{
    let mut out: Vec<char> = Vec::new();
    write_response(&mut out, r);
    crate::json::chars_to_string(&out)
}

proof fn lemma_print_items5(a: JsonView, b: JsonView, c: JsonView, d: JsonView, e: JsonView)
    ensures
        print_items(seq![a, b, c, d, e]) == print_json(a) + seq![','] + print_json(b) + seq![',']
            + print_json(c) + seq![','] + print_json(d) + seq![','] + print_json(e),
{
    reveal_with_fuel(print_items, 6);
    let s = seq![a, b, c, d, e];
    assert(s.drop_first() =~= seq![b, c, d, e]);
    assert(seq![b, c, d, e].drop_first() =~= seq![c, d, e]);
    assert(seq![c, d, e].drop_first() =~= seq![d, e]);
    assert(seq![d, e].drop_first() =~= seq![e]);
    assert(print_items(s) =~= print_json(a) + seq![','] + print_json(b) + seq![','] + print_json(
        c,
    ) + seq![','] + print_json(d) + seq![','] + print_json(e));
}

/// Encode a client frame as its 5-element array text.
#[verifier::rlimit(100)]
pub fn encode_request(m: &RequestMessage) -> (t: String)
    ensures
        t@ == encode_request_spec(m@),
{
    let ghost es = request_json(m@)->Arr_0;
    let mut out: Vec<char> = Vec::new();
    out.push('[');
    match &m.join_ref {
        None => {
            out.push('n');
            out.push('u');
            out.push('l');
            out.push('l');
        },
        Some(s) => {
            write_string_str(&mut out, s.as_str());
        },
    }
    assert(out@ =~= seq!['['] + print_json(es[0]));
    out.push(',');
    write_string_str(&mut out, m.event_ref.as_str());
    out.push(',');
    write_string_str(&mut out, m.topic.as_str());
    out.push(',');
    write_string_str(&mut out, m.event.as_str());
    out.push(',');
    let ghost before_payload = out@;
    proof {
        reveal_with_fuel(print_json, 3);
        reveal_with_fuel(crate::json::print_fields, 3);
    }
    match &m.payload {
        RequestPayload::Join { token } => {
            out.push('{');
            write_string_str(&mut out, "token");
            out.push(':');
            write_string_str(&mut out, token.as_str());
            out.push('}');
            assert(out@ =~= before_payload + print_json(es[4]));
        },
        RequestPayload::Message { message } => {
            out.push('{');
            write_string_str(&mut out, "message");
            out.push(':');
            write_string_str(&mut out, message.as_str());
            out.push('}');
            assert(out@ =~= before_payload + print_json(es[4]));
        },
        RequestPayload::JsonValue(v) => {
            write_json(&mut out, v);
            assert(out@ =~= before_payload + print_json(es[4]));
        },
    }
    out.push(']');
    proof {
        lemma_print_items5(es[0], es[1], es[2], es[3], es[4]);
        assert(es =~= seq![es[0], es[1], es[2], es[3], es[4]]);
        assert(out@ =~= seq!['['] + print_items(es) + seq![']']);
    }
    crate::json::chars_to_string(&out)
}

/// Encode a server frame as its 5-element array text.
#[verifier::rlimit(100)]
pub fn encode_reply(m: &ReplyMessage) -> (t: String)
    ensures
        t@ == encode_reply_spec(m@),
{
    proof {
        reveal_with_fuel(print_json, 3);
        reveal_with_fuel(crate::json::print_fields, 4);
    }
    let ghost es = reply_json(m@)->Arr_0;
    let mut out: Vec<char> = Vec::new();
    out.push('[');
    match &m.join_ref {
        None => {
            out.push('n');
            out.push('u');
            out.push('l');
            out.push('l');
        },
        Some(s) => {
            write_string_str(&mut out, s.as_str());
        },
    }
    assert(out@ =~= seq!['['] + print_json(es[0]));
    out.push(',');
    write_string_str(&mut out, m.event_ref.as_str());
    out.push(',');
    write_string_str(&mut out, m.topic.as_str());
    out.push(',');
    write_string_str(&mut out, m.event.as_str());
    out.push(',');
    let ghost before_payload = out@;
    out.push('{');
    write_string_str(&mut out, "status");
    out.push(':');
    write_string_str(&mut out, m.payload.status.as_str());
    out.push(',');
    write_string_str(&mut out, "response");
    out.push(':');
    write_response(&mut out, &m.payload.response);
    out.push('}');
    proof {
        let fs = reply_payload_json(m.payload@)->Obj_0;
        assert(fs.drop_first() =~= seq![("response"@, response_json(m.payload.response@))]);
        assert(out@ =~= before_payload + print_json(es[4]));
    }
    out.push(']');
    proof {
        lemma_print_items5(es[0], es[1], es[2], es[3], es[4]);
        assert(es =~= seq![es[0], es[1], es[2], es[3], es[4]]);
        assert(out@ =~= seq!['['] + print_items(es) + seq![']']);
    }
    crate::json::chars_to_string(&out)
}

/// Encode a client payload alone, as its JSON text.
pub fn encode_request_payload(p: &RequestPayload) -> (t: String)
    ensures
        t@ == print_json(payload_json(p@)),
{
    proof {
        reveal_with_fuel(print_json, 3);
        reveal_with_fuel(crate::json::print_fields, 3);
    }
    let mut out: Vec<char> = Vec::new();
    match p {
        RequestPayload::Join { token } => {
            out.push('{');
            write_string_str(&mut out, "token");
            out.push(':');
            write_string_str(&mut out, token.as_str());
            out.push('}');
            assert(out@ =~= print_json(payload_json(p@)));
        },
        RequestPayload::Message { message } => {
            out.push('{');
            write_string_str(&mut out, "message");
            out.push(':');
            write_string_str(&mut out, message.as_str());
            out.push('}');
            assert(out@ =~= print_json(payload_json(p@)));
        },
        RequestPayload::JsonValue(v) => {
            write_json(&mut out, v);
            assert(out@ =~= print_json(payload_json(p@)));
        },
    }
    crate::json::chars_to_string(&out)
}

/// Decode a client payload alone from its JSON text.
pub fn decode_request_payload(s: &str) -> (r: Option<RequestPayload>)
    ensures
        match r {
            Some(p) => parse_json(s@) matches Some(v) && p@ == classify_payload(v),
            None => parse_json(s@) is None,
        },
{
    match text_to_json(s) {
        Some(v) => Some(classify_x(v)),
        None => None,
    }
}

/// Classify a decoded payload value.
fn classify_x(v: JsonValue) -> (r: RequestPayload)
    ensures
        r@ == classify_payload(json_view(v)),
{
    match &v {
        JsonValue::Obj(fields) => {
            match obj_get_str(fields, "token") {
                Some(t) => {
                    return RequestPayload::Join { token: t };
                },
                None => {},
            }
            match obj_get_str(fields, "message") {
                Some(m) => {
                    return RequestPayload::Message { message: m };
                },
                None => {},
            }
        },
        _ => {},
    }
    RequestPayload::JsonValue(v)
}

/// Decode a client frame; `None` on malformed JSON or a wrong shape.
pub fn decode_request(s: &str) -> (r: Option<RequestMessage>)
    ensures
        match r {
            Some(m) => decode_request_spec(s@) == Some(m@),
            None => decode_request_spec(s@) is None,
        },
{
    let v = match text_to_json(s) {
        Some(v) => v,
        None => {
            return None;
        },
    };
    let ghost vv = v@;
    let mut elems = match v {
        JsonValue::Arr(elems) => elems,
        _ => {
            return None;
        },
    };
    let ghost g = elems@;
    proof {
        lemma_json_views_len(g);
    }
    if elems.len() != 5 {
        return None;
    }
    proof {
        lemma_json_views_index(g, 0);
        lemma_json_views_index(g, 1);
        lemma_json_views_index(g, 2);
        lemma_json_views_index(g, 3);
        lemma_json_views_index(g, 4);
    }
    let e4 = match elems.pop() {
        Some(e) => e,
        None => {
            return None;
        },
    };
    let e3 = match elems.pop() {
        Some(e) => e,
        None => {
            return None;
        },
    };
    let e2 = match elems.pop() {
        Some(e) => e,
        None => {
            return None;
        },
    };
    let e1 = match elems.pop() {
        Some(e) => e,
        None => {
            return None;
        },
    };
    let e0 = match elems.pop() {
        Some(e) => e,
        None => {
            return None;
        },
    };
    assert(e0 == g[0] && e1 == g[1] && e2 == g[2] && e3 == g[3] && e4 == g[4]);
    let join_ref: Option<String> = match e0 {
        JsonValue::Null => None,
        JsonValue::Str(jr) => Some(jr),
        _ => {
            return None;
        },
    };
    let event_ref = match e1 {
        JsonValue::Str(t) => t,
        _ => {
            return None;
        },
    };
    let topic = match e2 {
        JsonValue::Str(t) => t,
        _ => {
            return None;
        },
    };
    let event = match e3 {
        JsonValue::Str(t) => t,
        _ => {
            return None;
        },
    };
    let payload = classify_x(e4);
    Some(RequestMessage { join_ref, event_ref, topic, event, payload })
}

} // verus!
