//! HTTP answers as plain values: a status, headers and a body.

use vstd::prelude::*;

use crate::json;
use crate::json::{Json, JsonView};
use crate::table;
use crate::text;

verus! {

pub struct Reply {
    pub status: u16,
    pub headers: Vec<(String, String)>,
    pub body: Vec<u8>,
}

#[verifier::ext_equal]
pub struct ReplyView {
    pub status: u16,
    pub headers: Seq<(Seq<char>, Seq<char>)>,
    pub body: Seq<u8>,
}

/// Headers as names and values.
pub open spec fn header_views(h: Seq<(String, String)>) -> Seq<(Seq<char>, Seq<char>)> {
    h.map_values(|p: (String, String)| (p.0@, p.1@))
}

impl View for Reply {
    type V = ReplyView;

    open spec fn view(&self) -> ReplyView {
        ReplyView {
            status: self.status,
            headers: header_views(self.headers@),
            body: self.body@,
        }
    }
}

/// An answer in plain text.
pub open spec fn plain_view(status: u16, s: Seq<char>) -> ReplyView {
    ReplyView {
        status,
        headers: seq![("content-type"@, "text/plain; charset=utf-8"@)],
        body: vstd::utf8::encode_utf8(s),
    }
}

/// A page.
pub open spec fn html_view(status: u16, s: Seq<char>) -> ReplyView {
    ReplyView {
        status,
        headers: seq![("content-type"@, "text/html; charset=utf-8"@)],
        body: vstd::utf8::encode_utf8(s),
    }
}

/// An answer in JSON.
pub open spec fn json_view(status: u16, v: JsonView) -> ReplyView {
    ReplyView {
        status,
        headers: seq![("content-type"@, "application/json"@)],
        body: json::written(v),
    }
}

/// An answer that sends the caller to `to`.
pub open spec fn redirect_view(to: Seq<char>) -> ReplyView {
    ReplyView { status: 303, headers: seq![("location"@, to)], body: Seq::empty() }
}

/// The document that states an error.
pub open spec fn error_document(code: Seq<char>, message: Seq<char>) -> JsonView {
    JsonView::Obj(
        seq![
            (
                "error"@,
                JsonView::Obj(
                    seq![("message"@, JsonView::Str(message)), ("code"@, JsonView::Str(code))],
                ),
            ),
        ],
    )
}

/// An error, stated in JSON.
pub open spec fn error_view(status: u16, code: Seq<char>, message: Seq<char>) -> ReplyView {
    json_view(status, error_document(code, message))
}

/// `r` with one more header.
pub open spec fn with_header(r: ReplyView, name: Seq<char>, value: Seq<char>) -> ReplyView {
    ReplyView { headers: r.headers.push((name, value)), ..r }
}

fn one_header(name: &str, value: &str) -> (r: Vec<(String, String)>)
    ensures
        header_views(r@) == seq![(name@, value@)],
{
    let mut headers: Vec<(String, String)> = Vec::new();
    headers.push((text::owned(name), text::owned(value)));
    assert(header_views(headers@) =~= seq![(name@, value@)]);
    headers
}

pub fn plain(status: u16, s: &str) -> (r: Reply)
    ensures
        r@ == plain_view(status, s@),
{
    Reply {
        status,
        headers: one_header("content-type", "text/plain; charset=utf-8"),
        body: s.as_bytes_vec(),
    }
}

pub fn html(status: u16, s: &str) -> (r: Reply)
    ensures
        r@ == html_view(status, s@),
{
    Reply {
        status,
        headers: one_header("content-type", "text/html; charset=utf-8"),
        body: s.as_bytes_vec(),
    }
}

pub fn json_reply(status: u16, v: &Json) -> (r: Reply)
    ensures
        r@ == json_view(status, v@),
{
    Reply {
        status,
        headers: one_header("content-type", "application/json"),
        body: json::render(v),
    }
}

pub fn redirect(to: &str) -> (r: Reply)
    ensures
        r@ == redirect_view(to@),
{
    let r = Reply { status: 303, headers: one_header("location", to), body: Vec::new() };
    assert(r@ =~= redirect_view(to@));
    r
}

/// An object with one field.
pub fn one_field(k: &str, v: Json) -> (r: Json)
    ensures
        r@ == JsonView::Obj(seq![(k@, v@)]),
{
    let mut fields: Vec<(String, Json)> = Vec::new();
    fields.push((text::owned(k), v));
    let r = Json::Obj(fields);
    assert(r@->Obj_0 =~= seq![(k@, v@)]);
    r
}

/// An object with two fields.
pub fn two_fields(k: &str, v: Json, l: &str, w: Json) -> (r: Json)
    ensures
        r@ == JsonView::Obj(seq![(k@, v@), (l@, w@)]),
{
    let mut fields: Vec<(String, Json)> = Vec::new();
    fields.push((text::owned(k), v));
    fields.push((text::owned(l), w));
    let r = Json::Obj(fields);
    assert(r@->Obj_0 =~= seq![(k@, v@), (l@, w@)]);
    r
}

/// An object with three fields.
pub fn three_fields(k: &str, v: Json, l: &str, w: Json, m: &str, x: Json) -> (r: Json)
    ensures
        r@ == JsonView::Obj(seq![(k@, v@), (l@, w@), (m@, x@)]),
        r is Obj,
{
    let mut fields: Vec<(String, Json)> = Vec::new();
    fields.push((text::owned(k), v));
    fields.push((text::owned(l), w));
    fields.push((text::owned(m), x));
    let r = Json::Obj(fields);
    assert(r@->Obj_0 =~= seq![(k@, v@), (l@, w@), (m@, x@)]);
    r
}

/// The object `j` with one more field behind the others.
pub fn and_field(j: Json, k: &str, v: Json) -> (r: Json)
    requires
        j is Obj,
    ensures
        r@ == JsonView::Obj(j@->Obj_0.push((k@, v@))),
        r is Obj,
{
    let ghost all = j@->Obj_0;
    match j {
        Json::Obj(fields) => {
            let mut fields = fields;
            fields.push((text::owned(k), v));
            let r = Json::Obj(fields);
            assert(r@->Obj_0 =~= all.push((k@, v@)));
            r
        },
        other => other,
    }
}

/// An error, stated in JSON.
pub fn error(status: u16, code: &str, message: &str) -> (r: Reply)
    ensures
        r@ == error_view(status, code@, message@),
{
    let inner = two_fields(
        "message",
        Json::Str(text::owned(message)),
        "code",
        Json::Str(text::owned(code)),
    );
    json_reply(status, &one_field("error", inner))
}

impl Reply {
    /// Add a header.
    pub fn header(self, name: &str, value: &str) -> (r: Reply)
        ensures
            r@ == with_header(self@, name@, value@),
    {
        let mut r = self;
        r.headers.push((text::owned(name), text::owned(value)));
        assert(r@.headers =~= self@.headers.push((name@, value@)));
        r
    }
}

/// An error states its code and its message, in JSON, under the status given.
pub proof fn law_an_error_states_its_code(status: u16, code: Seq<char>, message: Seq<char>)
    ensures
        error_view(status, code, message).status == status,
        error_view(status, code, message).body == json::written(error_document(code, message)),
        error_view(status, code, message).headers.contains(("content-type"@, "application/json"@)),
        json::nested(error_document(code, message), "error"@, "code"@) == Some(JsonView::Str(code)),
        json::nested(error_document(code, message), "error"@, "message"@) == Some(
            JsonView::Str(message),
        ),
{
    let doc = error_document(code, message)->Obj_0;
    table::lemma_nth(doc, 0);
    reveal_strlit("message");
    reveal_strlit("code");
    assert("message"@.len() != "code"@.len());
    let inner = doc[0].1->Obj_0;
    table::lemma_nth(inner, 0);
    table::lemma_nth(inner, 1);
    assert(error_view(status, code, message).headers[0] == ("content-type"@, "application/json"@));
}

/// An answer has the status and the text it was made with; a redirect sends the caller
/// on to where it says.
pub proof fn law_an_answer_says_what_it_was_given(status: u16, s: Seq<char>, v: JsonView)
    ensures
        plain_view(status, s).status == status,
        html_view(status, s).status == status,
        json_view(status, v).status == status,
        vstd::utf8::decode_utf8(plain_view(status, s).body) == s,
        vstd::utf8::decode_utf8(html_view(status, s).body) == s,
        json_view(status, v).body == json::written(v),
        redirect_view(s).headers.contains(("location"@, s)),
        redirect_view(s).status / 100 == 3,
        with_header(plain_view(status, s), "location"@, s).headers.contains(("location"@, s)),
{
    vstd::utf8::encode_utf8_decode_utf8(s);
    assert(redirect_view(s).headers[0] == ("location"@, s));
    assert(with_header(plain_view(status, s), "location"@, s).headers[1] == ("location"@, s));
}

} // verus!
