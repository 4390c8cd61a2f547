//! JSON documents.
//!
//! A document is read by `serde_json` and held as a tree of the library's own, so
//! that what is looked up in it, and what is changed in it, can be stated.

use serde_json::{Number, Value};

use vstd::prelude::*;

use crate::table;
use crate::text;

verus! {

/// `serde_json::Number`: a number that is carried through as it was read.
#[verifier::external_type_specification]
#[verifier::external_body]
pub struct ExNumber(Number);

/// A copy of a number is that number: `Number` derives `Clone` over plain numbers.
pub assume_specification[ <Number as Clone>::clone ](n: &Number) -> (r: Number)
    ensures
        r == *n,
;

/// A number that is no unsigned 64-bit integer. Only reading a document makes one.
pub struct OtherNumber {
    n: Number,
}

impl OtherNumber {
    pub closed spec fn number(self) -> Number {
        self.n
    }

    /// A copy of the number.
    pub fn dup(&self) -> (r: OtherNumber)
        ensures
            r.number() == self.number(),
    {
        OtherNumber { n: self.n.clone() }
    }
}

// --- The model ---------------------------------------------------------------

/// A JSON document. `UInt` holds the numbers that are unsigned 64-bit integers,
/// `Num` all others.
pub enum JsonView {
    Null,
    Bool(bool),
    UInt(u64),
    Num(Number),
    Str(Seq<char>),
    Arr(Seq<JsonView>),
    Obj(Seq<(Seq<char>, JsonView)>),
}

/// The value under the key `k`; only an object has any.
pub open spec fn field(v: JsonView, k: Seq<char>) -> Option<JsonView> {
    match v {
        JsonView::Obj(fields) => table::get(fields, k),
        _ => None,
    }
}

/// The value under `k`, under `j`.
pub open spec fn nested(v: JsonView, j: Seq<char>, k: Seq<char>) -> Option<JsonView> {
    match field(v, j) {
        Some(w) => field(w, k),
        None => None,
    }
}

pub open spec fn str_of(v: Option<JsonView>) -> Option<Seq<char>> {
    match v {
        Some(JsonView::Str(s)) => Some(s),
        _ => None,
    }
}

pub open spec fn uint_of(v: Option<JsonView>) -> Option<u64> {
    match v {
        Some(JsonView::UInt(n)) => Some(n),
        _ => None,
    }
}

pub open spec fn bool_of(v: Option<JsonView>) -> Option<bool> {
    match v {
        Some(JsonView::Bool(b)) => Some(b),
        _ => None,
    }
}

pub open spec fn items_of(v: Option<JsonView>) -> Option<Seq<JsonView>> {
    match v {
        Some(JsonView::Arr(items)) => Some(items),
        _ => None,
    }
}

/// The document with the value under `k` replaced, or with a field added for it;
/// only an object can be changed.
pub open spec fn with_field(v: JsonView, k: Seq<char>, w: JsonView) -> JsonView {
    match v {
        JsonView::Obj(fields) => JsonView::Obj(table::put(fields, k, w)),
        _ => v,
    }
}

/// A field that was set holds what it was set to, and every other field keeps its
/// value.
pub proof fn law_setting_a_field_sets_that_field_only(v: JsonView, k: Seq<char>, w: JsonView)
    requires
        v is Obj,
    ensures
        field(with_field(v, k, w), k) == Some(w),
        forall|j: Seq<char>|
            j != k ==> #[trigger] field(with_field(v, k, w), j) == field(v, j),
{
    table::law_put_then_get(v->Obj_0, k, w);
}

/// The value of a field is what stands under its name, the first where there are more;
/// what is no object has no field.
pub proof fn law_a_field_is_found_by_its_name(fields: Seq<(Seq<char>, JsonView)>, i: int)
    requires
        0 <= i < fields.len(),
        forall|j: int| 0 <= j < i ==> (#[trigger] fields[j]).0 != fields[i].0,
    ensures
        field(JsonView::Obj(fields), fields[i].0) == Some(fields[i].1),
        forall|v: JsonView, k: Seq<char>| !(v is Obj) ==> #[trigger] field(v, k) is None,
{
    table::lemma_nth(fields, i);
}

// --- The tree ----------------------------------------------------------------

pub enum Json {
    Null,
    Bool(bool),
    UInt(u64),
    Num(OtherNumber),
    Str(String),
    Arr(Vec<Json>),
    Obj(Vec<(String, Json)>),
}

/// The document that a tree holds.
pub open spec fn document(j: Json) -> JsonView
    decreases j,
{
    match j {
        Json::Null => JsonView::Null,
        Json::Bool(b) => JsonView::Bool(b),
        Json::UInt(n) => JsonView::UInt(n),
        Json::Num(n) => JsonView::Num(n.number()),
        Json::Str(s) => JsonView::Str(s@),
        Json::Arr(items) => JsonView::Arr(
            Seq::new(
                items@.len(),
                |i: int|
                    if 0 <= i < items@.len() {
                        document(items@[i])
                    } else {
                        JsonView::Null
                    },
            ),
        ),
        Json::Obj(fields) => JsonView::Obj(
            Seq::new(
                fields@.len(),
                |i: int|
                    if 0 <= i < fields@.len() {
                        (fields@[i].0@, document(fields@[i].1))
                    } else {
                        (Seq::empty(), JsonView::Null)
                    },
            ),
        ),
    }
}

impl View for Json {
    type V = JsonView;

    open spec fn view(&self) -> JsonView {
        document(*self)
    }
}

impl Json {
    /// The value under the key `k`; only an object has any.
    pub fn get(&self, k: &str) -> (r: Option<&Json>)
        ensures
            match r {
                Some(j) => field(self@, k@) == Some(j@),
                None => field(self@, k@) is None,
            },
    {
        match self {
            Json::Obj(fields) => {
                let ghost all = self@->Obj_0;
                proof {
                    table::lemma_at(all, k@);
                }
                let mut i: usize = 0;
                while i < fields.len()
                    invariant
                        i <= fields@.len(),
                        self@ == JsonView::Obj(all),
                        all.len() == fields@.len(),
                        forall|j: int|
                            0 <= j < fields@.len() ==> #[trigger] all[j] == (
                                fields@[j].0@,
                                fields@[j].1@,
                            ),
                        forall|j: int| 0 <= j < i ==> (#[trigger] all[j]).0 != k@,
                    decreases fields@.len() - i,
                {
                    assert(all[i as int].0 == fields@[i as int].0@);
                    if text::same_text(fields[i].0.as_str(), k) {
                        proof {
                            table::lemma_is_at(all, k@, i as int);
                        }
                        return Some(&fields[i].1);
                    }
                    i += 1;
                }
                proof {
                    table::lemma_at(all, k@);
                }
                None
            },
            _ => None,
        }
    }

    pub fn as_str(&self) -> (r: Option<&str>)
        ensures
            match r {
                Some(s) => str_of(Some(self@)) == Some(s@),
                None => str_of(Some(self@)) is None,
            },
    {
        match self {
            Json::Str(s) => Some(s.as_str()),
            _ => None,
        }
    }

    pub fn as_u64(&self) -> (r: Option<u64>)
        ensures
            r == uint_of(Some(self@)),
    {
        match self {
            Json::UInt(n) => Some(*n),
            _ => None,
        }
    }

    pub fn as_bool(&self) -> (r: Option<bool>)
        ensures
            r == bool_of(Some(self@)),
    {
        match self {
            Json::Bool(b) => Some(*b),
            _ => None,
        }
    }

    pub fn as_array(&self) -> (r: Option<&Vec<Json>>)
        ensures
            match r {
                Some(v) => items_of(Some(self@)) == Some(views(v@)),
                None => items_of(Some(self@)) is None,
            },
    {
        match self {
            Json::Arr(v) => {
                assert(self@->Arr_0 =~= views(v@));
                Some(v)
            },
            _ => None,
        }
    }

    /// The text under the key `k`.
    pub fn str_at(&self, k: &str) -> (r: Option<&str>)
        ensures
            match r {
                Some(s) => str_of(field(self@, k@)) == Some(s@),
                None => str_of(field(self@, k@)) is None,
            },
    {
        match self.get(k) {
            Some(j) => j.as_str(),
            None => None,
        }
    }

    /// The number under the key `k`.
    pub fn u64_at(&self, k: &str) -> (r: Option<u64>)
        ensures
            r == uint_of(field(self@, k@)),
    {
        match self.get(k) {
            Some(j) => j.as_u64(),
            None => None,
        }
    }

    /// The array under the key `k`.
    pub fn array_at(&self, k: &str) -> (r: Option<&Vec<Json>>)
        ensures
            match r {
                Some(v) => items_of(field(self@, k@)) == Some(views(v@)),
                None => items_of(field(self@, k@)) is None,
            },
    {
        match self.get(k) {
            Some(j) => j.as_array(),
            None => None,
        }
    }

    /// Set the field `k` of an object.
    pub fn set(&mut self, k: &str, w: Json)
        ensures
            final(self)@ == with_field(old(self)@, k@, w@),
    {
        let ghost before = self@;
        match self {
            Json::Obj(fields) => {
                let ghost all = before->Obj_0;
                let ghost was = fields@;
                proof {
                    table::lemma_at(all, k@);
                }
                let mut i: usize = 0;
                while i < fields.len() && !text::same_text(fields[i].0.as_str(), k)
                    invariant
                        i <= fields@.len(),
                        fields@ == was,
                        all.len() == was.len(),
                        forall|j: int|
                            0 <= j < was.len() ==> #[trigger] all[j] == (was[j].0@, was[j].1@),
                        forall|j: int| 0 <= j < i ==> (#[trigger] all[j]).0 != k@,
                        after_borrow(*self) == Json::Obj(*final(fields)),
                    decreases fields@.len() - i,
                {
                    assert(all[i as int].0 == was[i as int].0@);
                    i += 1;
                }
                let entry = (text::owned(k), w);
                if i < fields.len() {
                    proof {
                        assert(all[i as int].0 == was[i as int].0@);
                        table::lemma_is_at(all, k@, i as int);
                    }
                    fields.set(i, entry);
                } else {
                    fields.push(entry);
                }
                proof {
                    let now = Json::Obj(*fields)@->Obj_0;
                    assert(now =~= table::put(all, k@, w@));
                }
            },
            _ => {},
        }
    }

    /// A copy of the document.
    pub fn dup(&self) -> (r: Json)
        ensures
            r@ == self@,
        decreases self,
    {
        match self {
            Json::Null => Json::Null,
            Json::Bool(b) => Json::Bool(*b),
            Json::UInt(n) => Json::UInt(*n),
            Json::Num(n) => Json::Num(n.dup()),
            Json::Str(s) => Json::Str(s.clone()),
            Json::Arr(items) => {
                let mut out: Vec<Json> = Vec::new();
                let mut i: usize = 0;
                while i < items.len()
                    invariant
                        i <= items@.len(),
                        *self == Json::Arr(*items),
                        out@.len() == i,
                        forall|j: int| 0 <= j < i ==> (#[trigger] out@[j])@ == items@[j]@,
                    decreases items@.len() - i,
                {
                    proof {
                        assert(self->Arr_0 == *items);
                        assert(decreases_to!(*self => self->Arr_0));
                        assert(decreases_to!(*items => items@));
                        assert(decreases_to!(items@ => items@[i as int]));
                    }
                    out.push(items[i].dup());
                    i += 1;
                }
                let r = Json::Arr(out);
                assert(r@->Arr_0 =~= self@->Arr_0);
                r
            },
            Json::Obj(fields) => {
                let mut out: Vec<(String, Json)> = Vec::new();
                let mut i: usize = 0;
                while i < fields.len()
                    invariant
                        i <= fields@.len(),
                        *self == Json::Obj(*fields),
                        out@.len() == i,
                        forall|j: int|
                            0 <= j < i ==> (#[trigger] out@[j]).0@ == fields@[j].0@ && out@[j].1@
                                == fields@[j].1@,
                    decreases fields@.len() - i,
                {
                    let key = fields[i].0.clone();
                    proof {
                        assert(self->Obj_0 == *fields);
                        assert(decreases_to!(*self => self->Obj_0));
                        assert(decreases_to!(*fields => fields@));
                        assert(decreases_to!(fields@ => fields@[i as int]));
                        assert(decreases_to!(fields@[i as int] => fields@[i as int].1));
                    }
                    let value = fields[i].1.dup();
                    out.push((key, value));
                    i += 1;
                }
                let r = Json::Obj(out);
                assert(r@->Obj_0 =~= self@->Obj_0);
                r
            },
        }
    }
}

/// The documents in a list.
pub open spec fn views(v: Seq<Json>) -> Seq<JsonView> {
    v.map_values(|j: Json| j@)
}

// --- Documents that serde_json holds -----------------------------------------

/// `serde_json::Value`: a document, as the crate reads and writes it.
#[verifier::external_type_specification]
#[verifier::external_body]
pub struct ExValue(Value);

/// The document that a `serde_json::Value` holds; the fields of an object stand in
/// the order in which the crate walks them.
pub uninterp spec fn held(v: Value) -> JsonView;

/// The document in `raw`, as `serde_json::from_slice` reads it; `None` where `raw`
/// is not one JSON document.
pub uninterp spec fn read(raw: Seq<u8>) -> Option<JsonView>;

/// The text that `serde_json::to_vec` writes for a value that holds `v`.
pub uninterp spec fn text_of(v: JsonView) -> Seq<u8>;

/// A value, one level deep.
pub enum Opened {
    Null,
    Bool(bool),
    UInt(u64),
    Num(OtherNumber),
    Str(String),
    Items(Vec<Value>),
    Fields(Vec<(String, Value)>),
}

/// The documents that values hold.
pub open spec fn held_items(v: Seq<Value>) -> Seq<JsonView> {
    v.map_values(|w: Value| held(w))
}

/// The fields that values hold.
pub open spec fn held_fields(v: Seq<(String, Value)>) -> Seq<(Seq<char>, JsonView)> {
    v.map_values(|f: (String, Value)| (f.0@, held(f.1)))
}

/// The document that a value holds, told by its first level.
pub open spec fn opened_view(o: Opened) -> JsonView {
    match o {
        Opened::Null => JsonView::Null,
        Opened::Bool(b) => JsonView::Bool(b),
        Opened::UInt(n) => JsonView::UInt(n),
        Opened::Num(n) => JsonView::Num(n.number()),
        Opened::Str(s) => JsonView::Str(s@),
        Opened::Items(items) => JsonView::Arr(held_items(items@)),
        Opened::Fields(fields) => JsonView::Obj(held_fields(fields@)),
    }
}

/// The keys of an object, in order.
pub open spec fn keys_of(fields: Seq<(Seq<char>, JsonView)>) -> Seq<Seq<char>> {
    fields.map_values(|f: (Seq<char>, JsonView)| f.0)
}

/// Calls `serde_json::from_slice` to read one document. Whether `raw` is JSON, and
/// what it holds, is a function of the bytes alone.
#[verifier::external_body]
fn read_value(raw: &[u8]) -> (r: Option<Value>)
    ensures
        match r {
            Some(v) => read(raw@) == Some(held(v)),
            None => read(raw@) is None,
        },
{
    serde_json::from_slice(raw).ok()
}

/// Calls `serde_json::to_vec`, which cannot fail on a `Value`: its keys are texts.
/// What it writes is a function of the document alone.
#[verifier::external_body]
fn write_value(v: &Value) -> (r: Vec<u8>)
    ensures
        r@ == text_of(held(*v)),
{
    serde_json::to_vec(v).unwrap_or_default()
}

/// Takes a `serde_json::Value` apart by its variants; a number that
/// `Number::as_u64` can tell is given as that integer, every other one as it is.
#[verifier::external_body]
fn open_value(v: Value) -> (r: Opened)
    ensures
        held(v) == opened_view(r),
{
    match v {
        Value::Null => Opened::Null,
        Value::Bool(b) => Opened::Bool(b),
        Value::Number(n) => n.as_u64().map_or(Opened::Num(OtherNumber { n }), Opened::UInt),
        Value::String(s) => Opened::Str(s),
        Value::Array(items) => Opened::Items(items),
        Value::Object(map) => Opened::Fields(map.into_iter().collect()),
    }
}

/// Puts a `serde_json::Value` together, variant by variant. The crate's map walks
/// its fields by their keys, so it holds fields that are in that order as they stand.
#[verifier::external_body]
fn close_value(o: Opened) -> (r: Value)
    requires
        o matches Opened::Fields(fields) ==> text::in_order(keys_of(held_fields(fields@))),
    ensures
        held(r) == opened_view(o),
{
    match o {
        Opened::Null => Value::Null,
        Opened::Bool(b) => Value::Bool(b),
        Opened::UInt(n) => Value::from(n),
        Opened::Num(other) => Value::Number(other.n),
        Opened::Str(s) => Value::String(s),
        Opened::Items(items) => Value::Array(items),
        Opened::Fields(fields) => Value::Object(fields.into_iter().collect()),
    }
}

// --- Reading -----------------------------------------------------------------

fn take_value(v: Value) -> (r: Json)
    ensures
        r@ == held(v),
    decreases held(v),
{
    match open_value(v) {
        Opened::Null => Json::Null,
        Opened::Bool(b) => Json::Bool(b),
        Opened::UInt(n) => Json::UInt(n),
        Opened::Num(n) => Json::Num(n),
        Opened::Str(s) => Json::Str(s),
        Opened::Items(items) => {
            let ghost all = held_items(items@);
            let mut out: Vec<Json> = Vec::new();
            for item in it: items
                invariant
                    it.seq() == items@,
                    all == held_items(items@),
                    held(v) == JsonView::Arr(all),
                    out@.len() == it.index(),
                    forall|j: int| 0 <= j < out@.len() ==> (#[trigger] out@[j])@ == all[j],
            {
                proof {
                    let i = out@.len() as int;
                    assert(held(item) == all[i]);
                    assert(decreases_to!(held(v) => held(v)->Arr_0));
                    assert(decreases_to!(all => all[i]));
                }
                out.push(take_value(item));
            }
            let r = Json::Arr(out);
            assert(r@->Arr_0 =~= all);
            r
        },
        Opened::Fields(fields) => {
            let ghost all = held_fields(fields@);
            let mut out: Vec<(String, Json)> = Vec::new();
            for field in it: fields
                invariant
                    it.seq() == fields@,
                    all == held_fields(fields@),
                    held(v) == JsonView::Obj(all),
                    out@.len() == it.index(),
                    forall|j: int|
                        0 <= j < out@.len() ==> (#[trigger] out@[j]).0@ == all[j].0 && out@[j].1@
                            == all[j].1,
            {
                proof {
                    let i = out@.len() as int;
                    assert((field.0@, held(field.1)) == all[i]);
                    assert(decreases_to!(held(v) => held(v)->Obj_0));
                    assert(decreases_to!(all => all[i]));
                    assert(decreases_to!(all[i] => all[i].1));
                }
                let (key, value) = field;
                out.push((key, take_value(value)));
            }
            let r = Json::Obj(out);
            assert(r@->Obj_0 =~= all);
            r
        },
    }
}

/// Read one JSON document; `None` where `raw` is not one.
pub fn parse(raw: &[u8]) -> (r: Option<Json>)
    ensures
        match r {
            Some(j) => read(raw@) == Some(j@),
            None => read(raw@) is None,
        },
{
    match read_value(raw) {
        Some(v) => Some(take_value(v)),
        None => None,
    }
}

// --- Writing -----------------------------------------------------------------

/// Fields in the order of their keys, with one more put in its place; a field of
/// the same key is replaced.
pub open spec fn filed(
    fields: Seq<(Seq<char>, JsonView)>,
    k: Seq<char>,
    w: JsonView,
) -> Seq<(Seq<char>, JsonView)>
    decreases fields.len(),
{
    if fields.len() == 0 {
        seq![(k, w)]
    } else {
        let last = fields[fields.len() - 1];
        if last.0 == k {
            fields.drop_last().push((k, w))
        } else if text::precedes(last.0, k) {
            fields.push((k, w))
        } else {
            filed(fields.drop_last(), k, w).push(last)
        }
    }
}

/// A document with the fields of its objects in the order of their keys; of several
/// fields under one key the last stays.
pub open spec fn ordered(v: JsonView) -> JsonView
    decreases v,
{
    match v {
        JsonView::Arr(items) => JsonView::Arr(ordered_items(items)),
        JsonView::Obj(fields) => JsonView::Obj(ordered_fields(fields)),
        _ => v,
    }
}

pub open spec fn ordered_items(items: Seq<JsonView>) -> Seq<JsonView>
    decreases items,
{
    if items.len() == 0 {
        Seq::empty()
    } else {
        ordered_items(items.drop_last()).push(ordered(items[items.len() - 1]))
    }
}

pub open spec fn ordered_fields(fields: Seq<(Seq<char>, JsonView)>) -> Seq<(Seq<char>, JsonView)>
    decreases fields,
{
    if fields.len() == 0 {
        Seq::empty()
    } else {
        filed(
            ordered_fields(fields.drop_last()),
            fields[fields.len() - 1].0,
            ordered(fields[fields.len() - 1].1),
        )
    }
}

/// The JSON text of a document.
pub open spec fn written(v: JsonView) -> Seq<u8> {
    text_of(ordered(v))
}

proof fn lemma_filed_in_order(fields: Seq<(Seq<char>, JsonView)>, k: Seq<char>, w: JsonView)
    requires
        text::in_order(keys_of(fields)),
    ensures
        text::in_order(keys_of(filed(fields, k, w))),
        forall|b: Seq<char>|
            text::precedes(k, b) && (forall|i: int|
                0 <= i < fields.len() ==> text::precedes((#[trigger] fields[i]).0, b)) ==> (forall|
                i: int,
            |
                0 <= i < filed(fields, k, w).len() ==> text::precedes(
                    (#[trigger] filed(fields, k, w)[i]).0,
                    b,
                )),
    decreases fields.len(),
{
    let keys = keys_of(fields);
    let after = filed(fields, k, w);
    if fields.len() > 0 {
        let n = fields.len() - 1;
        let last = fields[n];
        let rest = fields.drop_last();
        assert forall|i: int, j: int| 0 <= i < j < rest.len() implies text::precedes(
            #[trigger] keys_of(rest)[i],
            #[trigger] keys_of(rest)[j],
        ) by {
            assert(keys[i] == keys_of(rest)[i] && keys[j] == keys_of(rest)[j]);
        }
        lemma_filed_in_order(rest, k, w);
        text::lemma_order_is_total(last.0, k);
        assert forall|i: int| 0 <= i < rest.len() implies text::precedes(
            (#[trigger] rest[i]).0,
            last.0,
        ) by {
            assert(keys[i] == rest[i].0 && keys[n] == last.0);
        }
        if last.0 == k {
            assert forall|i: int, j: int| 0 <= i < j < after.len() implies text::precedes(
                #[trigger] keys_of(after)[i],
                #[trigger] keys_of(after)[j],
            ) by {
                assert(keys_of(after)[i] == keys[i] && keys_of(after)[j] == keys[j]);
            }
        } else if text::precedes(last.0, k) {
            assert forall|i: int, j: int| 0 <= i < j < after.len() implies text::precedes(
                #[trigger] keys_of(after)[i],
                #[trigger] keys_of(after)[j],
            ) by {
                if j < fields.len() {
                    assert(keys_of(after)[i] == keys[i] && keys_of(after)[j] == keys[j]);
                } else if i < n {
                    assert(keys[i] == rest[i].0);
                    text::lemma_order_is_transitive(keys[i], last.0, k);
                }
            }
        } else {
            let inner = filed(rest, k, w);
            assert forall|i: int, j: int| 0 <= i < j < after.len() implies text::precedes(
                #[trigger] keys_of(after)[i],
                #[trigger] keys_of(after)[j],
            ) by {
                if j < inner.len() {
                    assert(keys_of(after)[i] == keys_of(inner)[i]);
                    assert(keys_of(after)[j] == keys_of(inner)[j]);
                } else {
                    assert(text::precedes(inner[i].0, last.0));
                }
            }
        }
    }
}

proof fn lemma_filed_before(
    front: Seq<(Seq<char>, JsonView)>,
    back: Seq<(Seq<char>, JsonView)>,
    k: Seq<char>,
    w: JsonView,
)
    requires
        forall|i: int| 0 <= i < back.len() ==> text::precedes(k, (#[trigger] back[i]).0),
    ensures
        filed(front + back, k, w) == filed(front, k, w) + back,
    decreases back.len(),
{
    if back.len() == 0 {
        assert(front + back =~= front);
        assert(filed(front, k, w) + back =~= filed(front, k, w));
    } else {
        let rest = back.drop_last();
        let last = back[back.len() - 1];
        assert forall|i: int| 0 <= i < rest.len() implies text::precedes(
            k,
            (#[trigger] rest[i]).0,
        ) by {
            assert(rest[i] == back[i]);
        }
        lemma_filed_before(front, rest, k, w);
        text::lemma_order_is_total(last.0, k);
        assert((front + back).drop_last() =~= front + rest);
        assert(filed(front, k, w) + back =~= (filed(front, k, w) + rest).push(last));
    }
}

/// Put a field in its place.
fn file_field(fields: &mut Vec<(String, Value)>, key: String, value: Value)
    requires
        text::in_order(keys_of(held_fields(old(fields)@))),
    ensures
        held_fields(final(fields)@) == filed(held_fields(old(fields)@), key@, held(value)),
        text::in_order(keys_of(held_fields(final(fields)@))),
{
    let ghost all = held_fields(fields@);
    let ghost entry = (key@, held(value));
    let mut at: usize = fields.len();
    while at > 0 && text::comes_before(key.as_str(), fields[at - 1].0.as_str())
        invariant
            at <= fields@.len(),
            all == held_fields(fields@),
            forall|i: int| at <= i < all.len() ==> text::precedes(key@, (#[trigger] all[i]).0),
        decreases at,
    {
        assert(all[at - 1].0 == fields@[at - 1].0@);
        at -= 1;
    }
    proof {
        let front = all.take(at as int);
        let back = all.skip(at as int);
        assert(front + back =~= all);
        lemma_filed_in_order(all, key@, held(value));
        lemma_filed_before(front, back, key@, held(value));
        if at > 0 {
            assert(all[at - 1].0 == fields@[at - 1].0@);
            assert(front[front.len() - 1] == all[at - 1]);
            text::lemma_order_is_total(key@, all[at - 1].0);
        }
    }
    if at > 0 && text::same_text(fields[at - 1].0.as_str(), key.as_str()) {
        fields.set(at - 1, (key, value));
        assert(held_fields(fields@) =~= all.take(at as int).drop_last().push(entry) + all.skip(
            at as int,
        ));
    } else {
        fields.insert(at, (key, value));
        assert(held_fields(fields@) =~= all.take(at as int).push(entry) + all.skip(at as int));
    }
    assert(held_fields(fields@) == filed(all, entry.0, entry.1));
}

fn to_value(j: &Json) -> (r: Value)
    ensures
        held(r) == ordered(j@),
    decreases j,
{
    let o = match j {
        Json::Null => Opened::Null,
        Json::Bool(b) => Opened::Bool(*b),
        Json::UInt(n) => Opened::UInt(*n),
        Json::Num(n) => Opened::Num(n.dup()),
        Json::Str(s) => Opened::Str(s.clone()),
        Json::Arr(items) => {
            let ghost all = j@->Arr_0;
            let mut out: Vec<Value> = Vec::new();
            let mut i: usize = 0;
            assert(held_items(out@) =~= ordered_items(all.take(0)));
            while i < items.len()
                invariant
                    i <= items@.len(),
                    *j == Json::Arr(*items),
                    all == j@->Arr_0,
                    all.len() == items@.len(),
                    held_items(out@) == ordered_items(all.take(i as int)),
                decreases items@.len() - i,
            {
                proof {
                    assert(j->Arr_0 == *items);
                    assert(decreases_to!(*j => j->Arr_0));
                    assert(decreases_to!(*items => items@));
                    assert(decreases_to!(items@ => items@[i as int]));
                }
                let ghost was = out@;
                out.push(to_value(&items[i]));
                i += 1;
                proof {
                    let t = all.take(i as int);
                    assert(t.drop_last() =~= all.take(i as int - 1));
                    assert(t[t.len() - 1] == items@[i as int - 1]@);
                    assert(held_items(out@) =~= held_items(was).push(ordered(t[t.len() - 1])));
                }
            }
            assert(all.take(all.len() as int) =~= all);
            Opened::Items(out)
        },
        Json::Obj(fields) => {
            let ghost all = j@->Obj_0;
            let mut out: Vec<(String, Value)> = Vec::new();
            let mut i: usize = 0;
            assert(held_fields(out@) =~= ordered_fields(all.take(0)));
            while i < fields.len()
                invariant
                    i <= fields@.len(),
                    *j == Json::Obj(*fields),
                    all == j@->Obj_0,
                    all.len() == fields@.len(),
                    held_fields(out@) == ordered_fields(all.take(i as int)),
                    text::in_order(keys_of(held_fields(out@))),
                decreases fields@.len() - i,
            {
                proof {
                    assert(j->Obj_0 == *fields);
                    assert(decreases_to!(*j => j->Obj_0));
                    assert(decreases_to!(*fields => fields@));
                    assert(decreases_to!(fields@ => fields@[i as int]));
                    assert(decreases_to!(fields@[i as int] => fields@[i as int].1));
                }
                let value = to_value(&fields[i].1);
                file_field(&mut out, fields[i].0.clone(), value);
                i += 1;
                proof {
                    let t = all.take(i as int);
                    assert(t.drop_last() =~= all.take(i as int - 1));
                    assert(t[t.len() - 1] == (
                        fields@[i as int - 1].0@,
                        fields@[i as int - 1].1@,
                    ));
                }
            }
            assert(all.take(all.len() as int) =~= all);
            Opened::Fields(out)
        },
    };
    assert(opened_view(o) == ordered(j@));
    close_value(o)
}

/// Write a document as JSON text.
pub fn render(j: &Json) -> (r: Vec<u8>)
    ensures
        r@ == written(j@),
{
    write_value(&to_value(j))
}

// --- What writing keeps ------------------------------------------------------

proof fn lemma_filed_holds(fields: Seq<(Seq<char>, JsonView)>, k: Seq<char>, w: JsonView)
    requires
        text::in_order(keys_of(fields)),
    ensures
        forall|x: (Seq<char>, JsonView)| #[trigger]
            filed(fields, k, w).contains(x) <==> x == (k, w) || (fields.contains(x) && x.0 != k),
    decreases fields.len(),
{
    let after = filed(fields, k, w);
    let keys = keys_of(fields);
    if fields.len() == 0 {
        assert(after[0] == (k, w));
    } else {
        let n = fields.len() - 1;
        let last = fields[n];
        let rest = fields.drop_last();
        assert forall|i: int, j: int| 0 <= i < j < rest.len() implies text::precedes(
            #[trigger] keys_of(rest)[i],
            #[trigger] keys_of(rest)[j],
        ) by {
            assert(keys[i] == keys_of(rest)[i] && keys[j] == keys_of(rest)[j]);
        }
        lemma_filed_holds(rest, k, w);
        text::lemma_order_is_total(last.0, k);
        assert forall|i: int| 0 <= i < n implies text::precedes((#[trigger] fields[i]).0, last.0) by {
            assert(keys[i] == fields[i].0 && keys[n] == last.0);
        }
        assert forall|x: (Seq<char>, JsonView)| #[trigger]
            after.contains(x) <==> x == (k, w) || (fields.contains(x) && x.0 != k) by {
            lemma_one_more(rest, last, x);
            assert(rest.push(last) =~= fields);
            if last.0 == k {
                lemma_one_more(rest, (k, w), x);
                if rest.contains(x) {
                    let i = choose|i: int| 0 <= i < rest.len() && rest[i] == x;
                    assert(fields[i] == x);
                    text::lemma_order_is_total(x.0, last.0);
                }
            } else if text::precedes(last.0, k) {
                lemma_one_more(fields, (k, w), x);
                if fields.contains(x) {
                    let i = choose|i: int| 0 <= i < fields.len() && fields[i] == x;
                    if i < n {
                        text::lemma_order_is_transitive(fields[i].0, last.0, k);
                    }
                    text::lemma_order_is_total(x.0, k);
                }
            } else {
                lemma_one_more(filed(rest, k, w), last, x);
            }
        }
    }
}

proof fn lemma_one_more<T>(s: Seq<T>, last: T, x: T)
    ensures
        s.push(last).contains(x) <==> s.contains(x) || x == last,
{
    let all = s.push(last);
    assert(all[s.len() as int] == last);
    if s.contains(x) {
        let i = choose|i: int| 0 <= i < s.len() && s[i] == x;
        assert(all[i] == x);
    }
    if all.contains(x) && x != last {
        let i = choose|i: int| 0 <= i < all.len() && all[i] == x;
        assert(s[i] == x);
    }
}

/// Writing a document keeps it: every field of an object is written once, under its name
/// and with its value, in the order of the names, and every item of an array in its place.
pub proof fn law_writing_keeps_every_field(fields: Seq<(Seq<char>, JsonView)>)
    requires
        forall|i: int, j: int|
            0 <= i < j < fields.len() ==> (#[trigger] fields[i]).0 != (#[trigger] fields[j]).0,
    ensures
        ordered(JsonView::Obj(fields)) matches JsonView::Obj(g) && text::in_order(keys_of(g)) && (
        forall|i: int|
            0 <= i < fields.len() ==> g.contains(
                ((#[trigger] fields[i]).0, ordered(fields[i].1)),
            )) && (forall|x: (Seq<char>, JsonView)| #[trigger]
            g.contains(x) ==> exists|i: int|
                0 <= i < fields.len() && x == ((#[trigger] fields[i]).0, ordered(fields[i].1))),
    decreases fields.len(),
{
    reveal_with_fuel(ordered, 2);
    let g = ordered_fields(fields);
    if fields.len() > 0 {
        let n = fields.len() - 1;
        let rest = fields.drop_last();
        assert forall|i: int, j: int| 0 <= i < j < rest.len() implies (#[trigger] rest[i]).0 != (
        #[trigger] rest[j]).0 by {
            assert(rest[i] == fields[i] && rest[j] == fields[j]);
        }
        law_writing_keeps_every_field(rest);
        let f = ordered_fields(rest);
        let k = fields[n].0;
        let w = ordered(fields[n].1);
        lemma_filed_holds(f, k, w);
        lemma_filed_in_order(f, k, w);
        assert forall|i: int| 0 <= i < fields.len() implies g.contains(
            ((#[trigger] fields[i]).0, ordered(fields[i].1)),
        ) by {
            if i < n {
                assert(rest[i] == fields[i]);
                assert(f.contains((rest[i].0, ordered(rest[i].1))));
                assert(fields[i].0 != fields[n].0);
            }
        }
        assert forall|x: (Seq<char>, JsonView)| #[trigger] g.contains(x) implies exists|i: int|
            0 <= i < fields.len() && x == ((#[trigger] fields[i]).0, ordered(fields[i].1)) by {
            if x == (k, w) {
                assert(fields[n].0 == k);
            } else {
                assert(f.contains(x));
                let i = choose|i: int|
                    0 <= i < rest.len() && x == ((#[trigger] rest[i]).0, ordered(rest[i].1));
                assert(fields[i] == rest[i]);
            }
        }
    } else {
        assert(keys_of(g).len() == 0);
    }
}

/// The items of an array are written in their places.
pub proof fn law_writing_keeps_every_item(items: Seq<JsonView>, i: int)
    requires
        0 <= i < items.len(),
    ensures
        ordered(JsonView::Arr(items)) matches JsonView::Arr(g) && g.len() == items.len() && g[i]
            == ordered(items[i]),
    decreases items.len(),
{
    lemma_items_kept(items);
}

proof fn lemma_items_kept(items: Seq<JsonView>)
    ensures
        ordered_items(items).len() == items.len(),
        forall|i: int|
            0 <= i < items.len() ==> #[trigger] ordered_items(items)[i] == ordered(items[i]),
    decreases items.len(),
{
    if items.len() > 0 {
        let rest = items.drop_last();
        lemma_items_kept(rest);
        assert forall|i: int| 0 <= i < items.len() implies #[trigger] ordered_items(items)[i]
            == ordered(items[i]) by {
            if i < rest.len() {
                assert(ordered_items(rest)[i] == ordered(rest[i]));
            }
        }
    }
}

} // verus!
