//! JSON text, through `serde_json`.
//!
//! The functions here that are not verified hand their arguments to `serde_json`
//! and hand its answers back; what they promise of it is said above each of them.
use vstd::prelude::*;
use crate::json::{
    distinct_keys, integral, json_views, lemma_list_item, lemma_list_view, lemma_object_item,
    lemma_object_view, member_views, nested_within, sound, Json, JsonView, Member, MemberView,
};

verus! {

/// A parsed document of `serde_json`.
#[verifier::external_type_specification]
#[verifier::external_body]
pub struct ExValue(serde_json::Value);

/// What a `serde_json::Value` holds.
pub uninterp spec fn value_contents(v: serde_json::Value) -> JsonView;

/// What `serde_json::from_str` makes of a text: a document, or a message.
pub uninterp spec fn json_read(text: Seq<char>) -> Result<JsonView, Seq<char>>;

/// What `serde_json::to_string` writes for a document.
pub uninterp spec fn json_compact(doc: JsonView) -> Seq<char>;

/// What `serde_json::to_string_pretty` writes for a document.
pub uninterp spec fn json_pretty(doc: JsonView) -> Seq<char>;

/// The text is JSON, and reads as the document.
pub open spec fn reads_as(text: Seq<char>, doc: JsonView) -> bool {
    json_read(text) == Ok::<JsonView, Seq<char>>(doc)
}

/// One level of a `serde_json::Value`.
enum Opened<'a> {
    Null,
    Bool(bool),
    Unsigned(u64),
    Negative(i64),
    Fraction(String),
    Text(&'a String),
    List(&'a Vec<serde_json::Value>),
    Object(Vec<(&'a String, &'a serde_json::Value)>),
}

/// The documents of a run of values.
spec fn value_views(v: Seq<serde_json::Value>) -> Seq<JsonView> {
    v.map_values(|x: serde_json::Value| value_contents(x))
}

/// The members of a run of keys and values.
spec fn pair_views(v: Seq<(&String, &serde_json::Value)>) -> Seq<MemberView> {
    v.map_values(
        |x: (&String, &serde_json::Value)|
            MemberView { key: x.0@, value: value_contents(*x.1) },
    )
}

/// The members of a run of owned keys and values.
spec fn owned_views(v: Seq<(String, serde_json::Value)>) -> Seq<MemberView> {
    v.map_values(
        |x: (String, serde_json::Value)|
            MemberView { key: x.0@, value: value_contents(x.1) },
    )
}

/// What one level of a value says.
spec fn opened_view(o: Opened) -> JsonView {
    match o {
        Opened::Null => JsonView::Null,
        Opened::Bool(b) => JsonView::Bool(b),
        Opened::Unsigned(n) => JsonView::Integer(n as int),
        Opened::Negative(n) => JsonView::Integer(n as int),
        Opened::Fraction(s) => JsonView::Fraction(s@),
        Opened::Text(s) => JsonView::Text(s@),
        Opened::List(v) => JsonView::List(value_views(v@)),
        Opened::Object(v) => JsonView::Object(pair_views(v@)),
    }
}

/// `serde_json::from_str` into a `Value`: a document, or the text of the error.
/// What it makes of a text depends on the text alone.
#[verifier::external_body]
fn read_value(text: &str) -> (r: Result<serde_json::Value, String>)
    ensures
        match r {
            Ok(v) => reads_as(text@, value_contents(v)),
            Err(m) => json_read(text@) == Err::<JsonView, Seq<char>>(m@),
        },
{
    match serde_json::from_str::<serde_json::Value>(text) {
        Ok(v) => Ok(v),
        Err(e) => Err(e.to_string()),
    }
}

/// The variants of `serde_json::Value`, and of the number in it: one level of what
/// it holds. An integer that does not fit 64 bits, or a fraction, is given as the text that
/// `Number` prints. An object has each key once.
#[verifier::external_body]
fn open_value<'a>(v: &'a serde_json::Value) -> (r: Opened<'a>)
    ensures
        value_contents(*v) == opened_view(r),
        match r {
            Opened::Object(s) => distinct_keys(pair_views(s@)),
            _ => true,
        },
{
    match v {
        serde_json::Value::Null => Opened::Null,
        serde_json::Value::Bool(b) => Opened::Bool(*b),
        serde_json::Value::Number(n) => match (n.as_u64(), n.as_i64()) {
            (Some(u), _) => Opened::Unsigned(u),
            (None, Some(i)) => Opened::Negative(i),
            (None, None) => Opened::Fraction(n.to_string()),
        },
        serde_json::Value::String(s) => Opened::Text(s),
        serde_json::Value::Array(a) => Opened::List(a),
        serde_json::Value::Object(m) => Opened::Object(m.iter().collect()),
    }
}

/// One level of a `serde_json::Value` to be made.
enum Parts {
    Null,
    Bool(bool),
    Unsigned(u64),
    Negative(i64),
    Text(String),
    List(Vec<serde_json::Value>),
    Object(Vec<(String, serde_json::Value)>),
}

/// What the parts say.
spec fn parts_view(p: Parts) -> JsonView {
    match p {
        Parts::Null => JsonView::Null,
        Parts::Bool(b) => JsonView::Bool(b),
        Parts::Unsigned(n) => JsonView::Integer(n as int),
        Parts::Negative(n) => JsonView::Integer(n as int),
        Parts::Text(s) => JsonView::Text(s@),
        Parts::List(v) => JsonView::List(value_views(v@)),
        Parts::Object(v) => JsonView::Object(owned_views(v@)),
    }
}

/// The constructors of `serde_json::Value`: a value that holds the parts. Members
/// of an object with different keys stay in their order.
#[verifier::external_body]
fn close_value(p: Parts) -> (r: serde_json::Value)
    requires
        match p {
            Parts::Object(v) => distinct_keys(owned_views(v@)),
            _ => true,
        },
    ensures
        value_contents(r) == parts_view(p),
{
    match p {
        Parts::Null => serde_json::Value::Null,
        Parts::Bool(b) => serde_json::Value::Bool(b),
        Parts::Unsigned(n) => serde_json::Value::from(n),
        Parts::Negative(n) => serde_json::Value::from(n),
        Parts::Text(s) => serde_json::Value::String(s),
        Parts::List(v) => serde_json::Value::Array(v),
        Parts::Object(v) => serde_json::Value::Object(v.into_iter().collect()),
    }
}

/// The deepest nesting of lists and objects that `serde_json` reads.
pub const MAX_NESTING: usize = 127;

/// `serde_json::to_string` on a `Value`: what it writes depends on the document
/// alone, and is one line. `serde_json::from_str` reads the document back, unless it is
/// nested too deep or holds a fraction, of whose digits nothing is said.
#[verifier::external_body]
fn compact_text(v: &serde_json::Value) -> (r: String)
    ensures
        r@ == json_compact(value_contents(*v)),
        !r@.contains('\n'),
        integral(value_contents(*v)) && nested_within(value_contents(*v), MAX_NESTING as nat)
            ==> reads_as(r@, value_contents(*v)),
{
    serde_json::to_string(v).unwrap()
}

/// `serde_json::to_string_pretty` on a `Value`: what it writes depends on the
/// document alone, and an object with members takes several lines.
/// `serde_json::from_str` reads the document back, unless it is nested too deep or holds a
/// fraction, of whose digits nothing is said.
#[verifier::external_body]
fn pretty_text(v: &serde_json::Value) -> (r: String)
    ensures
        r@ == json_pretty(value_contents(*v)),
        value_contents(*v) matches JsonView::Object(s) ==> s.len() > 0 ==> r@.contains('\n'),
        integral(value_contents(*v)) && nested_within(value_contents(*v), MAX_NESTING as nat)
            ==> reads_as(r@, value_contents(*v)),
{
    serde_json::to_string_pretty(v).unwrap()
}

// ---------------------------------------------------------------------------
// Documents and values
// ---------------------------------------------------------------------------

/// The document that a value holds.
fn from_value(v: &serde_json::Value) -> (r: Json)
    ensures
        r@ == value_contents(*v),
        sound(r@),
    decreases value_contents(*v),
{
    match open_value(v) {
        Opened::Null => Json::Null,
        Opened::Bool(b) => Json::Bool(b),
        Opened::Unsigned(n) => Json::Unsigned(n),
        Opened::Negative(n) => Json::Negative(n),
        Opened::Fraction(s) => Json::Fraction(s),
        Opened::Text(s) => Json::Text(s.clone()),
        Opened::List(items) => {
            let ghost whole = value_contents(*v);
            let mut list: Vec<Json> = Vec::new();
            let mut i: usize = 0;
            while i < items.len()
                invariant
                    i <= items.len(),
                    whole == value_contents(*v),
                    whole == JsonView::List(value_views(items@)),
                    list@.len() == i,
                    forall|k: int|
                        0 <= k < i ==> (#[trigger] list@[k])@ == value_contents(items@[k])
                            && sound(list@[k]@),
                decreases items.len() - i,
            {
                proof {
                    assert(value_views(items@)[i as int] == value_contents(items@[i as int]));
                    assert(decreases_to!(whole => whole->List_0));
                    assert(decreases_to!(whole->List_0 => whole->List_0[i as int]));
                }
                list.push(from_value(&items[i]));
                i += 1;
            }
            proof {
                lemma_list_view(list);
                assert(json_views(list@) =~= value_views(items@));
                assert forall|k: int| 0 <= k < list@.len() implies sound(
                    #[trigger] json_views(list@)[k],
                ) by {
                    assert(sound(list@[k]@));
                }
            }
            Json::List(list)
        },
        Opened::Object(items) => {
            let ghost whole = value_contents(*v);
            let mut list: Vec<Member> = Vec::new();
            let mut i: usize = 0;
            while i < items.len()
                invariant
                    i <= items.len(),
                    whole == value_contents(*v),
                    whole == JsonView::Object(pair_views(items@)),
                    list@.len() == i,
                    forall|k: int|
                        0 <= k < i ==> (#[trigger] list@[k]).key@ == items@[k].0@
                            && list@[k].value@ == value_contents(*items@[k].1) && sound(
                            list@[k].value@,
                        ),
                decreases items.len() - i,
            {
                proof {
                    assert(pair_views(items@)[i as int].value == value_contents(
                        *items@[i as int].1,
                    ));
                    assert(decreases_to!(whole => whole->Object_0));
                    assert(decreases_to!(whole->Object_0 => whole->Object_0[i as int]));
                    assert(decreases_to!(
                        whole->Object_0[i as int] => whole->Object_0[i as int].value
                    ));
                }
                let value = from_value(items[i].1);
                list.push(Member { key: items[i].0.clone(), value });
                i += 1;
            }
            proof {
                lemma_object_view(list);
                assert(member_views(list@) =~= pair_views(items@));
                assert forall|k: int| 0 <= k < list@.len() implies sound(
                    (#[trigger] member_views(list@)[k]).value,
                ) by {
                    assert(sound(list@[k].value@));
                }
            }
            Json::Object(list)
        },
    }
}

/// A value that holds the document.
fn to_value(j: &Json) -> (r: serde_json::Value)
    requires
        integral(j@),
        sound(j@),
    ensures
        value_contents(r) == j@,
    decreases j,
{
    match j {
        Json::Null => close_value(Parts::Null),
        Json::Bool(b) => close_value(Parts::Bool(*b)),
        Json::Unsigned(n) => close_value(Parts::Unsigned(*n)),
        Json::Negative(n) => close_value(Parts::Negative(*n)),
        // No fraction is integral.
        Json::Fraction(_) => close_value(Parts::Null),
        Json::Text(s) => close_value(Parts::Text(s.clone())),
        Json::List(items) => {
            proof {
                lemma_list_view(*items);
            }
            let mut list: Vec<serde_json::Value> = Vec::new();
            let mut i: usize = 0;
            while i < items.len()
                invariant
                    i <= items.len(),
                    *j == Json::List(*items),
                    j@ == JsonView::List(json_views(items@)),
                    integral(j@),
                    sound(j@),
                    list@.len() == i,
                    forall|k: int|
                        0 <= k < i ==> value_contents(#[trigger] list@[k]) == items@[k]@,
                decreases items.len() - i,
            {
                proof {
                    assert(json_views(items@)[i as int] == items@[i as int]@);
                    lemma_list_item(json_views(items@), i as int);
                }
                list.push(to_value(&items[i]));
                i += 1;
            }
            assert(value_views(list@) =~= json_views(items@));
            close_value(Parts::List(list))
        },
        Json::Object(items) => {
            proof {
                lemma_object_view(*items);
            }
            let mut list: Vec<(String, serde_json::Value)> = Vec::new();
            let mut i: usize = 0;
            while i < items.len()
                invariant
                    i <= items.len(),
                    *j == Json::Object(*items),
                    j@ == JsonView::Object(member_views(items@)),
                    integral(j@),
                    sound(j@),
                    list@.len() == i,
                    forall|k: int|
                        0 <= k < i ==> (#[trigger] list@[k]).0@ == items@[k].key@
                            && value_contents(list@[k].1) == items@[k].value@,
                decreases items.len() - i,
            {
                proof {
                    assert(member_views(items@)[i as int].value == items@[i as int].value@);
                    lemma_object_item(member_views(items@), i as int);
                }
                list.push((items[i].key.clone(), to_value(&items[i].value)));
                i += 1;
            }
            assert(owned_views(list@) =~= member_views(items@));
            close_value(Parts::Object(list))
        },
    }
}

// ---------------------------------------------------------------------------
// Documents and text
// ---------------------------------------------------------------------------

/// Reads a document, or says what is wrong with the text.
pub fn read_json(text: &str) -> (r: Result<Json, String>)
    ensures
        match r {
            Ok(j) => reads_as(text@, j@) && sound(j@),
            Err(m) => json_read(text@) == Err::<JsonView, Seq<char>>(m@),
        },
{
    match read_value(text) {
        Ok(v) => Ok(from_value(&v)),
        Err(m) => Err(m),
    }
}

/// Writes a document, indented or not. Reading the text gives the document back.
pub fn write_json(doc: &Json, pretty: bool) -> (r: String)
    requires
        integral(doc@),
        sound(doc@),
    ensures
        r@ == if pretty {
            json_pretty(doc@)
        } else {
            json_compact(doc@)
        },
        !pretty ==> !r@.contains('\n'),
        pretty ==> (doc@ matches JsonView::Object(s) ==> s.len() > 0 ==> r@.contains('\n')),
        nested_within(doc@, MAX_NESTING as nat) ==> reads_as(r@, doc@),
{
    let v = to_value(doc);
    if pretty {
        pretty_text(&v)
    } else {
        compact_text(&v)
    }
}

/// A text reads as the document that the reader makes of it, and as no other.
pub proof fn law_reads_as(text: Seq<char>, doc: JsonView)
    ensures
        reads_as(text, doc) <==> json_read(text) is Ok && json_read(text)->Ok_0 == doc,
{
}

/// One level of a value says what its parts say: numbers and strings as they are,
/// items and members one for one and in order.
proof fn law_opened(o: Opened)
    ensures
        o matches Opened::Null ==> opened_view(o) == JsonView::Null,
        o matches Opened::Bool(b) ==> opened_view(o) == JsonView::Bool(b),
        o matches Opened::Unsigned(n) ==> opened_view(o) == JsonView::Integer(n as int),
        o matches Opened::Negative(n) ==> opened_view(o) == JsonView::Integer(n as int),
        o matches Opened::Fraction(s) ==> opened_view(o) == JsonView::Fraction(s@),
        o matches Opened::Text(s) ==> opened_view(o) == JsonView::Text(s@),
        o matches Opened::List(v) ==> {
            let s = opened_view(o)->List_0;
            &&& opened_view(o) is List
            &&& s.len() == v@.len()
            &&& forall|i: int| 0 <= i < s.len() ==> #[trigger] s[i] == value_contents(v@[i])
        },
        o matches Opened::Object(v) ==> {
            let s = opened_view(o)->Object_0;
            &&& opened_view(o) is Object
            &&& s.len() == v@.len()
            &&& forall|i: int|
                0 <= i < s.len() ==> (#[trigger] s[i]).key == v@[i].0@ && s[i].value
                    == value_contents(*v@[i].1)
        },
{
}

/// Parts say what they hold: numbers and strings as they are, items and members one
/// for one and in order.
proof fn law_parts(p: Parts)
    ensures
        p matches Parts::Null ==> parts_view(p) == JsonView::Null,
        p matches Parts::Bool(b) ==> parts_view(p) == JsonView::Bool(b),
        p matches Parts::Unsigned(n) ==> parts_view(p) == JsonView::Integer(n as int),
        p matches Parts::Negative(n) ==> parts_view(p) == JsonView::Integer(n as int),
        p matches Parts::Text(s) ==> parts_view(p) == JsonView::Text(s@),
        p matches Parts::List(v) ==> {
            let s = parts_view(p)->List_0;
            &&& parts_view(p) is List
            &&& s.len() == v@.len()
            &&& forall|i: int| 0 <= i < s.len() ==> #[trigger] s[i] == value_contents(v@[i])
        },
        p matches Parts::Object(v) ==> {
            let s = parts_view(p)->Object_0;
            &&& parts_view(p) is Object
            &&& s.len() == v@.len()
            &&& forall|i: int|
                0 <= i < s.len() ==> (#[trigger] s[i]).key == v@[i].0@ && s[i].value
                    == value_contents(v@[i].1)
        },
{
}

} // verus!
