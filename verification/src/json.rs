//! JSON documents as plain data.
use vstd::prelude::*;

verus! {

/// A JSON document.
#[derive(Debug)]
pub enum Json {
    Null,
    Bool(bool),
    Unsigned(u64),
    Negative(i64),
    /// A number that is no 64-bit integer, as its text.
    Fraction(String),
    Text(String),
    List(Vec<Json>),
    Object(Vec<Member>),
}

/// A member of a JSON object.
#[derive(Debug)]
pub struct Member {
    pub key: String,
    pub value: Json,
}

/// A JSON document, as values. An object is the sequence of its members.
pub enum JsonView {
    Null,
    Bool(bool),
    Integer(int),
    Fraction(Seq<char>),
    Text(Seq<char>),
    List(Seq<JsonView>),
    Object(Seq<MemberView>),
}

/// A member of a JSON object, as values.
pub struct MemberView {
    pub key: Seq<char>,
    pub value: JsonView,
}

/// What a document says.
pub open spec fn json_view(j: Json) -> JsonView
    decreases j,
{
    match j {
        Json::Null => JsonView::Null,
        Json::Bool(b) => JsonView::Bool(b),
        Json::Unsigned(n) => JsonView::Integer(n as int),
        Json::Negative(n) => JsonView::Integer(n as int),
        Json::Fraction(s) => JsonView::Fraction(s@),
        Json::Text(s) => JsonView::Text(s@),
        Json::List(v) => JsonView::List(
            Seq::new(
                v@.len(),
                |i: int|
                    if 0 <= i < v@.len() {
                        json_view(v@[i])
                    } else {
                        arbitrary()
                    },
            ),
        ),
        Json::Object(v) => JsonView::Object(
            Seq::new(
                v@.len(),
                |i: int|
                    if 0 <= i < v@.len() {
                        MemberView { key: v@[i].key@, value: json_view(v@[i].value) }
                    } else {
                        arbitrary()
                    },
            ),
        ),
    }
}

impl View for Json {
    type V = JsonView;

    open spec fn view(&self) -> JsonView {
        json_view(*self)
    }
}

/// The documents of a run of documents.
pub open spec fn json_views(v: Seq<Json>) -> Seq<JsonView> {
    v.map_values(|j: Json| j@)
}

/// The members of a run of members.
pub open spec fn member_views(v: Seq<Member>) -> Seq<MemberView> {
    v.map_values(|m: Member| MemberView { key: m.key@, value: m.value@ })
}

/// A list says what its items say.
pub proof fn lemma_list_view(v: Vec<Json>)
    ensures
        json_view(Json::List(v)) == JsonView::List(json_views(v@)),
{
    let j = Json::List(v);
    assert(json_view(j)->List_0 =~= json_views(v@));
}

/// An object says what its members say.
pub proof fn lemma_object_view(v: Vec<Member>)
    ensures
        json_view(Json::Object(v)) == JsonView::Object(member_views(v@)),
{
    let j = Json::Object(v);
    assert(json_view(j)->Object_0 =~= member_views(v@));
}

/// The members have different keys.
pub open spec fn distinct_keys(s: Seq<MemberView>) -> bool {
    forall|i: int, j: int| 0 <= i < j < s.len() ==> s[i].key != s[j].key
}

/// No object of the document names a key twice.
pub open spec fn sound(j: JsonView) -> bool
    decreases j,
{
    match j {
        JsonView::List(s) => forall|i: int| 0 <= i < s.len() ==> sound(#[trigger] s[i]),
        JsonView::Object(s) => distinct_keys(s) && forall|i: int|
            0 <= i < s.len() ==> sound((#[trigger] s[i]).value),
        _ => true,
    }
}

/// All numbers of the document are integers.
pub open spec fn integral(j: JsonView) -> bool
    decreases j,
{
    match j {
        JsonView::Fraction(_) => false,
        JsonView::List(s) => forall|i: int| 0 <= i < s.len() ==> integral(#[trigger] s[i]),
        JsonView::Object(s) => forall|i: int|
            0 <= i < s.len() ==> integral((#[trigger] s[i]).value),
        _ => true,
    }
}

/// Lists and objects are nested at most `n` deep.
pub open spec fn nested_within(j: JsonView, n: nat) -> bool
    decreases j,
{
    match j {
        JsonView::List(s) => n > 0 && forall|i: int|
            0 <= i < s.len() ==> nested_within(#[trigger] s[i], (n - 1) as nat),
        JsonView::Object(s) => n > 0 && forall|i: int|
            0 <= i < s.len() ==> nested_within((#[trigger] s[i]).value, (n - 1) as nat),
        _ => true,
    }
}

/// What holds of a list holds of its items.
pub proof fn lemma_list_item(s: Seq<JsonView>, i: int)
    requires
        0 <= i < s.len(),
    ensures
        sound(JsonView::List(s)) ==> sound(s[i]),
        integral(JsonView::List(s)) ==> integral(s[i]),
{
    let j = JsonView::List(s);
    assert(j->List_0[i] == s[i]);
}

/// What holds of an object holds of its members.
pub proof fn lemma_object_item(s: Seq<MemberView>, i: int)
    requires
        0 <= i < s.len(),
    ensures
        sound(JsonView::Object(s)) ==> distinct_keys(s) && sound(s[i].value),
        integral(JsonView::Object(s)) ==> integral(s[i].value),
{
    let j = JsonView::Object(s);
    assert(j->Object_0[i] == s[i]);
}

/// The view of a document says what the document holds, part by part.
pub proof fn law_json_view(j: Json)
    ensures
        j matches Json::Null ==> j@ == JsonView::Null,
        j matches Json::Bool(b) ==> j@ == JsonView::Bool(b),
        j matches Json::Unsigned(n) ==> j@ == JsonView::Integer(n as int),
        j matches Json::Negative(n) ==> j@ == JsonView::Integer(n as int),
        j matches Json::Fraction(s) ==> j@ == JsonView::Fraction(s@),
        j matches Json::Text(s) ==> j@ == JsonView::Text(s@),
        j matches Json::List(v) ==> {
            &&& j@ is List
            &&& j@->List_0.len() == v@.len()
            &&& forall|i: int| 0 <= i < v@.len() ==> #[trigger] j@->List_0[i] == v@[i]@
        },
        j matches Json::Object(v) ==> {
            &&& j@ is Object
            &&& j@->Object_0.len() == v@.len()
            &&& forall|i: int|
                0 <= i < v@.len() ==> (#[trigger] j@->Object_0[i]).key == v@[i].key@
                    && j@->Object_0[i].value == v@[i].value@
        },
{
}

/// A document is sound where no object names a key twice, at any depth.
pub proof fn law_sound(v: JsonView)
    ensures
        !(v is List) && !(v is Object) ==> sound(v),
        v matches JsonView::List(s) ==> (sound(v) <==> forall|i: int|
            0 <= i < s.len() ==> sound(#[trigger] s[i])),
        v matches JsonView::Object(s) ==> (sound(v) <==> (forall|i: int|
            0 <= i < s.len() ==> sound((#[trigger] s[i]).value)) && forall|i: int, j: int|
            0 <= i < j < s.len() ==> (#[trigger] s[i]).key != (#[trigger] s[j]).key),
{
}

/// A document is integral where it holds no fraction, at any depth.
pub proof fn law_integral(v: JsonView)
    ensures
        !(v is List) && !(v is Object) ==> (integral(v) <==> !(v is Fraction)),
        v matches JsonView::List(s) ==> (integral(v) <==> forall|i: int|
            0 <= i < s.len() ==> integral(#[trigger] s[i])),
        v matches JsonView::Object(s) ==> (integral(v) <==> forall|i: int|
            0 <= i < s.len() ==> integral((#[trigger] s[i]).value)),
{
}

/// A list or an object is nested one deeper than its parts, and nothing else is
/// nested at all.
pub proof fn law_nested(v: JsonView, n: nat)
    ensures
        !(v is List) && !(v is Object) ==> nested_within(v, n),
        v is List || v is Object ==> !nested_within(v, 0),
        v matches JsonView::List(s) ==> (nested_within(v, n + 1) <==> forall|i: int|
            0 <= i < s.len() ==> nested_within(#[trigger] s[i], n)),
        v matches JsonView::Object(s) ==> (nested_within(v, n + 1) <==> forall|i: int|
            0 <= i < s.len() ==> nested_within((#[trigger] s[i]).value, n)),
{
}

} // verus!
