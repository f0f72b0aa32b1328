//! The input format: which documents describe layers, and which are refused.
//!
//! An input is an object with the member `layers`, a list of objects; each of these
//! has up to four lists of strings. An object is examined member by member in key order.
use vstd::prelude::*;
use crate::json::{
    distinct_keys, json_views, lemma_list_item, lemma_list_view, lemma_object_item,
    lemma_object_view, member_views, sound, Json, JsonView, Member, MemberView,
};
use crate::path::{
    lemma_lt_asymmetric, lemma_lt_total, lemma_lt_transitive, path_lt, paths, rank, same, Path,
    Rank,
};
use crate::text::{decimal, decimal_text, join3};
use crate::types::{layer_views, text_view, LayerInput, LayerView};

verus! {

// ---------------------------------------------------------------------------
// What documents mean
// ---------------------------------------------------------------------------

/// What `{:?}` writes for a string: the string in quotes, with escapes.
pub uninterp spec fn quoted(s: Seq<char>) -> Seq<char>;

/// The decimal numeral of an integer.
pub open spec fn integer_text(n: int) -> Seq<char> {
    if n < 0 {
        "-"@ + decimal((-n) as nat)
    } else {
        decimal(n as nat)
    }
}

/// What a document is, in words.
pub open spec fn kind_text(v: JsonView) -> Seq<char> {
    match v {
        JsonView::Null => "null"@,
        JsonView::Bool(true) => "boolean `true`"@,
        JsonView::Bool(false) => "boolean `false`"@,
        JsonView::Integer(n) => "integer `"@ + integer_text(n) + "`"@,
        JsonView::Fraction(t) => "floating point `"@ + t + "`"@,
        JsonView::Text(s) => "string "@ + quoted(s),
        JsonView::List(_) => "sequence"@,
        JsonView::Object(_) => "map"@,
    }
}

/// The message for a document of the wrong type.
pub open spec fn mismatch(v: JsonView, expected: Seq<char>) -> Seq<char> {
    "invalid type: "@ + kind_text(v) + (", expected "@ + expected)
}

/// The message for a member that should not be there.
pub open spec fn unknown_field(key: Seq<char>, expected: Seq<char>) -> Seq<char> {
    "unknown field `"@ + key + ("`, expected "@ + expected)
}

/// The strings that the items are, or what is wrong with the first that is none.
pub open spec fn texts(s: Seq<JsonView>) -> Result<Seq<Path>, Seq<char>>
    decreases s.len(),
{
    if s.len() == 0 {
        Ok(Seq::empty())
    } else {
        match texts(s.drop_last()) {
            Err(m) => Err(m),
            Ok(t) => match s.last() {
                JsonView::Text(x) => Ok(t.push(x)),
                other => Err(mismatch(other, "a string"@)),
            },
        }
    }
}

/// The list of strings that a document is.
pub open spec fn decode_strings(v: JsonView) -> Result<Seq<Path>, Seq<char>> {
    match v {
        JsonView::List(s) => texts(s),
        _ => Err(mismatch(v, "a sequence"@)),
    }
}

/// Member `i` is the first one, in key order, with a fault.
pub open spec fn leads(s: Seq<MemberView>, faults: Seq<Option<Seq<char>>>, i: int) -> bool {
    &&& 0 <= i < s.len()
    &&& faults[i] is Some
    &&& forall|j: int|
        0 <= j < s.len() && j != i && (#[trigger] faults[j]) is Some ==> path_lt(
            s[i].key,
            s[j].key,
        )
}

/// The fault of the first faulty member, in key order.
pub open spec fn first_fault(s: Seq<MemberView>, faults: Seq<Option<Seq<char>>>) -> Option<
    Seq<char>,
> {
    if exists|i: int| leads(s, faults, i) {
        faults[choose|i: int| leads(s, faults, i)]
    } else {
        None
    }
}

/// The member `i` has the key.
pub open spec fn keyed(s: Seq<MemberView>, key: Seq<char>, i: int) -> bool {
    0 <= i < s.len() && s[i].key == key
}

/// The value of the member with the key.
pub open spec fn field(s: Seq<MemberView>, key: Seq<char>) -> Option<JsonView> {
    if exists|i: int| keyed(s, key, i) {
        Some(s[choose|i: int| keyed(s, key, i)].value)
    } else {
        None
    }
}

/// The strings of a field, none where the field is missing.
pub open spec fn field_strings(s: Seq<MemberView>, key: Seq<char>) -> Seq<Path> {
    match field(s, key) {
        Some(v) => decode_strings(v)->Ok_0,
        None => Seq::empty(),
    }
}

/// What is wrong with a member of a layer.
pub open spec fn layer_fault(m: MemberView) -> Option<Seq<char>> {
    if m.key == "writes"@ || m.key == "mkdirs"@ || m.key == "whiteouts"@ || m.key == "opaques"@ {
        match decode_strings(m.value) {
            Err(e) => Some(e),
            Ok(_) => None,
        }
    } else {
        Some(
            unknown_field(m.key, "one of `writes`, `mkdirs`, `whiteouts`, `opaques`"@),
        )
    }
}

/// What is wrong with the members of a layer.
pub open spec fn layer_faults(s: Seq<MemberView>) -> Seq<Option<Seq<char>>> {
    s.map_values(|m: MemberView| layer_fault(m))
}

/// The layer that a document describes.
pub open spec fn decode_layer(v: JsonView) -> Result<LayerView, Seq<char>> {
    match v {
        JsonView::Object(s) => match first_fault(s, layer_faults(s)) {
            Some(m) => Err(m),
            None => Ok(
                LayerView {
                    writes: field_strings(s, "writes"@),
                    mkdirs: field_strings(s, "mkdirs"@),
                    whiteouts: field_strings(s, "whiteouts"@),
                    opaques: field_strings(s, "opaques"@),
                },
            ),
        },
        _ => Err(mismatch(v, "struct LayerInput"@)),
    }
}

/// The layers that the items describe, or what is wrong with the first that
/// describes none.
pub open spec fn layers_of(s: Seq<JsonView>) -> Result<Seq<LayerView>, Seq<char>>
    decreases s.len(),
{
    if s.len() == 0 {
        Ok(Seq::empty())
    } else {
        match layers_of(s.drop_last()) {
            Err(m) => Err(m),
            Ok(t) => match decode_layer(s.last()) {
                Ok(x) => Ok(t.push(x)),
                Err(m) => Err(m),
            },
        }
    }
}

/// The list of layers that a document describes.
pub open spec fn decode_layers(v: JsonView) -> Result<Seq<LayerView>, Seq<char>> {
    match v {
        JsonView::List(s) => layers_of(s),
        _ => Err(mismatch(v, "a sequence"@)),
    }
}

/// What is wrong with a member of an input.
pub open spec fn input_member_fault(m: MemberView) -> Option<Seq<char>> {
    if m.key == "layers"@ {
        match decode_layers(m.value) {
            Err(e) => Some(e),
            Ok(_) => None,
        }
    } else {
        Some(unknown_field(m.key, "`layers`"@))
    }
}

/// What is wrong with the members of an input.
pub open spec fn input_member_faults(s: Seq<MemberView>) -> Seq<Option<Seq<char>>> {
    s.map_values(|m: MemberView| input_member_fault(m))
}

/// The layers that a whole document describes.
pub open spec fn decode_document(v: JsonView) -> Result<Seq<LayerView>, Seq<char>> {
    match v {
        JsonView::Object(s) => match first_fault(s, input_member_faults(s)) {
            Some(m) => Err(m),
            None => match field(s, "layers"@) {
                Some(x) => decode_layers(x),
                None => Err("missing field `layers`"@),
            },
        },
        _ => Err(mismatch(v, "struct Input"@)),
    }
}

// ---------------------------------------------------------------------------
// Messages
// ---------------------------------------------------------------------------

/// `format!` with `{:?}` on a string: what it writes depends on the string alone.
#[verifier::external_body]
fn quote(s: &str) -> (r: String)
    ensures
        r@ == quoted(s@),
{
    format!("{:?}", s)
}

/// Says what a document is.
fn describe(v: &Json) -> (r: String)
    ensures
        r@ == kind_text(v@),
{
    match v {
        Json::Null => "null".to_owned(),
        Json::Bool(true) => "boolean `true`".to_owned(),
        Json::Bool(false) => "boolean `false`".to_owned(),
        Json::Unsigned(n) => join3("integer `", decimal_text(*n as u128).as_str(), "`"),
        Json::Negative(n) => {
            let i: i128 = *n as i128;
            let text = if i < 0 {
                let mut t = "-".to_owned();
                t.append(decimal_text((-i) as u128).as_str());
                t
            } else {
                decimal_text(i as u128)
            };
            join3("integer `", text.as_str(), "`")
        },
        Json::Fraction(t) => join3("floating point `", t.as_str(), "`"),
        Json::Text(s) => {
            let mut t = "string ".to_owned();
            t.append(quote(s.as_str()).as_str());
            t
        },
        Json::List(_) => "sequence".to_owned(),
        Json::Object(_) => "map".to_owned(),
    }
}

/// The message for a document of the wrong type.
fn mismatch_text(v: &Json, expected: &str) -> (r: String)
    ensures
        r@ == mismatch(v@, expected@),
{
    let mut tail = ", expected ".to_owned();
    tail.append(expected);
    join3("invalid type: ", describe(v).as_str(), tail.as_str())
}

/// The message for a member that should not be there.
fn unknown_text(key: &str, expected: &str) -> (r: String)
    ensures
        r@ == unknown_field(key@, expected@),
{
    let mut tail = "`, expected ".to_owned();
    tail.append(expected);
    join3("unknown field `", key, tail.as_str())
}

// ---------------------------------------------------------------------------
// Decoding
// ---------------------------------------------------------------------------

/// The strings or the message of a result.
spec fn strings_outcome(r: Result<Vec<String>, String>) -> Result<Seq<Path>, Seq<char>> {
    match r {
        Ok(v) => Ok(paths(v@)),
        Err(m) => Err(m@),
    }
}

/// The layer or the message of a result.
spec fn layer_outcome(r: Result<LayerInput, String>) -> Result<LayerView, Seq<char>> {
    match r {
        Ok(l) => Ok(l@),
        Err(m) => Err(m@),
    }
}

/// The layers or the message of a result.
spec fn layers_outcome(r: Result<Vec<LayerInput>, String>) -> Result<Seq<LayerView>, Seq<char>> {
    match r {
        Ok(v) => Ok(layer_views(v@)),
        Err(m) => Err(m@),
    }
}

/// A message that comes early stays.
proof fn lemma_texts_stop(s: Seq<JsonView>, k: int)
    requires
        0 <= k <= s.len(),
        texts(s.take(k)) is Err,
    ensures
        texts(s) == texts(s.take(k)),
    decreases s.len(),
{
    if k == s.len() {
        assert(s.take(k) =~= s);
    } else {
        let t = s.drop_last();
        assert(t.take(k) =~= s.take(k));
        lemma_texts_stop(t, k);
    }
}

/// A message that comes early stays.
proof fn lemma_layers_stop(s: Seq<JsonView>, k: int)
    requires
        0 <= k <= s.len(),
        layers_of(s.take(k)) is Err,
    ensures
        layers_of(s) == layers_of(s.take(k)),
    decreases s.len(),
{
    if k == s.len() {
        assert(s.take(k) =~= s);
    } else {
        let t = s.drop_last();
        assert(t.take(k) =~= s.take(k));
        lemma_layers_stop(t, k);
    }
}

/// Decodes a list of strings.
fn strings_from(v: &Json) -> (r: Result<Vec<String>, String>)
    ensures
        strings_outcome(r) == decode_strings(v@),
{
    match v {
        Json::List(items) => {
            let ghost s = json_views(items@);
            let mut out: Vec<String> = Vec::new();
            let mut i: usize = 0;
            proof {
                lemma_list_view(*items);
                assert(paths(out@) =~= Seq::<Path>::empty());
                assert(s.take(0).len() == 0);
            }
            while i < items.len()
                invariant
                    i <= items.len(),
                    s == json_views(items@),
                    v@ == JsonView::List(s),
                    texts(s.take(i as int)) == Ok::<Seq<Path>, Seq<char>>(paths(out@)),
                decreases items.len() - i,
            {
                proof {
                    assert(s[i as int] == items@[i as int]@);
                    assert(s.take(i + 1).drop_last() =~= s.take(i as int));
                }
                match &items[i] {
                    Json::Text(t) => {
                        let ghost before = out@;
                        out.push(t.clone());
                        assert(paths(out@) =~= paths(before).push(t@));
                    },
                    other => {
                        proof {
                            lemma_texts_stop(s, i + 1);
                        }
                        return Err(mismatch_text(other, "a string"));
                    },
                }
                i += 1;
            }
            assert(s.take(i as int) =~= s);
            Ok(out)
        },
        _ => Err(mismatch_text(v, "a sequence")),
    }
}

/// What optional messages say.
spec fn fault_views(v: Seq<Option<String>>) -> Seq<Option<Seq<char>>> {
    v.map_values(|o: Option<String>| text_view(o))
}

/// There is at most one first faulty member.
proof fn lemma_first_fault(s: Seq<MemberView>, faults: Seq<Option<Seq<char>>>, i: int)
    requires
        leads(s, faults, i),
    ensures
        first_fault(s, faults) == faults[i],
{
    let k = choose|k: int| leads(s, faults, k);
    if k != i {
        assert(path_lt(s[k].key, s[i].key));
        assert(path_lt(s[i].key, s[k].key));
        lemma_lt_asymmetric(s[k].key, s[i].key);
    }
}

/// Picks the fault of the first faulty member, in key order.
fn pick_fault(members: &Vec<Member>, faults: &Vec<Option<String>>) -> (r: Option<String>)
    requires
        faults@.len() == members@.len(),
        distinct_keys(member_views(members@)),
    ensures
        text_view(r) == first_fault(member_views(members@), fault_views(faults@)),
        r is None ==> forall|j: int| 0 <= j < faults@.len() ==> (#[trigger] faults@[j]) is None,
{
    let ghost s = member_views(members@);
    let ghost fs = fault_views(faults@);
    let mut best: Option<usize> = None;
    let mut i: usize = 0;
    while i < members.len()
        invariant
            i <= members.len(),
            faults@.len() == members@.len(),
            s == member_views(members@),
            fs == fault_views(faults@),
            distinct_keys(s),
            match best {
                None => forall|j: int| 0 <= j < i ==> (#[trigger] faults@[j]) is None,
                Some(b) => b < i && faults@[b as int] is Some && forall|j: int|
                    0 <= j < i && j != b && (#[trigger] faults@[j]) is Some ==> path_lt(
                        s[b as int].key,
                        s[j].key,
                    ),
            },
        decreases members.len() - i,
    {
        if faults[i].is_some() {
            best = match best {
                None => Some(i),
                Some(b) => {
                    proof {
                        assert(s[b as int].key == members@[b as int].key@);
                        assert(s[i as int].key == members@[i as int].key@);
                        assert(s[b as int].key != s[i as int].key);
                        lemma_lt_total(s[b as int].key, s[i as int].key);
                    }
                    match rank(members[i].key.as_str(), members[b].key.as_str()) {
                        Rank::Before => {
                            proof {
                                assert forall|j: int|
                                    0 <= j < i + 1 && j != i && (#[trigger] faults@[j]) is Some
                                        implies path_lt(s[i as int].key, s[j].key) by {
                                    if j != b {
                                        lemma_lt_transitive(
                                            s[i as int].key,
                                            s[b as int].key,
                                            s[j].key,
                                        );
                                    }
                                }
                            }
                            Some(i)
                        },
                        _ => Some(b),
                    }
                },
            };
        }
        i += 1;
    }
    match best {
        None => {
            proof {
                if exists|k: int| leads(s, fs, k) {
                    let k = choose|k: int| leads(s, fs, k);
                    assert(fs[k] == text_view(faults@[k]));
                }
            }
            None
        },
        Some(b) => {
            proof {
                assert(fs[b as int] == text_view(faults@[b as int]));
                assert forall|j: int| 0 <= j < s.len() && j != b && (#[trigger] fs[j]) is Some
                    implies path_lt(s[b as int].key, s[j].key) by {
                    assert(fs[j] == text_view(faults@[j]));
                    assert(faults@[j] is Some);
                }
                lemma_first_fault(s, fs, b as int);
            }
            match &faults[b] {
                Some(m) => Some(m.clone()),
                None => None,
            }
        },
    }
}

/// Finds the member with a key.
fn find_member(members: &Vec<Member>, key: &str) -> (r: Option<usize>)
    requires
        distinct_keys(member_views(members@)),
    ensures
        match r {
            Some(k) => k < members@.len() && members@[k as int].key@ == key@ && field(
                member_views(members@),
                key@,
            ) == Some(members@[k as int].value@),
            None => field(member_views(members@), key@) is None,
        },
{
    let ghost s = member_views(members@);
    let mut i: usize = 0;
    while i < members.len()
        invariant
            i <= members.len(),
            s == member_views(members@),
            distinct_keys(s),
            forall|j: int| 0 <= j < i ==> (#[trigger] s[j]).key != key@,
        decreases members.len() - i,
    {
        proof {
            assert(s[i as int].key == members@[i as int].key@);
        }
        if same(members[i].key.as_str(), key) {
            proof {
                assert(keyed(s, key@, i as int));
                let k = choose|k: int| keyed(s, key@, k);
                if k < i {
                    assert(s[k].key != key@);
                } else if k > i {
                    assert(s[i as int].key != s[k].key);
                }
            }
            return Some(i);
        }
        i += 1;
    }
    proof {
        if exists|k: int| keyed(s, key@, k) {
            let k = choose|k: int| keyed(s, key@, k);
            assert(s[k].key != key@);
        }
    }
    None
}

/// What is wrong with each member of a layer.
fn layer_fault_list(members: &Vec<Member>) -> (r: Vec<Option<String>>)
    ensures
        r@.len() == members@.len(),
        fault_views(r@) == layer_faults(member_views(members@)),
{
    let ghost s = member_views(members@);
    let mut out: Vec<Option<String>> = Vec::new();
    let mut i: usize = 0;
    while i < members.len()
        invariant
            i <= members.len(),
            s == member_views(members@),
            out@.len() == i,
            forall|j: int|
                0 <= j < i ==> text_view(#[trigger] out@[j]) == layer_fault(s[j]),
        decreases members.len() - i,
    {
        let m = &members[i];
        proof {
            assert(s[i as int] == (MemberView { key: m.key@, value: m.value@ }));
        }
        let key = m.key.as_str();
        let fault = if same(key, "writes") || same(key, "mkdirs") || same(key, "whiteouts") || same(
            key,
            "opaques",
        ) {
            match strings_from(&m.value) {
                Err(e) => Some(e),
                Ok(_) => None,
            }
        } else {
            Some(unknown_text(key, "one of `writes`, `mkdirs`, `whiteouts`, `opaques`"))
        };
        out.push(fault);
        i += 1;
    }
    assert(fault_views(out@) =~= layer_faults(s));
    out
}

/// Decodes a field of a layer that has no fault.
fn field_from(members: &Vec<Member>, key: &str) -> (r: Vec<String>)
    requires
        distinct_keys(member_views(members@)),
        key@ == "writes"@ || key@ == "mkdirs"@ || key@ == "whiteouts"@ || key@ == "opaques"@,
        forall|j: int|
            0 <= j < members@.len() ==> layer_fault(
                #[trigger] member_views(members@)[j],
            ) is None,
    ensures
        paths(r@) == field_strings(member_views(members@), key@),
{
    match find_member(members, key) {
        Some(k) => {
            proof {
                assert(layer_fault(member_views(members@)[k as int]) is None);
            }
            match strings_from(&members[k].value) {
                Ok(v) => v,
                // A field without a fault decodes.
                Err(_) => Vec::new(),
            }
        },
        None => {
            let v: Vec<String> = Vec::new();
            assert(paths(v@) =~= Seq::<Path>::empty());
            v
        },
    }
}

/// Decodes a layer.
fn layer_from(v: &Json) -> (r: Result<LayerInput, String>)
    requires
        sound(v@),
    ensures
        layer_outcome(r) == decode_layer(v@),
{
    match v {
        Json::Object(members) => {
            let ghost s = member_views(members@);
            proof {
                lemma_object_view(*members);
                assert(distinct_keys(s));
            }
            let faults = layer_fault_list(members);
            match pick_fault(members, &faults) {
                Some(m) => Err(m),
                None => {
                    proof {
                        assert forall|j: int| 0 <= j < members@.len() implies layer_fault(
                            #[trigger] s[j],
                        ) is None by {
                            assert(fault_views(faults@)[j] == text_view(
                                faults@[j],
                            ));
                            assert(layer_faults(s)[j] == layer_fault(s[j]));
                        }
                    }
                    Ok(
                        LayerInput {
                            writes: field_from(members, "writes"),
                            mkdirs: field_from(members, "mkdirs"),
                            whiteouts: field_from(members, "whiteouts"),
                            opaques: field_from(members, "opaques"),
                        },
                    )
                },
            }
        },
        _ => Err(mismatch_text(v, "struct LayerInput")),
    }
}

/// Decodes a list of layers.
fn layers_from(v: &Json) -> (r: Result<Vec<LayerInput>, String>)
    requires
        sound(v@),
    ensures
        layers_outcome(r) == decode_layers(v@),
{
    match v {
        Json::List(items) => {
            let ghost s = json_views(items@);
            let mut out: Vec<LayerInput> = Vec::new();
            let mut i: usize = 0;
            proof {
                lemma_list_view(*items);
                assert(layer_views(out@) =~= Seq::<LayerView>::empty());
                assert(s.take(0).len() == 0);
            }
            while i < items.len()
                invariant
                    i <= items.len(),
                    s == json_views(items@),
                    v@ == JsonView::List(s),
                    sound(JsonView::List(s)),
                    layers_of(s.take(i as int)) == Ok::<Seq<LayerView>, Seq<char>>(
                        layer_views(out@),
                    ),
                decreases items.len() - i,
            {
                proof {
                    assert(s[i as int] == items@[i as int]@);
                    assert(s.take(i + 1).drop_last() =~= s.take(i as int));
                    lemma_list_item(s, i as int);
                }
                match layer_from(&items[i]) {
                    Ok(l) => {
                        let ghost before = out@;
                        let ghost lv = l@;
                        out.push(l);
                        assert(layer_views(out@) =~= layer_views(before).push(lv));
                    },
                    Err(m) => {
                        proof {
                            lemma_layers_stop(s, i + 1);
                        }
                        return Err(m);
                    },
                }
                i += 1;
            }
            assert(s.take(i as int) =~= s);
            Ok(out)
        },
        _ => Err(mismatch_text(v, "a sequence")),
    }
}

/// What is wrong with each member of an input.
fn input_fault_list(members: &Vec<Member>) -> (r: Vec<Option<String>>)
    requires
        sound(JsonView::Object(member_views(members@))),
    ensures
        r@.len() == members@.len(),
        fault_views(r@) == input_member_faults(member_views(members@)),
{
    let ghost s = member_views(members@);
    let mut out: Vec<Option<String>> = Vec::new();
    let mut i: usize = 0;
    while i < members.len()
        invariant
            i <= members.len(),
            s == member_views(members@),
            sound(JsonView::Object(s)),
            out@.len() == i,
            forall|j: int|
                0 <= j < i ==> text_view(#[trigger] out@[j]) == input_member_fault(
                    s[j],
                ),
        decreases members.len() - i,
    {
        let m = &members[i];
        proof {
            assert(s[i as int] == (MemberView { key: m.key@, value: m.value@ }));
            lemma_object_item(s, i as int);
        }
        let key = m.key.as_str();
        let fault = if same(key, "layers") {
            match layers_from(&m.value) {
                Err(e) => Some(e),
                Ok(_) => None,
            }
        } else {
            Some(unknown_text(key, "`layers`"))
        };
        out.push(fault);
        i += 1;
    }
    assert(fault_views(out@) =~= input_member_faults(s));
    out
}

/// Decodes a whole document.
pub fn document_layers(doc: &Json) -> (r: Result<Vec<LayerInput>, String>)
    requires
        sound(doc@),
    ensures
        match r {
            Ok(v) => decode_document(doc@) == Ok::<Seq<LayerView>, Seq<char>>(layer_views(v@)),
            Err(m) => decode_document(doc@) == Err::<Seq<LayerView>, Seq<char>>(m@),
        },
{
    match doc {
        Json::Object(members) => {
            let ghost s = member_views(members@);
            proof {
                lemma_object_view(*members);
                assert(distinct_keys(s));
            }
            let faults = input_fault_list(members);
            match pick_fault(members, &faults) {
                Some(m) => Err(m),
                None => match find_member(members, "layers") {
                    Some(k) => {
                        proof {
                            lemma_object_item(s, k as int);
                        }
                        layers_from(&members[k].value)
                    },
                    None => Err("missing field `layers`".to_owned()),
                },
            }
        },
        _ => Err(mismatch_text(doc, "struct Input")),
    }
}

// ---------------------------------------------------------------------------
// What is accepted
// ---------------------------------------------------------------------------

/// Of the faulty ones among the first `n` members, one comes first.
proof fn lemma_leader(s: Seq<MemberView>, faults: Seq<Option<Seq<char>>>, n: int) -> (r: Option<
    int,
>)
    requires
        distinct_keys(s),
        faults.len() == s.len(),
        0 <= n <= s.len(),
    ensures
        match r {
            None => forall|j: int| 0 <= j < n ==> (#[trigger] faults[j]) is None,
            Some(b) => 0 <= b < n && faults[b] is Some && forall|j: int|
                0 <= j < n && j != b && (#[trigger] faults[j]) is Some ==> path_lt(
                    s[b].key,
                    s[j].key,
                ),
        },
    decreases n,
{
    if n == 0 {
        None
    } else {
        let r = lemma_leader(s, faults, n - 1);
        let k = n - 1;
        if faults[k] is None {
            r
        } else {
            match r {
                None => Some(k),
                Some(b) => {
                    assert(s[b].key != s[k].key);
                    lemma_lt_total(s[b].key, s[k].key);
                    if path_lt(s[b].key, s[k].key) {
                        Some(b)
                    } else {
                        assert forall|j: int|
                            0 <= j < n && j != k && (#[trigger] faults[j]) is Some implies path_lt(
                            s[k].key,
                            s[j].key,
                        ) by {
                            if j != b {
                                lemma_lt_transitive(s[k].key, s[b].key, s[j].key);
                            }
                        }
                        Some(k)
                    }
                },
            }
        }
    }
}

/// There is a first fault exactly where there is a fault.
pub proof fn lemma_fault_found(s: Seq<MemberView>, faults: Seq<Option<Seq<char>>>)
    requires
        distinct_keys(s),
        faults.len() == s.len(),
    ensures
        first_fault(s, faults) is None <==> forall|j: int|
            0 <= j < s.len() ==> (#[trigger] faults[j]) is None,
{
    match lemma_leader(s, faults, s.len() as int) {
        Some(b) => {
            assert(leads(s, faults, b));
            lemma_first_fault(s, faults, b);
        },
        None => {
            if exists|i: int| leads(s, faults, i) {
                let i = choose|i: int| leads(s, faults, i);
                assert(faults[i] is Some);
            }
        },
    }
}

/// A list of strings is a list whose items are strings, and stands for those.
pub proof fn law_strings(v: JsonView)
    ensures
        decode_strings(v) is Ok <==> v is List && forall|i: int|
            0 <= i < v->List_0.len() ==> (#[trigger] v->List_0[i]) is Text,
        decode_strings(v) matches Ok(t) ==> t.len() == v->List_0.len() && forall|i: int|
            0 <= i < t.len() ==> #[trigger] t[i] == v->List_0[i]->Text_0,
{
    if let JsonView::List(s) = v {
        lemma_texts(s);
    }
}

/// The strings of a list of strings.
proof fn lemma_texts(s: Seq<JsonView>)
    ensures
        texts(s) is Ok <==> forall|i: int| 0 <= i < s.len() ==> (#[trigger] s[i]) is Text,
        texts(s) matches Ok(t) ==> t.len() == s.len() && forall|i: int|
            0 <= i < t.len() ==> #[trigger] t[i] == s[i]->Text_0,
    decreases s.len(),
{
    if s.len() > 0 {
        let rest = s.drop_last();
        lemma_texts(rest);
        assert forall|i: int| 0 <= i < rest.len() implies #[trigger] rest[i] == s[i] by {}
        if forall|i: int| 0 <= i < s.len() ==> (#[trigger] s[i]) is Text {
            assert forall|i: int| 0 <= i < rest.len() implies (#[trigger] rest[i]) is Text by {
                assert(s[i] is Text);
            }
        }
        if texts(s) is Ok {
            assert forall|i: int| 0 <= i < s.len() implies (#[trigger] s[i]) is Text by {
                if i < rest.len() {
                    assert(rest[i] is Text);
                }
            }
        }
    }
}

/// The name of one of the four lists of a layer.
pub open spec fn layer_key(key: Seq<char>) -> bool {
    key == "writes"@ || key == "mkdirs"@ || key == "whiteouts"@ || key == "opaques"@
}

/// An object describes a layer exactly where its members are among the four
/// lists, each a list of strings. Any other member is refused.
pub proof fn law_layer_objects(s: Seq<MemberView>)
    requires
        distinct_keys(s),
    ensures
        decode_layer(JsonView::Object(s)) is Ok <==> forall|i: int|
            0 <= i < s.len() ==> layer_key((#[trigger] s[i]).key) && decode_strings(
                s[i].value,
            ) is Ok,
{
    let faults = layer_faults(s);
    lemma_fault_found(s, faults);
    assert forall|i: int| 0 <= i < s.len() implies ((#[trigger] faults[i]) is None <==> layer_key(
        s[i].key,
    ) && decode_strings(s[i].value) is Ok) by {}
    if forall|i: int| 0 <= i < s.len() ==> (#[trigger] faults[i]) is None {
        assert forall|i: int| 0 <= i < s.len() implies layer_key((#[trigger] s[i]).key)
            && decode_strings(s[i].value) is Ok by {
            assert(faults[i] is None);
        }
    }
}

/// An object is an input exactly where it has the one member `layers`, which
/// lists layers.
pub proof fn law_input_objects(s: Seq<MemberView>)
    requires
        distinct_keys(s),
    ensures
        decode_document(JsonView::Object(s)) is Ok <==> s.len() == 1 && s[0].key == "layers"@
            && decode_layers(s[0].value) is Ok,
        decode_document(JsonView::Object(s)) is Ok ==> decode_document(JsonView::Object(s))
            == decode_layers(s[0].value),
{
    let faults = input_member_faults(s);
    lemma_fault_found(s, faults);
    assert forall|i: int| 0 <= i < s.len() implies ((#[trigger] faults[i]) is None <==> s[i].key
        == "layers"@ && decode_layers(s[i].value) is Ok) by {}
    if first_fault(s, faults) is None {
        if s.len() > 1 {
            assert(faults[0] is None && faults[1] is None);
            assert(s[0].key != s[1].key);
        }
        if s.len() > 0 {
            assert(faults[0] is None);
            assert(keyed(s, "layers"@, 0));
        }
        if exists|i: int| keyed(s, "layers"@, i) {
            let i = choose|i: int| keyed(s, "layers"@, i);
            assert(i == 0);
        }
    }
    if s.len() == 1 && s[0].key == "layers"@ && decode_layers(s[0].value) is Ok {
        assert forall|j: int| 0 <= j < s.len() implies (#[trigger] faults[j]) is None by {}
    }
}

/// Only objects are inputs or layers. Whatever else a document is, is refused
/// as being of the wrong type.
pub proof fn law_only_objects(v: JsonView)
    requires
        !(v is Object),
    ensures
        decode_document(v) == Err::<Seq<LayerView>, Seq<char>>(mismatch(v, "struct Input"@)),
        decode_layer(v) == Err::<LayerView, Seq<char>>(mismatch(v, "struct LayerInput"@)),
{
}

/// The field of a key does not depend on members with other keys.
proof fn lemma_field_push(s: Seq<MemberView>, m: MemberView, key: Seq<char>)
    requires
        distinct_keys(s.push(m)),
    ensures
        field(s.push(m), key) == if m.key == key {
            Some(m.value)
        } else {
            field(s, key)
        },
{
    let t = s.push(m);
    if m.key == key {
        assert(keyed(t, key, s.len() as int));
        let i = choose|i: int| keyed(t, key, i);
        if i < s.len() {
            assert(t[i].key != t[s.len() as int].key);
        }
    } else if exists|i: int| keyed(s, key, i) {
        let i = choose|i: int| keyed(s, key, i);
        assert(keyed(t, key, i));
        let j = choose|j: int| keyed(t, key, j);
        assert(keyed(s, key, j));
        if i < j {
            assert(t[i].key != t[j].key);
        } else if j < i {
            assert(t[j].key != t[i].key);
        }
    } else if exists|j: int| keyed(t, key, j) {
        let j = choose|j: int| keyed(t, key, j);
        assert(keyed(s, key, j));
    }
}

/// A missing list is an empty list.
pub proof fn law_missing_list_is_empty(s: Seq<MemberView>, key: Seq<char>)
    requires
        distinct_keys(s),
        layer_key(key),
        forall|i: int| 0 <= i < s.len() ==> (#[trigger] s[i]).key != key,
    ensures
        decode_layer(JsonView::Object(s)) == decode_layer(
            JsonView::Object(
                s.push(MemberView { key, value: JsonView::List(Seq::<JsonView>::empty()) }),
            ),
        ),
{
    let m = MemberView { key, value: JsonView::List(Seq::<JsonView>::empty()) };
    let t = s.push(m);
    assert(distinct_keys(t));
    assert(texts(Seq::<JsonView>::empty()) == Ok::<Seq<Path>, Seq<char>>(Seq::<Path>::empty()));
    assert(layer_fault(m) is None);
    let few = layer_faults(s);
    let all = layer_faults(t);
    assert(all =~= few.push(None));
    lemma_field_push(s, m, "writes"@);
    lemma_field_push(s, m, "mkdirs"@);
    lemma_field_push(s, m, "whiteouts"@);
    lemma_field_push(s, m, "opaques"@);
    assert(field(s, key) is None);
    match lemma_leader(s, few, s.len() as int) {
        Some(b) => {
            assert(leads(s, few, b));
            lemma_first_fault(s, few, b);
            assert(leads(t, all, b)) by {
                assert forall|j: int| 0 <= j < t.len() && j != b && (#[trigger] all[j]) is Some
                    implies path_lt(t[b].key, t[j].key) by {
                    assert(few[j] is Some);
                }
            }
            lemma_first_fault(t, all, b);
        },
        None => {
            lemma_fault_found(s, few);
            lemma_fault_found(t, all);
            assert forall|j: int| 0 <= j < t.len() implies (#[trigger] all[j]) is None by {
                if j < s.len() {
                    assert(few[j] is None);
                }
            }
        },
    }
}

/// The members are the same, in whatever order.
pub open spec fn same_members(s: Seq<MemberView>, t: Seq<MemberView>) -> bool {
    &&& distinct_keys(s)
    &&& distinct_keys(t)
    &&& forall|m: MemberView|
        #![trigger s.contains(m)]
        #![trigger t.contains(m)]
        s.contains(m) <==> t.contains(m)
}

/// The same members have the same first fault.
proof fn lemma_same_first_fault(
    s: Seq<MemberView>,
    t: Seq<MemberView>,
    fault: spec_fn(MemberView) -> Option<Seq<char>>,
)
    requires
        same_members(s, t),
    ensures
        first_fault(s, s.map_values(fault)) == first_fault(t, t.map_values(fault)),
{
    let fs = s.map_values(fault);
    let ft = t.map_values(fault);
    match lemma_leader(s, fs, s.len() as int) {
        Some(b) => {
            assert(leads(s, fs, b));
            lemma_first_fault(s, fs, b);
            assert(s.contains(s[b]));
            let c = choose|c: int| 0 <= c < t.len() && t[c] == s[b];
            assert forall|j: int| 0 <= j < t.len() && j != c && (#[trigger] ft[j]) is Some
                implies path_lt(t[c].key, t[j].key) by {
                assert(t.contains(t[j]));
                let i = choose|i: int| 0 <= i < s.len() && s[i] == t[j];
                assert(fs[i] is Some);
                if i == b {
                    if j < c {
                        assert(t[j].key != t[c].key);
                    } else {
                        assert(t[c].key != t[j].key);
                    }
                }
            }
            assert(leads(t, ft, c));
            lemma_first_fault(t, ft, c);
        },
        None => {
            lemma_fault_found(s, fs);
            lemma_fault_found(t, ft);
            assert forall|j: int| 0 <= j < t.len() implies (#[trigger] ft[j]) is None by {
                assert(t.contains(t[j]));
                let i = choose|i: int| 0 <= i < s.len() && s[i] == t[j];
                assert(fs[i] is None);
            }
        },
    }
}

/// The same members have the same fields.
proof fn lemma_same_field(s: Seq<MemberView>, t: Seq<MemberView>, key: Seq<char>)
    requires
        same_members(s, t),
    ensures
        field(s, key) == field(t, key),
{
    if exists|i: int| keyed(s, key, i) {
        let i = choose|i: int| keyed(s, key, i);
        assert(s.contains(s[i]));
        let k = choose|k: int| 0 <= k < t.len() && t[k] == s[i];
        assert(keyed(t, key, k));
        let j = choose|j: int| keyed(t, key, j);
        if j < k {
            assert(t[j].key != t[k].key);
        } else if k < j {
            assert(t[k].key != t[j].key);
        }
    } else if exists|j: int| keyed(t, key, j) {
        let j = choose|j: int| keyed(t, key, j);
        assert(t.contains(t[j]));
        let k = choose|k: int| 0 <= k < s.len() && s[k] == t[j];
        assert(keyed(s, key, k));
    }
}

/// The order of the members of an object does not matter, neither to what the
/// object describes nor to the message with which it is refused.
pub proof fn law_member_order(s: Seq<MemberView>, t: Seq<MemberView>)
    requires
        same_members(s, t),
    ensures
        decode_layer(JsonView::Object(s)) == decode_layer(JsonView::Object(t)),
        decode_document(JsonView::Object(s)) == decode_document(JsonView::Object(t)),
{
    lemma_same_first_fault(s, t, |m: MemberView| layer_fault(m));
    lemma_same_first_fault(s, t, |m: MemberView| input_member_fault(m));
    lemma_same_field(s, t, "writes"@);
    lemma_same_field(s, t, "mkdirs"@);
    lemma_same_field(s, t, "whiteouts"@);
    lemma_same_field(s, t, "opaques"@);
    lemma_same_field(s, t, "layers"@);
}

// ---------------------------------------------------------------------------
// What is read, and the words of refusal
// ---------------------------------------------------------------------------

/// A document of the wrong type is described in these words.
pub proof fn law_mismatch_words(v: JsonView, expected: Seq<char>)
    ensures
        v matches JsonView::Null ==> mismatch(v, expected) == "invalid type: null, expected "@
            + expected,
        v matches JsonView::Bool(b) ==> mismatch(v, expected) == if b {
            "invalid type: boolean `true`, expected "@ + expected
        } else {
            "invalid type: boolean `false`, expected "@ + expected
        },
        v matches JsonView::Integer(n) ==> (n >= 0 ==> mismatch(v, expected)
            == "invalid type: integer `"@ + decimal(n as nat) + "`, expected "@ + expected),
        v matches JsonView::Integer(n) ==> (n < 0 ==> mismatch(v, expected)
            == "invalid type: integer `-"@ + decimal((-n) as nat) + "`, expected "@ + expected),
        v matches JsonView::Fraction(t) ==> mismatch(v, expected)
            == "invalid type: floating point `"@ + t + "`, expected "@ + expected,
        v matches JsonView::Text(s) ==> mismatch(v, expected) == "invalid type: string "@ + quoted(
            s,
        ) + ", expected "@ + expected,
        v matches JsonView::List(s) ==> mismatch(v, expected)
            == "invalid type: sequence, expected "@ + expected,
        v matches JsonView::Object(s) ==> mismatch(v, expected) == "invalid type: map, expected "@
            + expected,
{
    reveal_strlit("invalid type: ");
    reveal_strlit(", expected ");
    reveal_strlit("null");
    reveal_strlit("invalid type: null, expected ");
    reveal_strlit("boolean `true`");
    reveal_strlit("invalid type: boolean `true`, expected ");
    reveal_strlit("boolean `false`");
    reveal_strlit("invalid type: boolean `false`, expected ");
    reveal_strlit("integer `");
    reveal_strlit("-");
    reveal_strlit("`");
    reveal_strlit("invalid type: integer `");
    reveal_strlit("invalid type: integer `-");
    reveal_strlit("`, expected ");
    reveal_strlit("floating point `");
    reveal_strlit("invalid type: floating point `");
    reveal_strlit("string ");
    reveal_strlit("invalid type: string ");
    reveal_strlit("sequence");
    reveal_strlit("invalid type: sequence, expected ");
    reveal_strlit("map");
    reveal_strlit("invalid type: map, expected ");
    let m = mismatch(v, expected);
    match v {
        JsonView::Null => {
            assert(m =~= "invalid type: null, expected "@ + expected);
        },
        JsonView::Bool(b) => {
            if b {
                assert(m =~= "invalid type: boolean `true`, expected "@ + expected);
            } else {
                assert(m =~= "invalid type: boolean `false`, expected "@ + expected);
            }
        },
        JsonView::Integer(n) => {
            if n >= 0 {
                assert(m =~= "invalid type: integer `"@ + decimal(n as nat) + "`, expected "@
                    + expected);
            } else {
                assert(m =~= "invalid type: integer `-"@ + decimal((-n) as nat) + "`, expected "@
                    + expected);
            }
        },
        JsonView::Fraction(t) => {
            assert(m =~= "invalid type: floating point `"@ + t + "`, expected "@ + expected);
        },
        JsonView::Text(s) => {
            assert(m =~= "invalid type: string "@ + quoted(s) + ", expected "@ + expected);
        },
        JsonView::List(s) => {
            assert(m =~= "invalid type: sequence, expected "@ + expected);
        },
        JsonView::Object(s) => {
            assert(m =~= "invalid type: map, expected "@ + expected);
        },
    }
}

/// A list of strings is refused for its first item that is no string, or for being
/// no list.
pub proof fn law_strings_refused(v: JsonView)
    ensures
        !(v is List) ==> decode_strings(v) == Err::<Seq<Path>, Seq<char>>(
            mismatch(v, "a sequence"@),
        ),
        v matches JsonView::List(s) ==> (decode_strings(v) matches Err(m) ==> exists|i: int|
            {
                &&& 0 <= i < s.len()
                &&& !(s[i] is Text)
                &&& forall|j: int| 0 <= j < i ==> (#[trigger] s[j]) is Text
                &&& m == mismatch(#[trigger] s[i], "a string"@)
            }),
{
    if let JsonView::List(s) = v {
        lemma_texts_refused(s);
    }
}

/// The first item that is no string.
proof fn lemma_texts_refused(s: Seq<JsonView>)
    ensures
        texts(s) matches Err(m) ==> exists|i: int|
            {
                &&& 0 <= i < s.len()
                &&& !(s[i] is Text)
                &&& forall|j: int| 0 <= j < i ==> (#[trigger] s[j]) is Text
                &&& m == mismatch(#[trigger] s[i], "a string"@)
            },
    decreases s.len(),
{
    if s.len() > 0 {
        let t = s.drop_last();
        let n = s.len() - 1;
        lemma_texts_refused(t);
        lemma_texts(t);
        assert forall|j: int| 0 <= j < n implies #[trigger] s[j] == t[j] by {}
        if texts(t) is Err {
            let m = texts(t)->Err_0;
            let i = choose|i: int|
                {
                    &&& 0 <= i < t.len()
                    &&& !(t[i] is Text)
                    &&& forall|j: int| 0 <= j < i ==> (#[trigger] t[j]) is Text
                    &&& m == mismatch(#[trigger] t[i], "a string"@)
                };
            assert(s[i] == t[i]);
            assert forall|j: int| 0 <= j < i implies (#[trigger] s[j]) is Text by {
                assert(t[j] is Text);
            }
        } else if texts(s) is Err {
            assert forall|j: int| 0 <= j < n implies (#[trigger] s[j]) is Text by {
                assert(t[j] is Text);
            }
            assert(texts(s)->Err_0 == mismatch(s[n], "a string"@));
        }
    }
}

/// The member is one of the four lists, and a list of strings.
pub open spec fn fit_for_layer(m: MemberView) -> bool {
    &&& m.key == "writes"@ || m.key == "mkdirs"@ || m.key == "whiteouts"@ || m.key == "opaques"@
    &&& decode_strings(m.value) is Ok
}

/// An object describes a layer exactly where every member is one of the four lists;
/// else the first member in key order that is not is refused, in these words.
pub proof fn law_layer_read(s: Seq<MemberView>)
    requires
        distinct_keys(s),
    ensures
        decode_layer(JsonView::Object(s)) is Ok <==> forall|i: int|
            0 <= i < s.len() ==> fit_for_layer(#[trigger] s[i]),
        decode_layer(JsonView::Object(s)) matches Err(m) ==> exists|i: int|
            {
                &&& 0 <= i < s.len()
                &&& !fit_for_layer(s[i])
                &&& forall|j: int|
                    0 <= j < s.len() && j != i && !fit_for_layer(#[trigger] s[j]) ==> path_lt(
                        s[i].key,
                        s[j].key,
                    )
                &&& if (#[trigger] s[i]).key == "writes"@ || s[i].key == "mkdirs"@ || s[i].key
                    == "whiteouts"@ || s[i].key == "opaques"@ {
                    decode_strings(s[i].value) == Err::<Seq<Path>, Seq<char>>(m)
                } else {
                    m == "unknown field `"@ + s[i].key
                        + "`, expected one of `writes`, `mkdirs`, `whiteouts`, `opaques`"@
                }
            },
{
    let faults = layer_faults(s);
    assert forall|i: int| 0 <= i < s.len() implies ((#[trigger] faults[i]) is None
        <==> fit_for_layer(s[i])) by {}
    lemma_fault_found(s, faults);
    reveal_strlit("`, expected ");
    reveal_strlit("one of `writes`, `mkdirs`, `whiteouts`, `opaques`");
    reveal_strlit("`, expected one of `writes`, `mkdirs`, `whiteouts`, `opaques`");
    assert("`, expected "@ + "one of `writes`, `mkdirs`, `whiteouts`, `opaques`"@
        =~= "`, expected one of `writes`, `mkdirs`, `whiteouts`, `opaques`"@);
    if forall|i: int| 0 <= i < s.len() ==> fit_for_layer(#[trigger] s[i]) {
        assert forall|j: int| 0 <= j < s.len() implies (#[trigger] faults[j]) is None by {
            assert(fit_for_layer(s[j]));
        }
    }
    match lemma_leader(s, faults, s.len() as int) {
        Some(b) => {
            assert(leads(s, faults, b));
            lemma_first_fault(s, faults, b);
            assert(!fit_for_layer(s[b]));
            assert forall|j: int|
                0 <= j < s.len() && j != b && !fit_for_layer(#[trigger] s[j]) implies path_lt(
                s[b].key,
                s[j].key,
            ) by {
                assert(faults[j] is Some);
            }
            assert(faults[b] == layer_fault(s[b]));
        },
        None => {
            assert forall|i: int| 0 <= i < s.len() implies fit_for_layer(#[trigger] s[i]) by {
                assert(faults[i] is None);
            }
        },
    }
}

/// The layer that an object describes has, of each list, the strings of the member
/// with that key, and none where there is no such member.
pub proof fn law_layer_lists(s: Seq<MemberView>, l: LayerView)
    requires
        distinct_keys(s),
        decode_layer(JsonView::Object(s)) == Ok::<LayerView, Seq<char>>(l),
    ensures
        forall|i: int|
            0 <= i < s.len() ==> {
                &&& (#[trigger] s[i]).key == "writes"@ ==> decode_strings(s[i].value) == Ok::<
                    Seq<Path>,
                    Seq<char>,
                >(l.writes)
                &&& s[i].key == "mkdirs"@ ==> decode_strings(s[i].value) == Ok::<
                    Seq<Path>,
                    Seq<char>,
                >(l.mkdirs)
                &&& s[i].key == "whiteouts"@ ==> decode_strings(s[i].value) == Ok::<
                    Seq<Path>,
                    Seq<char>,
                >(l.whiteouts)
                &&& s[i].key == "opaques"@ ==> decode_strings(s[i].value) == Ok::<
                    Seq<Path>,
                    Seq<char>,
                >(l.opaques)
            },
        (forall|i: int| 0 <= i < s.len() ==> (#[trigger] s[i]).key != "writes"@) ==> l.writes.len()
            == 0,
        (forall|i: int| 0 <= i < s.len() ==> (#[trigger] s[i]).key != "mkdirs"@) ==> l.mkdirs.len()
            == 0,
        (forall|i: int| 0 <= i < s.len() ==> (#[trigger] s[i]).key != "whiteouts"@)
            ==> l.whiteouts.len() == 0,
        (forall|i: int| 0 <= i < s.len() ==> (#[trigger] s[i]).key != "opaques"@)
            ==> l.opaques.len() == 0,
{
    law_layer_read(s);
    assert forall|i: int, key: Seq<char>|
        0 <= i < s.len() && (#[trigger] s[i]).key == key implies #[trigger] field(s, key) == Some(
        s[i].value,
    ) by {
        assert(keyed(s, key, i));
        let j = choose|j: int| keyed(s, key, j);
        if j < i {
            assert(s[j].key != s[i].key);
        } else if i < j {
            assert(s[i].key != s[j].key);
        }
    }
    assert forall|i: int|
        0 <= i < s.len() implies {
            &&& (#[trigger] s[i]).key == "writes"@ ==> decode_strings(s[i].value) == Ok::<
                Seq<Path>,
                Seq<char>,
            >(l.writes)
            &&& s[i].key == "mkdirs"@ ==> decode_strings(s[i].value) == Ok::<Seq<Path>, Seq<char>>(
                l.mkdirs,
            )
            &&& s[i].key == "whiteouts"@ ==> decode_strings(s[i].value) == Ok::<
                Seq<Path>,
                Seq<char>,
            >(l.whiteouts)
            &&& s[i].key == "opaques"@ ==> decode_strings(s[i].value) == Ok::<
                Seq<Path>,
                Seq<char>,
            >(l.opaques)
        } by {
        assert(fit_for_layer(s[i]));
        assert(field(s, s[i].key) == Some(s[i].value));
    }
}

/// A list of layers is a list of documents that describe layers, and stands for
/// those in their order; else it is refused for the first that describes none, or for being
/// no list.
pub proof fn law_layers_read(v: JsonView)
    ensures
        !(v is List) ==> decode_layers(v) == Err::<Seq<LayerView>, Seq<char>>(
            mismatch(v, "a sequence"@),
        ),
        v matches JsonView::List(s) ==> {
            &&& decode_layers(v) is Ok <==> forall|i: int|
                0 <= i < s.len() ==> decode_layer(#[trigger] s[i]) is Ok
            &&& decode_layers(v) matches Ok(t) ==> t.len() == s.len() && forall|i: int|
                0 <= i < s.len() ==> decode_layer(#[trigger] s[i]) == Ok::<LayerView, Seq<char>>(
                    t[i],
                )
            &&& decode_layers(v) matches Err(m) ==> exists|i: int|
                {
                    &&& 0 <= i < s.len()
                    &&& decode_layer(#[trigger] s[i]) == Err::<LayerView, Seq<char>>(m)
                    &&& forall|j: int| 0 <= j < i ==> decode_layer(#[trigger] s[j]) is Ok
                }
        },
{
    if let JsonView::List(s) = v {
        lemma_layers_read(s);
    }
}

/// The layers of a list.
proof fn lemma_layers_read(s: Seq<JsonView>)
    ensures
        layers_of(s) is Ok <==> forall|i: int|
            0 <= i < s.len() ==> decode_layer(#[trigger] s[i]) is Ok,
        layers_of(s) matches Ok(t) ==> t.len() == s.len() && forall|i: int|
            0 <= i < s.len() ==> decode_layer(#[trigger] s[i]) == Ok::<LayerView, Seq<char>>(t[i]),
        layers_of(s) matches Err(m) ==> exists|i: int|
            {
                &&& 0 <= i < s.len()
                &&& decode_layer(#[trigger] s[i]) == Err::<LayerView, Seq<char>>(m)
                &&& forall|j: int| 0 <= j < i ==> decode_layer(#[trigger] s[j]) is Ok
            },
    decreases s.len(),
{
    if s.len() > 0 {
        let rest = s.drop_last();
        let n = s.len() - 1;
        lemma_layers_read(rest);
        assert forall|i: int| 0 <= i < n implies #[trigger] s[i] == rest[i] by {}
        match layers_of(rest) {
            Err(m) => {
                let i = choose|i: int|
                    {
                        &&& 0 <= i < rest.len()
                        &&& decode_layer(#[trigger] rest[i]) == Err::<LayerView, Seq<char>>(m)
                        &&& forall|j: int| 0 <= j < i ==> decode_layer(#[trigger] rest[j]) is Ok
                    };
                assert(decode_layer(s[i]) == Err::<LayerView, Seq<char>>(m));
                assert forall|j: int| 0 <= j < i implies decode_layer(#[trigger] s[j]) is Ok by {
                    assert(decode_layer(rest[j]) is Ok);
                }
            },
            Ok(t) => {
                assert forall|j: int| 0 <= j < n implies decode_layer(#[trigger] s[j]) == Ok::<
                    LayerView,
                    Seq<char>,
                >(t[j]) by {
                    assert(decode_layer(rest[j]) == Ok::<LayerView, Seq<char>>(t[j]));
                }
                if decode_layer(s[n]) is Err {
                    assert(layers_of(s) == Err::<Seq<LayerView>, Seq<char>>(
                        decode_layer(s[n])->Err_0,
                    ));
                }
            },
        }
    }
}

/// The member is `layers`, and lists layers.
pub open spec fn fit_for_input(m: MemberView) -> bool {
    m.key == "layers"@ && decode_layers(m.value) is Ok
}

/// An object that is no input is refused for the first member in key order that does
/// not belong there, or else for having none, in these words.
pub proof fn law_input_refused(s: Seq<MemberView>, m: Seq<char>)
    requires
        distinct_keys(s),
        decode_document(JsonView::Object(s)) == Err::<Seq<LayerView>, Seq<char>>(m),
    ensures
        s.len() == 0 ==> m == "missing field `layers`"@,
        s.len() > 0 ==> exists|i: int|
            {
                &&& 0 <= i < s.len()
                &&& !fit_for_input(s[i])
                &&& forall|j: int|
                    0 <= j < s.len() && j != i && !fit_for_input(#[trigger] s[j]) ==> path_lt(
                        s[i].key,
                        s[j].key,
                    )
                &&& if (#[trigger] s[i]).key == "layers"@ {
                    decode_layers(s[i].value) == Err::<Seq<LayerView>, Seq<char>>(m)
                } else {
                    m == "unknown field `"@ + s[i].key + "`, expected `layers`"@
                }
            },
{
    let faults = input_member_faults(s);
    assert forall|i: int| 0 <= i < s.len() implies ((#[trigger] faults[i]) is None
        <==> fit_for_input(s[i])) by {}
    reveal_strlit("`, expected ");
    reveal_strlit("`layers`");
    reveal_strlit("`, expected `layers`");
    assert("`, expected "@ + "`layers`"@ =~= "`, expected `layers`"@);
    law_input_objects(s);
    lemma_fault_found(s, faults);
    match lemma_leader(s, faults, s.len() as int) {
        Some(b) => {
            assert(leads(s, faults, b));
            lemma_first_fault(s, faults, b);
            assert(!fit_for_input(s[b]));
            assert forall|j: int|
                0 <= j < s.len() && j != b && !fit_for_input(#[trigger] s[j]) implies path_lt(
                s[b].key,
                s[j].key,
            ) by {
                assert(faults[j] is Some);
            }
            assert(faults[b] == input_member_fault(s[b]));
        },
        None => {
            if s.len() > 0 {
                assert(faults[0] is None);
                assert(fit_for_input(s[0]));
                if s.len() > 1 {
                    assert(faults[1] is None);
                    assert(s[0].key != s[1].key);
                }
            } else {
                assert(!exists|i: int| keyed(s, "layers"@, i));
            }
        },
    }
}

/// Keys are distinct where no two members share one.
pub proof fn law_distinct_keys(s: Seq<MemberView>)
    ensures
        distinct_keys(s) <==> forall|i: int, j: int|
            0 <= i < s.len() && 0 <= j < s.len() && #[trigger] s[i].key == #[trigger] s[j].key ==> i
                == j,
{
    if distinct_keys(s) {
        assert forall|i: int, j: int|
            0 <= i < s.len() && 0 <= j < s.len() && #[trigger] s[i].key
                == #[trigger] s[j].key implies i == j by {
            if i < j {
                assert(s[i].key != s[j].key);
            } else if j < i {
                assert(s[j].key != s[i].key);
            }
        }
    }
}

/// The outcome of a result is the view of what it holds.
proof fn law_outcomes(
    a: Result<Vec<String>, String>,
    b: Result<LayerInput, String>,
    c: Result<Vec<LayerInput>, String>,
)
    ensures
        a matches Ok(v) ==> strings_outcome(a) == Ok::<Seq<Path>, Seq<char>>(paths(v@)),
        a matches Err(m) ==> strings_outcome(a) == Err::<Seq<Path>, Seq<char>>(m@),
        b matches Ok(l) ==> layer_outcome(b) == Ok::<LayerView, Seq<char>>(l@),
        b matches Err(m) ==> layer_outcome(b) == Err::<LayerView, Seq<char>>(m@),
        c matches Ok(v) ==> layers_outcome(c) == Ok::<Seq<LayerView>, Seq<char>>(layer_views(v@)),
        c matches Err(m) ==> layers_outcome(c) == Err::<Seq<LayerView>, Seq<char>>(m@),
{
}

} // verus!
