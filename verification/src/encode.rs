//! Inputs as JSON: the document that describes given layers.
use vstd::prelude::*;
use crate::input::{input_error, parsed};
use crate::json::{
    distinct_keys, integral, json_views, member_views, nested_within, sound, Json, JsonView,
    MemberView,
};
use crate::path::{paths, Path};
use crate::report::{entry, lemma_nested_more, list, member, object, text};
use crate::schema::{
    decode_document, decode_layer, field, keyed, law_input_objects, layer_fault, layer_faults,
    layers_of, lemma_fault_found, texts,
};
use crate::types::{ErrorView, Input, LayerInput, LayerView};
use crate::wire::{json_compact, json_pretty, reads_as, write_json, MAX_NESTING};

verus! {

// ---------------------------------------------------------------------------
// What is written
// ---------------------------------------------------------------------------

/// The documents of a list of paths.
pub open spec fn path_docs(s: Seq<Path>) -> Seq<JsonView> {
    s.map_values(|p: Path| JsonView::Text(p))
}

/// The members of a layer: its four lists.
pub open spec fn layer_members(l: LayerView) -> Seq<MemberView> {
    seq![
        member("writes"@, JsonView::List(path_docs(l.writes))),
        member("mkdirs"@, JsonView::List(path_docs(l.mkdirs))),
        member("whiteouts"@, JsonView::List(path_docs(l.whiteouts))),
        member("opaques"@, JsonView::List(path_docs(l.opaques))),
    ]
}

/// The document of a layer.
pub open spec fn layer_doc(l: LayerView) -> JsonView {
    JsonView::Object(layer_members(l))
}

/// The documents of the layers.
pub open spec fn layer_docs(layers: Seq<LayerView>) -> Seq<JsonView> {
    layers.map_values(|l: LayerView| layer_doc(l))
}

/// The document that describes the layers.
pub open spec fn input_doc(layers: Seq<LayerView>) -> JsonView {
    JsonView::Object(seq![member("layers"@, JsonView::List(layer_docs(layers)))])
}

// ---------------------------------------------------------------------------
// What is read back
// ---------------------------------------------------------------------------

/// The keys of a layer differ.
proof fn lemma_layer_keys()
    ensures
        "writes"@ != "mkdirs"@,
        "writes"@ != "whiteouts"@,
        "writes"@ != "opaques"@,
        "mkdirs"@ != "whiteouts"@,
        "mkdirs"@ != "opaques"@,
        "whiteouts"@ != "opaques"@,
{
    reveal_strlit("writes");
    reveal_strlit("mkdirs");
    reveal_strlit("whiteouts");
    reveal_strlit("opaques");
    assert("writes"@.len() == 6);
    assert("mkdirs"@.len() == 6);
    assert("whiteouts"@.len() == 9);
    assert("opaques"@.len() == 7);
    assert("writes"@[0] != "mkdirs"@[0]);
}

/// A list of paths is read back.
proof fn lemma_texts_back(s: Seq<Path>)
    ensures
        texts(path_docs(s)) == Ok::<Seq<Path>, Seq<char>>(s),
    decreases s.len(),
{
    if s.len() == 0 {
        assert(s =~= Seq::<Path>::empty());
    } else {
        let rest = s.drop_last();
        lemma_texts_back(rest);
        assert(path_docs(s).drop_last() =~= path_docs(rest));
        assert(rest.push(s.last()) =~= s);
    }
}

/// The field of the only member with its key.
proof fn lemma_field(s: Seq<MemberView>, i: int)
    requires
        distinct_keys(s),
        0 <= i < s.len(),
    ensures
        field(s, s[i].key) == Some(s[i].value),
{
    assert(keyed(s, s[i].key, i));
    let j = choose|j: int| keyed(s, s[i].key, j);
    if j < i {
        assert(s[j].key != s[i].key);
    } else if i < j {
        assert(s[i].key != s[j].key);
    }
}

/// The document of a layer describes the layer.
pub proof fn law_layer_reads_back(l: LayerView)
    ensures
        decode_layer(layer_doc(l)) == Ok::<LayerView, Seq<char>>(l),
{
    lemma_layer_keys();
    lemma_texts_back(l.writes);
    lemma_texts_back(l.mkdirs);
    lemma_texts_back(l.whiteouts);
    lemma_texts_back(l.opaques);
    let s = layer_members(l);
    assert(distinct_keys(s));
    let faults = layer_faults(s);
    assert forall|j: int| 0 <= j < s.len() implies (#[trigger] faults[j]) is None by {
        assert(faults[j] == layer_fault(s[j]));
    }
    lemma_fault_found(s, faults);
    lemma_field(s, 0);
    lemma_field(s, 1);
    lemma_field(s, 2);
    lemma_field(s, 3);
}

/// A list of layers is read back.
proof fn lemma_layers_back(layers: Seq<LayerView>)
    ensures
        layers_of(layer_docs(layers)) == Ok::<Seq<LayerView>, Seq<char>>(layers),
    decreases layers.len(),
{
    if layers.len() == 0 {
        assert(layers =~= Seq::<LayerView>::empty());
    } else {
        let rest = layers.drop_last();
        lemma_layers_back(rest);
        law_layer_reads_back(layers.last());
        assert(layer_docs(layers).drop_last() =~= layer_docs(rest));
        assert(rest.push(layers.last()) =~= layers);
    }
}

/// The document that describes layers describes exactly those: the same
/// layers, with the same four lists in the same order.
pub proof fn law_input_reads_back(layers: Seq<LayerView>)
    ensures
        decode_document(input_doc(layers)) == Ok::<Seq<LayerView>, Seq<char>>(layers),
{
    let s = input_doc(layers)->Object_0;
    assert(distinct_keys(s));
    lemma_layers_back(layers);
    law_input_objects(s);
}

/// A text that reads as the document of layers within the limits and with
/// canonical paths only is parsed as those layers; of others, the error is theirs.
pub proof fn law_parses_back(text: Seq<char>, layers: Seq<LayerView>)
    requires
        reads_as(text, input_doc(layers)),
    ensures
        parsed(text) == match input_error(layers) {
            Some(e) => Err::<Seq<LayerView>, ErrorView>(e),
            None => Ok::<Seq<LayerView>, ErrorView>(layers),
        },
{
    law_input_reads_back(layers);
}

/// The document of a list of paths is fit to be written and read.
proof fn lemma_path_list(s: Seq<Path>)
    ensures
        sound(JsonView::List(path_docs(s))),
        integral(JsonView::List(path_docs(s))),
        nested_within(JsonView::List(path_docs(s)), 1),
{
    let docs = path_docs(s);
    let v = JsonView::List(docs);
    assert(v->List_0 == docs);
    assert forall|k: int| 0 <= k < docs.len() implies sound(#[trigger] docs[k]) && integral(
        docs[k],
    ) && nested_within(docs[k], 0) by {
        assert(docs[k] == JsonView::Text(s[k]));
    }
}

/// The document of an input is fit to be written and read.
proof fn lemma_input_doc(layers: Seq<LayerView>)
    ensures
        sound(input_doc(layers)),
        integral(input_doc(layers)),
        nested_within(input_doc(layers), MAX_NESTING as nat),
{
    lemma_layer_keys();
    let docs = layer_docs(layers);
    assert forall|i: int| 0 <= i < docs.len() implies sound(#[trigger] docs[i]) && integral(
        docs[i],
    ) && nested_within(docs[i], 2) by {
        let ms = layer_members(layers[i]);
        let doc = docs[i];
        assert(doc->Object_0 == ms);
        assert(distinct_keys(ms));
        assert forall|j: int| 0 <= j < ms.len() implies sound((#[trigger] ms[j]).value)
            && integral(ms[j].value) && nested_within(ms[j].value, 1) by {
            let l = layers[i];
            lemma_path_list(l.writes);
            lemma_path_list(l.mkdirs);
            lemma_path_list(l.whiteouts);
            lemma_path_list(l.opaques);
        }
    }
    let whole = JsonView::List(docs);
    assert(whole->List_0 == docs);
    assert(sound(whole) && integral(whole) && nested_within(whole, 3));
    let doc = input_doc(layers);
    let ms = doc->Object_0;
    assert(ms[0].value == whole);
    assert(distinct_keys(ms));
    assert(nested_within(doc, 4));
    lemma_nested_more(doc, 4, MAX_NESTING as nat);
}

// ---------------------------------------------------------------------------
// Writing
// ---------------------------------------------------------------------------

/// The document of a list of paths.
fn paths_json(v: &Vec<String>) -> (r: Json)
    ensures
        r@ == JsonView::List(path_docs(paths(v@))),
{
    let mut out: Vec<Json> = Vec::new();
    let mut i: usize = 0;
    while i < v.len()
        invariant
            i <= v.len(),
            out@.len() == i,
            forall|k: int| 0 <= k < i ==> (#[trigger] out@[k])@ == JsonView::Text(v@[k]@),
        decreases v.len() - i,
    {
        out.push(text(v[i].as_str()));
        i += 1;
    }
    assert(json_views(out@) =~= path_docs(paths(v@)));
    list(out)
}

/// The document of a layer.
fn layer_json(l: &LayerInput) -> (r: Json)
    ensures
        r@ == layer_doc(l@),
{
    let ms = vec![
        entry("writes", paths_json(&l.writes)),
        entry("mkdirs", paths_json(&l.mkdirs)),
        entry("whiteouts", paths_json(&l.whiteouts)),
        entry("opaques", paths_json(&l.opaques)),
    ];
    assert(member_views(ms@) =~= layer_members(l@));
    object(ms)
}

/// The document that describes an input.
pub fn input_document(input: &Input) -> (r: Json)
    ensures
        r@ == input_doc(input@),
{
    let mut out: Vec<Json> = Vec::new();
    let mut i: usize = 0;
    while i < input.layers.len()
        invariant
            i <= input.layers.len(),
            out@.len() == i,
            forall|k: int| 0 <= k < i ==> (#[trigger] out@[k])@ == layer_doc(input.layers@[k]@),
        decreases input.layers.len() - i,
    {
        out.push(layer_json(&input.layers[i]));
        i += 1;
    }
    assert(json_views(out@) =~= layer_docs(input@));
    let ms = vec![entry("layers", list(out))];
    assert(member_views(ms@) =~= input_doc(input@)->Object_0);
    object(ms)
}

/// Writes an input as JSON, indented or not. Parsing the text gives the input back,
/// or refuses it for what is wrong with it.
pub fn input_json(input: &Input, pretty: bool) -> (r: String)
    ensures
        r@ == if pretty {
            json_pretty(input_doc(input@))
        } else {
            json_compact(input_doc(input@))
        },
        pretty <==> r@.contains('\n'),
        reads_as(r@, input_doc(input@)),
        parsed(r@) == match input_error(input@) {
            Some(e) => Err::<Seq<LayerView>, ErrorView>(e),
            None => Ok::<Seq<LayerView>, ErrorView>(input@),
        },
{
    proof {
        lemma_input_doc(input@);
    }
    let r = write_json(&input_document(input), pretty);
    proof {
        law_parses_back(r@, input@);
    }
    r
}

/// The document of an input holds its layers in order, each with its four lists,
/// path for path.
pub proof fn law_input_document(layers: Seq<LayerView>)
    ensures
        input_doc(layers) is Object,
        input_doc(layers)->Object_0.len() == 1,
        input_doc(layers)->Object_0[0].key == "layers"@,
        input_doc(layers)->Object_0[0].value is List,
        input_doc(layers)->Object_0[0].value->List_0.len() == layers.len(),
        forall|k: int|
            0 <= k < layers.len() ==> {
                let d = #[trigger] input_doc(layers)->Object_0[0].value->List_0[k];
                &&& d is Object
                &&& d->Object_0.len() == 4
                &&& d->Object_0[0].key == "writes"@
                &&& d->Object_0[0].value == JsonView::List(
                    layers[k].writes.map_values(|p: Path| JsonView::Text(p)),
                )
                &&& d->Object_0[1].key == "mkdirs"@
                &&& d->Object_0[1].value == JsonView::List(
                    layers[k].mkdirs.map_values(|p: Path| JsonView::Text(p)),
                )
                &&& d->Object_0[2].key == "whiteouts"@
                &&& d->Object_0[2].value == JsonView::List(
                    layers[k].whiteouts.map_values(|p: Path| JsonView::Text(p)),
                )
                &&& d->Object_0[3].key == "opaques"@
                &&& d->Object_0[3].value == JsonView::List(
                    layers[k].opaques.map_values(|p: Path| JsonView::Text(p)),
                )
            },
{
    assert forall|k: int| 0 <= k < layers.len() implies #[trigger] input_doc(
        layers,
    )->Object_0[0].value->List_0[k] == layer_doc(layers[k]) by {}
}

} // verus!
