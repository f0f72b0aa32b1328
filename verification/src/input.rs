//! Reading and checking an input, from text to a merged image.
use vstd::prelude::*;
use crate::json::{sound, Json, JsonView};
use crate::laws::law_one_merge_refusal;
use crate::merge::{describes, merge};
use crate::model::{all_fit, image_after, log_after, merge_refusal};
use crate::path::{lemma_push_contains, paths, Path};
use crate::schema::{decode_document, document_layers};
use crate::text::{decimal, decimal_text, join3};
use crate::types::{ErrorCode, ErrorView, Input, LayerInput, LayerView, MergeError, Output};
use crate::validate::{canonical, law_canonical, path_error, path_fault, validate_path};
use crate::wire::{json_read, read_json};

verus! {

/// The largest number of layers.
pub const MAX_LAYERS: usize = 30;

/// The largest number of path records, over all layers.
pub const MAX_RECORDS: usize = 3000;

// ---------------------------------------------------------------------------
// What is accepted
// ---------------------------------------------------------------------------

/// The number of path records of all layers.
pub open spec fn total_records(layers: Seq<LayerView>) -> nat
    decreases layers.len(),
{
    if layers.len() == 0 {
        0
    } else {
        total_records(layers.drop_last()) + layers.last().records()
    }
}

/// The paths of a layer, in the order in which they are checked.
pub open spec fn layer_paths(layer: LayerView) -> Seq<Path> {
    layer.writes + layer.mkdirs + layer.whiteouts + layer.opaques
}

/// The error for the first path of a list that is not canonical.
pub open spec fn list_error(s: Seq<Path>, idx: nat) -> Option<ErrorView>
    decreases s.len(),
{
    if s.len() == 0 {
        None
    } else {
        match list_error(s.drop_last(), idx) {
            Some(e) => Some(e),
            None => match path_fault(s.last()) {
                Some(m) => Some(path_error(m).at(idx, s.last())),
                None => None,
            },
        }
    }
}

/// The error for the first path of the layers that is not canonical.
pub open spec fn first_path_error(layers: Seq<LayerView>) -> Option<ErrorView>
    decreases layers.len(),
{
    if layers.len() == 0 {
        None
    } else {
        match first_path_error(layers.drop_last()) {
            Some(e) => Some(e),
            None => list_error(layer_paths(layers.last()), (layers.len() - 1) as nat),
        }
    }
}

/// Why the layers are refused before they are merged, if they are: too few or
/// too many layers, too many records, or a path that is not canonical.
pub open spec fn input_error(layers: Seq<LayerView>) -> Option<ErrorView> {
    if layers.len() == 0 || layers.len() > MAX_LAYERS {
        Some(
            ErrorView::new(
                ErrorCode::InvalidInput,
                "expected 1..="@ + decimal(MAX_LAYERS as nat) + (" layers, got "@ + decimal(
                    layers.len(),
                )),
            ),
        )
    } else if total_records(layers) > MAX_RECORDS {
        Some(
            ErrorView::new(
                ErrorCode::InvalidInput,
                "expected at most "@ + decimal(MAX_RECORDS as nat) + (
                " path records in total, got "@ + decimal(total_records(layers))),
            ),
        )
    } else {
        first_path_error(layers)
    }
}

/// The layers that a document asks to merge, or why it is refused.
pub open spec fn admitted(doc: JsonView) -> Result<Seq<LayerView>, ErrorView> {
    match decode_document(doc) {
        Err(m) => Err(ErrorView::new(ErrorCode::InvalidInput, "invalid input: "@ + m)),
        Ok(layers) => match input_error(layers) {
            Some(e) => Err(e),
            None => Ok(layers),
        },
    }
}

/// The layers that a text asks to merge, or why it is refused.
pub open spec fn parsed(text: Seq<char>) -> Result<Seq<LayerView>, ErrorView> {
    match json_read(text) {
        Err(m) => Err(ErrorView::new(ErrorCode::InvalidJson, "invalid JSON: "@ + m)),
        Ok(doc) => admitted(doc),
    }
}

/// The layers or the error of a result.
pub open spec fn input_outcome(r: Result<Input, MergeError>) -> Result<
    Seq<LayerView>,
    ErrorView,
> {
    match r {
        Ok(input) => Ok(input@),
        Err(e) => Err(e@),
    }
}

// ---------------------------------------------------------------------------
// Checking
// ---------------------------------------------------------------------------

/// The first error of two lists is that of the first list, if it has one.
proof fn lemma_list_error_concat(s: Seq<Path>, t: Seq<Path>, idx: nat)
    ensures
        list_error(s + t, idx) == match list_error(s, idx) {
            Some(e) => Some(e),
            None => list_error(t, idx),
        },
    decreases t.len(),
{
    if t.len() == 0 {
        assert(s + t =~= s);
    } else {
        assert((s + t).drop_last() =~= s + t.drop_last());
        lemma_list_error_concat(s, t.drop_last(), idx);
    }
}

/// An error that comes early stays.
proof fn lemma_list_error_stop(s: Seq<Path>, k: int, idx: nat)
    requires
        0 <= k <= s.len(),
        list_error(s.take(k), idx) is Some,
    ensures
        list_error(s, idx) == list_error(s.take(k), idx),
    decreases s.len(),
{
    if k == s.len() {
        assert(s.take(k) =~= s);
    } else {
        assert(s.drop_last().take(k) =~= s.take(k));
        lemma_list_error_stop(s.drop_last(), k, idx);
    }
}

/// An error that comes early stays.
proof fn lemma_path_error_stop(layers: Seq<LayerView>, k: int)
    requires
        0 <= k <= layers.len(),
        first_path_error(layers.take(k)) is Some,
    ensures
        first_path_error(layers) == first_path_error(layers.take(k)),
    decreases layers.len(),
{
    if k == layers.len() {
        assert(layers.take(k) =~= layers);
    } else {
        assert(layers.drop_last().take(k) =~= layers.take(k));
        lemma_path_error_stop(layers.drop_last(), k);
    }
}

/// Checks the paths of a list.
fn check_list(list: &Vec<String>, idx: usize) -> (r: Result<(), MergeError>)
    ensures
        match r {
            Ok(()) => list_error(paths(list@), idx as nat) is None,
            Err(e) => list_error(paths(list@), idx as nat) == Some(e@),
        },
{
    let ghost s = paths(list@);
    let mut i: usize = 0;
    while i < list.len()
        invariant
            i <= list.len(),
            s == paths(list@),
            list_error(s.take(i as int), idx as nat) is None,
        decreases list.len() - i,
    {
        proof {
            assert(s[i as int] == list@[i as int]@);
            assert(s.take(i + 1).drop_last() =~= s.take(i as int));
        }
        match validate_path(list[i].as_str()) {
            Ok(()) => {},
            Err(e) => {
                let e = e.at(idx, list[i].as_str());
                proof {
                    lemma_list_error_stop(s, i + 1, idx as nat);
                }
                return Err(e);
            },
        }
        i += 1;
    }
    assert(s.take(i as int) =~= s);
    Ok(())
}

/// Checks the paths of a layer.
fn check_layer_paths(layer: &LayerInput, idx: usize) -> (r: Result<(), MergeError>)
    ensures
        match r {
            Ok(()) => list_error(layer_paths(layer@), idx as nat) is None,
            Err(e) => list_error(layer_paths(layer@), idx as nat) == Some(e@),
        },
{
    proof {
        let l = layer@;
        lemma_list_error_concat(l.writes, l.mkdirs, idx as nat);
        lemma_list_error_concat(l.writes + l.mkdirs, l.whiteouts, idx as nat);
        lemma_list_error_concat(l.writes + l.mkdirs + l.whiteouts, l.opaques, idx as nat);
    }
    check_list(&layer.writes, idx)?;
    check_list(&layer.mkdirs, idx)?;
    check_list(&layer.whiteouts, idx)?;
    check_list(&layer.opaques, idx)
}

/// Counts the path records of all layers.
fn count_records(input: &Input) -> (r: u128)
    requires
        input@.len() <= MAX_LAYERS,
    ensures
        r == total_records(input@),
{
    let ghost layers = input@;
    let mut total: u128 = 0;
    let mut i: usize = 0;
    while i < input.layers.len()
        invariant
            i <= input.layers.len() <= MAX_LAYERS,
            layers == input@,
            total == total_records(layers.take(i as int)),
            total <= i * (4 * usize::MAX),
        decreases input.layers.len() - i,
    {
        let layer = &input.layers[i];
        proof {
            assert(layers[i as int] == layer@);
            assert(layers.take(i + 1).drop_last() =~= layers.take(i as int));
            assert(i * (4 * usize::MAX) <= 30 * (4 * usize::MAX)) by (nonlinear_arith)
                requires
                    i <= 30,
            ;
            assert((i + 1) * (4 * usize::MAX) == i * (4 * usize::MAX) + 4 * usize::MAX)
                by (nonlinear_arith);
        }
        total = total + layer.writes.len() as u128 + layer.mkdirs.len() as u128
            + layer.whiteouts.len() as u128 + layer.opaques.len() as u128;
        i += 1;
    }
    assert(layers.take(i as int) =~= layers);
    total
}

/// Checks the limits and the paths of an input.
pub fn check_input(input: &Input) -> (r: Result<(), MergeError>)
    ensures
        match r {
            Ok(()) => input_error(input@) is None,
            Err(e) => input_error(input@) == Some(e@),
        },
{
    let ghost layers = input@;
    let n = input.layers.len();
    if n == 0 || n > MAX_LAYERS {
        let mut tail = " layers, got ".to_owned();
        tail.append(decimal_text(n as u128).as_str());
        return Err(
            MergeError::new(
                ErrorCode::InvalidInput,
                join3(
                    "expected 1..=",
                    decimal_text(MAX_LAYERS as u128).as_str(),
                    tail.as_str(),
                ),
            ),
        );
    }
    let total = count_records(input);
    if total > MAX_RECORDS as u128 {
        let mut tail = " path records in total, got ".to_owned();
        tail.append(decimal_text(total).as_str());
        return Err(
            MergeError::new(
                ErrorCode::InvalidInput,
                join3(
                    "expected at most ",
                    decimal_text(MAX_RECORDS as u128).as_str(),
                    tail.as_str(),
                ),
            ),
        );
    }
    let mut i: usize = 0;
    while i < n
        invariant
            i <= n,
            n == input.layers@.len(),
            0 < n <= MAX_LAYERS,
            layers == input@,
            total_records(layers) <= MAX_RECORDS,
            first_path_error(layers.take(i as int)) is None,
        decreases n - i,
    {
        proof {
            assert(layers[i as int] == input.layers@[i as int]@);
            assert(layers.take(i + 1).drop_last() =~= layers.take(i as int));
        }
        match check_layer_paths(&input.layers[i], i) {
            Ok(()) => {},
            Err(e) => {
                proof {
                    lemma_path_error_stop(layers, i + 1);
                }
                return Err(e);
            },
        }
        i += 1;
    }
    assert(layers.take(i as int) =~= layers);
    Ok(())
}

/// Turns a document into an input.
pub fn decode_input(doc: &Json) -> (r: Result<Input, MergeError>)
    requires
        sound(doc@),
    ensures
        input_outcome(r) == admitted(doc@),
{
    match document_layers(doc) {
        Err(m) => {
            let mut message = "invalid input: ".to_owned();
            message.append(m.as_str());
            Err(MergeError::new(ErrorCode::InvalidInput, message))
        },
        Ok(layers) => {
            let input = Input { layers };
            check_input(&input)?;
            Ok(input)
        },
    }
}

/// Parses and checks an input document.
pub fn parse_input(text: &str) -> (r: Result<Input, MergeError>)
    ensures
        input_outcome(r) == parsed(text@),
{
    match read_json(text) {
        Err(m) => {
            let mut message = "invalid JSON: ".to_owned();
            message.append(m.as_str());
            Err(MergeError::new(ErrorCode::InvalidJson, message))
        },
        Ok(doc) => decode_input(&doc),
    }
}

/// Parses, checks and merges an input document.
pub fn run(text: &str) -> (r: Result<Output, MergeError>)
    ensures
        match parsed(text@) {
            Err(e) => r is Err && r->Err_0@ == e,
            Ok(layers) => {
                &&& r is Ok <==> all_fit(layers)
                &&& r is Ok ==> describes(
                    r->Ok_0@,
                    image_after(layers),
                    log_after(layers),
                    layers.len(),
                )
                &&& r is Err ==> merge_refusal(layers, r->Err_0@)
            },
        },
{
    let input = parse_input(text)?;
    merge(&input)
}

// ---------------------------------------------------------------------------
// What acceptance and refusal mean
// ---------------------------------------------------------------------------

/// No error means that every path of the list is canonical.
proof fn lemma_list_canonical(s: Seq<Path>, idx: nat)
    ensures
        list_error(s, idx) is None <==> forall|p: Path| #[trigger] s.contains(p) ==> canonical(p),
        list_error(s, idx) matches Some(e) ==> e.code is InvalidPath && e.layer == Some(idx)
            && e.path is Some && s.contains(e.path->0) && !canonical(e.path->0),
    decreases s.len(),
{
    if s.len() > 0 {
        let t = s.drop_last();
        let x = s.last();
        lemma_list_canonical(t, idx);
        law_canonical(x);
        assert(s =~= t.push(x));
        assert forall|p: Path| #[trigger] s.contains(p) <==> t.contains(p) || p == x by {
            lemma_push_contains(t, x, p);
        }
        assert(s.contains(x));
        if forall|p: Path| #[trigger] s.contains(p) ==> canonical(p) {
            assert forall|p: Path| #[trigger] t.contains(p) implies canonical(p) by {
                assert(s.contains(p));
            }
        }
    }
}

/// A path that some record of the layers names.
pub open spec fn named(layers: Seq<LayerView>, p: Path) -> bool {
    exists|k: int| 0 <= k < layers.len() && layer_paths(#[trigger] layers[k]).contains(p)
}

/// No error means that every path of the layers is canonical.
proof fn lemma_layers_canonical(layers: Seq<LayerView>)
    ensures
        first_path_error(layers) is None <==> forall|p: Path| #[trigger]
            named(layers, p) ==> canonical(p),
        first_path_error(layers) matches Some(e) ==> e.code is InvalidPath && e.layer is Some
            && e.layer->0 < layers.len() && e.path is Some && layer_paths(
            layers[e.layer->0 as int],
        ).contains(e.path->0) && !canonical(e.path->0),
    decreases layers.len(),
{
    if layers.len() > 0 {
        let rest = layers.drop_last();
        let n = layers.len() - 1;
        let own = layer_paths(layers.last());
        lemma_layers_canonical(rest);
        lemma_list_canonical(own, n as nat);
        assert forall|p: Path| #[trigger] named(layers, p) <==> named(rest, p) || own.contains(
            p,
        ) by {
            if named(rest, p) {
                let k = choose|k: int|
                    0 <= k < rest.len() && layer_paths(#[trigger] rest[k]).contains(p);
                assert(layers[k] == rest[k]);
            }
            if own.contains(p) {
                assert(layers[n] == layers.last());
            }
            if named(layers, p) {
                let k = choose|k: int|
                    0 <= k < layers.len() && layer_paths(#[trigger] layers[k]).contains(p);
                if k < n {
                    assert(rest[k] == layers[k]);
                }
            }
        }
        if forall|p: Path| #[trigger] named(layers, p) ==> canonical(p) {
            assert forall|p: Path| #[trigger] named(rest, p) implies canonical(p) by {
                assert(named(layers, p));
            }
            assert forall|p: Path| #[trigger] own.contains(p) implies canonical(p) by {
                assert(named(layers, p));
            }
        }
        if first_path_error(rest) is Some {
            let e = first_path_error(rest)->0;
            let k = e.layer->0 as int;
            assert(rest[k] == layers[k]);
        }
    }
}

/// The layers that are accepted are those within the limits whose paths are
/// all canonical.
pub proof fn law_accepted(layers: Seq<LayerView>)
    ensures
        input_error(layers) is None <==> {
            &&& 1 <= layers.len() <= MAX_LAYERS
            &&& total_records(layers) <= MAX_RECORDS
            &&& forall|p: Path| #[trigger] named(layers, p) ==> canonical(p)
        },
{
    lemma_layers_canonical(layers);
}

/// Layers beyond the limits are malformed input; within the limits, a path
/// that is not canonical is named with its layer.
pub proof fn law_limits_come_first(layers: Seq<LayerView>, e: ErrorView)
    requires
        input_error(layers) == Some(e),
    ensures
        e.code is InvalidInput <==> !(1 <= layers.len() <= MAX_LAYERS) || total_records(layers)
            > MAX_RECORDS,
        !(e.code is InvalidInput) ==> e.code is InvalidPath && e.layer is Some && e.layer->0
            < layers.len() && e.path is Some && layer_paths(
            layers[e.layer->0 as int],
        ).contains(e.path->0) && !canonical(e.path->0),
{
    lemma_layers_canonical(layers);
}

/// The exit codes: malformed text, schema violations and broken limits give 2,
/// everything else that is refused gives 1, and nothing is refused with an internal error.
pub proof fn law_exit_codes(text: Seq<char>, e: ErrorView)
    requires
        match parsed(text) {
            Err(f) => e == f,
            Ok(layers) => merge_refusal(layers, e),
        },
    ensures
        json_read(text) is Err <==> e.code is InvalidJson,
        e.exit_code() == 2 <==> {
            ||| json_read(text) is Err
            ||| decode_document(json_read(text)->Ok_0) is Err
            ||| !(1 <= decode_document(json_read(text)->Ok_0)->Ok_0.len() <= MAX_LAYERS)
            ||| total_records(decode_document(json_read(text)->Ok_0)->Ok_0) > MAX_RECORDS
        },
        e.exit_code() == 1 || e.exit_code() == 2,
        !(e.code is Internal),
{
    match json_read(text) {
        Err(m) => {},
        Ok(doc) => match decode_document(doc) {
            Err(m) => {},
            Ok(layers) => match input_error(layers) {
                Some(f) => {
                    law_limits_come_first(layers, f);
                },
                None => {
                    law_one_merge_refusal(layers, e, e);
                },
            },
        },
    }
}

// ---------------------------------------------------------------------------
// The words of refusal
// ---------------------------------------------------------------------------

/// One more layer adds the records of its four lists to the total.
pub proof fn law_total_records(layers: Seq<LayerView>, l: LayerView)
    ensures
        layers.len() == 0 ==> total_records(layers) == 0,
        total_records(layers.push(l)) == total_records(layers) + l.writes.len() + l.mkdirs.len()
            + l.whiteouts.len() + l.opaques.len(),
{
    assert(layers.push(l).drop_last() =~= layers);
}

/// Too few or too many layers, and then too many records, are refused in these words.
pub proof fn law_limit_messages(layers: Seq<LayerView>)
    ensures
        layers.len() < 1 || layers.len() > 30 ==> input_error(layers) is Some && ({
            let e = input_error(layers)->0;
            &&& e.code == ErrorCode::InvalidInput
            &&& e.message == "expected 1..=30 layers, got "@ + decimal(layers.len())
            &&& e.layer is None
            &&& e.path is None
        }),
        1 <= layers.len() <= 30 && total_records(layers) > 3000 ==> input_error(layers) is Some
            && ({
            let e = input_error(layers)->0;
            &&& e.code == ErrorCode::InvalidInput
            &&& e.message == "expected at most 3000 path records in total, got "@ + decimal(
                total_records(layers),
            )
            &&& e.layer is None
            &&& e.path is None
        }),
{
    reveal_strlit("expected 1..=30 layers, got ");
    reveal_strlit("expected 1..=");
    reveal_strlit(" layers, got ");
    reveal_strlit("expected at most 3000 path records in total, got ");
    reveal_strlit("expected at most ");
    reveal_strlit(" path records in total, got ");
    assert(decimal(30) =~= seq!['3', '0']) by {
        reveal_with_fuel(decimal, 2);
    }
    assert(decimal(3000) =~= seq!['3', '0', '0', '0']) by {
        reveal_with_fuel(decimal, 4);
    }
    let n = decimal(layers.len());
    let t = decimal(total_records(layers));
    assert("expected 1..="@ + decimal(30) + (" layers, got "@ + n)
        =~= "expected 1..=30 layers, got "@ + n);
    assert("expected at most "@ + decimal(3000) + (" path records in total, got "@ + t)
        =~= "expected at most 3000 path records in total, got "@ + t);
}

/// Path `i` of the list is the first that is not accepted, and the error says so.
pub open spec fn tells_of_path(s: Seq<Path>, i: int, k: nat, e: ErrorView) -> bool {
    &&& 0 <= i < s.len()
    &&& path_fault(s[i]) is Some
    &&& forall|j: int| 0 <= j < i ==> path_fault(#[trigger] s[j]) is None
    &&& e.code == ErrorCode::InvalidPath
    &&& e.message == path_fault(s[i])->0
    &&& e.layer == Some(k)
    &&& e.path == Some(s[i])
}

/// The error of a list tells of its first path that is not accepted.
proof fn lemma_list_told(s: Seq<Path>, k: nat)
    ensures
        list_error(s, k) is None <==> forall|j: int|
            0 <= j < s.len() ==> path_fault(#[trigger] s[j]) is None,
        list_error(s, k) matches Some(e) ==> exists|i: int| tells_of_path(s, i, k, e),
    decreases s.len(),
{
    if s.len() > 0 {
        let t = s.drop_last();
        let n = s.len() - 1;
        lemma_list_told(t, k);
        assert forall|j: int| 0 <= j < n implies #[trigger] s[j] == t[j] by {}
        if list_error(t, k) is Some {
            let e = list_error(t, k)->0;
            let i = choose|i: int| tells_of_path(t, i, k, e);
            assert forall|j: int| 0 <= j < i implies path_fault(#[trigger] s[j]) is None by {
                assert(path_fault(t[j]) is None);
            }
            assert(tells_of_path(s, i, k, e));
            assert(path_fault(s[i]) is Some);
        } else {
            assert forall|j: int| 0 <= j < n implies path_fault(#[trigger] s[j]) is None by {
                assert(path_fault(t[j]) is None);
            }
            if path_fault(s[n]) is Some {
                assert(tells_of_path(s, n, k, list_error(s, k)->0));
            }
        }
    }
}

/// The layer holds only paths that are accepted.
pub open spec fn only_accepted(l: LayerView) -> bool {
    &&& forall|p: Path| #[trigger] l.writes.contains(p) ==> path_fault(p) is None
    &&& forall|p: Path| #[trigger] l.mkdirs.contains(p) ==> path_fault(p) is None
    &&& forall|p: Path| #[trigger] l.whiteouts.contains(p) ==> path_fault(p) is None
    &&& forall|p: Path| #[trigger] l.opaques.contains(p) ==> path_fault(p) is None
}

/// The error tells of the first path, layer by layer and in each layer writes,
/// mkdirs, whiteouts, opaques, that is not accepted.
pub open spec fn tells_of_layer(layers: Seq<LayerView>, k: int, e: ErrorView) -> bool {
    let s = layers[k].writes + layers[k].mkdirs + layers[k].whiteouts + layers[k].opaques;
    let n = k as nat;
    &&& 0 <= k < layers.len()
    &&& exists|i: int| tells_of_path(s, i, n, e)
    &&& forall|h: int| 0 <= h < k ==> only_accepted(#[trigger] layers[h])
}

/// A layer without an error holds only paths that are accepted.
proof fn lemma_layer_accepted(l: LayerView, k: nat)
    ensures
        list_error(layer_paths(l), k) is None <==> only_accepted(l),
{
    let s = layer_paths(l);
    let a = l.writes.len();
    let b = l.mkdirs.len();
    let c = l.whiteouts.len();
    lemma_list_told(s, k);
    if list_error(s, k) is None {
        assert forall|p: Path| #[trigger] l.writes.contains(p) implies path_fault(p) is None by {
            let i = choose|i: int| 0 <= i < l.writes.len() && l.writes[i] == p;
            assert(s[i] == p);
        }
        assert forall|p: Path| #[trigger] l.mkdirs.contains(p) implies path_fault(p) is None by {
            let i = choose|i: int| 0 <= i < l.mkdirs.len() && l.mkdirs[i] == p;
            assert(s[a + i] == p);
        }
        assert forall|p: Path| #[trigger] l.whiteouts.contains(p) implies path_fault(
            p,
        ) is None by {
            let i = choose|i: int| 0 <= i < l.whiteouts.len() && l.whiteouts[i] == p;
            assert(s[a + b + i] == p);
        }
        assert forall|p: Path| #[trigger] l.opaques.contains(p) implies path_fault(p) is None by {
            let i = choose|i: int| 0 <= i < l.opaques.len() && l.opaques[i] == p;
            assert(s[a + b + c + i] == p);
        }
    }
    if only_accepted(l) {
        assert forall|j: int| 0 <= j < s.len() implies path_fault(#[trigger] s[j]) is None by {
            if j < a {
                assert(l.writes.contains(l.writes[j]));
            } else if j < a + b {
                assert(l.mkdirs.contains(l.mkdirs[j - a]));
            } else if j < a + b + c {
                assert(l.whiteouts.contains(l.whiteouts[j - a - b]));
            } else {
                assert(l.opaques.contains(l.opaques[j - a - b - c]));
            }
        }
    }
}

/// The first path error of all layers.
proof fn lemma_layers_told(layers: Seq<LayerView>)
    ensures
        first_path_error(layers) is None <==> forall|k: int|
            0 <= k < layers.len() ==> only_accepted(#[trigger] layers[k]),
        first_path_error(layers) matches Some(e) ==> exists|k: int| tells_of_layer(layers, k, e),
    decreases layers.len(),
{
    if layers.len() > 0 {
        let rest = layers.drop_last();
        let n = layers.len() - 1;
        lemma_layers_told(rest);
        lemma_layer_accepted(layers[n], n as nat);
        lemma_list_told(layer_paths(layers[n]), n as nat);
        assert forall|k: int| 0 <= k < n implies #[trigger] layers[k] == rest[k] by {}
        if first_path_error(rest) is Some {
            let e = first_path_error(rest)->0;
            let k = choose|k: int| tells_of_layer(rest, k, e);
            assert(rest[k] == layers[k]);
            assert forall|h: int| 0 <= h < k implies only_accepted(#[trigger] layers[h]) by {
                assert(only_accepted(rest[h]));
            }
            assert(tells_of_layer(layers, k, e));
            let bad = choose|k: int| 0 <= k < rest.len() && !only_accepted(#[trigger] rest[k]);
            assert(layers[bad] == rest[bad]);
        } else {
            assert forall|k: int| 0 <= k < n implies only_accepted(#[trigger] layers[k]) by {
                assert(only_accepted(rest[k]));
            }
            if list_error(layer_paths(layers[n]), n as nat) is Some {
                let e = list_error(layer_paths(layers[n]), n as nat)->0;
                assert(tells_of_layer(layers, n, e));
            }
        }
    }
}

/// Layers are accepted exactly where there are 1 to 30 of them with at most 3000
/// records together, and every path of every list is accepted. Within the limits, the error
/// tells of the first path that is not.
pub proof fn law_input_accepted(layers: Seq<LayerView>)
    ensures
        input_error(layers) is None <==> {
            &&& 1 <= layers.len() <= 30
            &&& total_records(layers) <= 3000
            &&& forall|k: int| 0 <= k < layers.len() ==> only_accepted(#[trigger] layers[k])
        },
        1 <= layers.len() <= 30 && total_records(layers) <= 3000 ==> (input_error(
            layers,
        ) matches Some(e) ==> exists|k: int| tells_of_layer(layers, k, e)),
{
    lemma_layers_told(layers);
}

/// What a text comes to: what the JSON reader refuses is malformed JSON, what is no
/// input document is malformed input, and else the layers of the document count.
pub proof fn law_parsed(text: Seq<char>)
    ensures
        json_read(text) matches Err(m) ==> parsed(text) is Err && ({
            let e = parsed(text)->Err_0;
            &&& e.code == ErrorCode::InvalidJson
            &&& e.message == "invalid JSON: "@ + m
            &&& e.layer is None
            &&& e.path is None
        }),
        json_read(text) matches Ok(doc) ==> (decode_document(doc) matches Err(m) ==> parsed(
            text,
        ) is Err && ({
            let e = parsed(text)->Err_0;
            &&& e.code == ErrorCode::InvalidInput
            &&& e.message == "invalid input: "@ + m
            &&& e.layer is None
            &&& e.path is None
        })),
        json_read(text) matches Ok(doc) ==> (decode_document(doc) matches Ok(layers) ==> {
            &&& input_error(layers) is None ==> parsed(text) == Ok::<Seq<LayerView>, ErrorView>(
                layers,
            )
            &&& input_error(layers) matches Some(e) ==> parsed(text) == Err::<
                Seq<LayerView>,
                ErrorView,
            >(e)
        }),
        json_read(text) matches Ok(doc) ==> parsed(text) == admitted(doc),
{
}

/// The outcome of a result is the view of what it holds.
pub proof fn law_input_outcome(r: Result<Input, MergeError>)
    ensures
        r matches Ok(input) ==> input_outcome(r) == Ok::<Seq<LayerView>, ErrorView>(input@),
        r matches Err(e) ==> input_outcome(r) == Err::<Seq<LayerView>, ErrorView>(e@),
{
}

} // verus!
