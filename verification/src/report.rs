//! The output format: merged images and errors as JSON.
use vstd::prelude::*;
use crate::json::{
    distinct_keys, integral, json_views, lemma_list_view, lemma_object_view, member_views,
    nested_within, sound, Json, JsonView, Member, MemberView,
};
use crate::merge::describes;
use crate::model::Image;
use crate::path::{under, Path};
use crate::tree::{child_of, children_show, node_shows, tree_paths};
use crate::types::{
    file_views, index_view, log_views, ErrorCode, ErrorView, FileSource, FileView, Kind, MergeError,
    Obscured, ObscuredView, Output, OutputView, Reason, Stats, TreeNode, TreeView,
};
use crate::wire::{json_compact, json_pretty, reads_as, write_json, MAX_NESTING};

verus! {

// ---------------------------------------------------------------------------
// What is written
// ---------------------------------------------------------------------------

/// A member of an object.
pub open spec fn member(key: Seq<char>, value: JsonView) -> MemberView {
    MemberView { key, value }
}

/// The name of a kind.
pub open spec fn kind_name(k: Kind) -> Seq<char> {
    match k {
        Kind::File => "file"@,
        Kind::Dir => "dir"@,
    }
}

/// The name of a reason.
pub open spec fn reason_name(r: Reason) -> Seq<char> {
    match r {
        Reason::Overwritten => "overwritten"@,
        Reason::Whiteout => "whiteout"@,
        Reason::WhiteoutAncestor => "whiteout_ancestor"@,
        Reason::OpaqueAncestor => "opaque_ancestor"@,
        Reason::ReplacedByFile => "replaced_by_file"@,
        Reason::ReplacedByDir => "replaced_by_dir"@,
        Reason::ReplacedAncestor => "replaced_ancestor"@,
    }
}

/// The name of an error class.
pub open spec fn code_name(c: ErrorCode) -> Seq<char> {
    match c {
        ErrorCode::InvalidJson => "invalid_json"@,
        ErrorCode::InvalidInput => "invalid_input"@,
        ErrorCode::InvalidPath => "invalid_path"@,
        ErrorCode::LayerConflict => "layer_conflict"@,
        ErrorCode::InvalidOpaque => "invalid_opaque"@,
        ErrorCode::FileAsParent => "file_as_parent"@,
        ErrorCode::Internal => "internal"@,
    }
}

/// A layer index, or null.
pub open spec fn index_doc(o: Option<nat>) -> JsonView {
    match o {
        Some(n) => JsonView::Integer(n as int),
        None => JsonView::Null,
    }
}

/// A node of the tree. Without children it has no such member.
pub open spec fn tree_doc(t: TreeView) -> JsonView
    decreases t,
{
    let fixed = seq![
        member("kind"@, JsonView::Text(kind_name(t.kind))),
        member("path"@, JsonView::Text(t.path)),
        member("source_layer"@, index_doc(t.source_layer)),
    ];
    if t.children.len() == 0 {
        JsonView::Object(fixed)
    } else {
        JsonView::Object(
            fixed.push(
                member(
                    "children"@,
                    JsonView::List(
                        Seq::new(
                            t.children.len(),
                            |i: int|
                                if 0 <= i < t.children.len() {
                                    tree_doc(t.children[i])
                                } else {
                                    arbitrary()
                                },
                        ),
                    ),
                ),
            ),
        )
    }
}

/// A surviving file.
pub open spec fn file_doc(f: FileView) -> JsonView {
    JsonView::Object(
        seq![
            member("path"@, JsonView::Text(f.path)),
            member("source_layer"@, JsonView::Integer(f.source_layer as int)),
        ],
    )
}

/// A log entry. Without a path that is responsible it has no such member.
pub open spec fn event_doc(o: ObscuredView) -> JsonView {
    let fixed = seq![
        member("path"@, JsonView::Text(o.path)),
        member("source_layer"@, JsonView::Integer(o.source_layer as int)),
        member("reason"@, JsonView::Text(reason_name(o.reason))),
        member("by_layer"@, JsonView::Integer(o.by_layer as int)),
    ];
    match o.via {
        Some(v) => JsonView::Object(fixed.push(member("via"@, JsonView::Text(v)))),
        None => JsonView::Object(fixed),
    }
}

/// The totals.
pub open spec fn stats_doc(s: Stats) -> JsonView {
    JsonView::Object(
        seq![
            member("layers"@, JsonView::Integer(s.layers as int)),
            member("files"@, JsonView::Integer(s.files as int)),
            member("dirs"@, JsonView::Integer(s.dirs as int)),
            member("obscured"@, JsonView::Integer(s.obscured as int)),
        ],
    )
}

/// The documents of the files.
pub open spec fn file_docs(s: Seq<FileView>) -> Seq<JsonView> {
    s.map_values(|f: FileView| file_doc(f))
}

/// The documents of the log entries.
pub open spec fn event_docs(s: Seq<ObscuredView>) -> Seq<JsonView> {
    s.map_values(|o: ObscuredView| event_doc(o))
}

/// The document for a merged image.
pub open spec fn ok_doc(out: OutputView) -> JsonView {
    JsonView::Object(
        seq![
            member("ok"@, JsonView::Bool(true)),
            member("tree"@, tree_doc(out.tree)),
            member("files"@, JsonView::List(file_docs(out.files))),
            member("obscured"@, JsonView::List(event_docs(out.obscured))),
            member("stats"@, stats_doc(out.stats)),
        ],
    )
}

/// What an error says, member by member. A missing layer or path has no member.
pub open spec fn error_members(e: ErrorView) -> Seq<MemberView> {
    let fixed = seq![
        member("code"@, JsonView::Text(code_name(e.code))),
        member("message"@, JsonView::Text(e.message)),
    ];
    let placed = match e.layer {
        Some(n) => fixed.push(member("layer"@, JsonView::Integer(n as int))),
        None => fixed,
    };
    match e.path {
        Some(p) => placed.push(member("path"@, JsonView::Text(p))),
        None => placed,
    }
}

/// The document for an error.
pub open spec fn error_doc(e: ErrorView) -> JsonView {
    JsonView::Object(
        seq![
            member("ok"@, JsonView::Bool(false)),
            member("error"@, JsonView::Object(error_members(e))),
        ],
    )
}

// ---------------------------------------------------------------------------
// Keys
// ---------------------------------------------------------------------------

/// The keys of a node differ.
proof fn lemma_node_keys()
    ensures
        "kind"@ != "path"@,
        "kind"@ != "source_layer"@,
        "kind"@ != "children"@,
        "path"@ != "source_layer"@,
        "path"@ != "children"@,
        "source_layer"@ != "children"@,
{
    reveal_strlit("kind");
    reveal_strlit("path");
    reveal_strlit("source_layer");
    reveal_strlit("children");
    assert("kind"@.len() == 4);
    assert("path"@.len() == 4);
    assert("source_layer"@.len() == 12);
    assert("children"@.len() == 8);
    assert("kind"@[0] != "path"@[0]);
}

/// The keys of a log entry differ.
proof fn lemma_event_keys()
    ensures
        "path"@ != "source_layer"@,
        "path"@ != "reason"@,
        "path"@ != "by_layer"@,
        "path"@ != "via"@,
        "source_layer"@ != "reason"@,
        "source_layer"@ != "by_layer"@,
        "source_layer"@ != "via"@,
        "reason"@ != "by_layer"@,
        "reason"@ != "via"@,
        "by_layer"@ != "via"@,
{
    reveal_strlit("path");
    reveal_strlit("source_layer");
    reveal_strlit("reason");
    reveal_strlit("by_layer");
    reveal_strlit("via");
    assert("path"@.len() == 4);
    assert("source_layer"@.len() == 12);
    assert("reason"@.len() == 6);
    assert("by_layer"@.len() == 8);
    assert("via"@.len() == 3);
}

/// The keys of the totals differ.
proof fn lemma_stats_keys()
    ensures
        "layers"@ != "files"@,
        "layers"@ != "dirs"@,
        "layers"@ != "obscured"@,
        "files"@ != "dirs"@,
        "files"@ != "obscured"@,
        "dirs"@ != "obscured"@,
{
    reveal_strlit("layers");
    reveal_strlit("files");
    reveal_strlit("dirs");
    reveal_strlit("obscured");
    assert("layers"@.len() == 6);
    assert("files"@.len() == 5);
    assert("dirs"@.len() == 4);
    assert("obscured"@.len() == 8);
}

/// The keys of the envelope of an output differ.
proof fn lemma_ok_keys()
    ensures
        "ok"@ != "tree"@,
        "ok"@ != "files"@,
        "ok"@ != "obscured"@,
        "ok"@ != "stats"@,
        "tree"@ != "files"@,
        "tree"@ != "obscured"@,
        "tree"@ != "stats"@,
        "files"@ != "obscured"@,
        "files"@ != "stats"@,
        "obscured"@ != "stats"@,
{
    reveal_strlit("ok");
    reveal_strlit("tree");
    reveal_strlit("files");
    reveal_strlit("obscured");
    reveal_strlit("stats");
    assert("ok"@.len() == 2);
    assert("tree"@.len() == 4);
    assert("files"@.len() == 5);
    assert("obscured"@.len() == 8);
    assert("stats"@.len() == 5);
    assert("files"@[0] != "stats"@[0]);
}

/// The keys of the envelope of an error differ.
proof fn lemma_error_keys()
    ensures
        "ok"@ != "error"@,
        "code"@ != "message"@,
        "code"@ != "layer"@,
        "code"@ != "path"@,
        "message"@ != "layer"@,
        "message"@ != "path"@,
        "layer"@ != "path"@,
{
    reveal_strlit("ok");
    reveal_strlit("error");
    reveal_strlit("code");
    reveal_strlit("message");
    reveal_strlit("layer");
    reveal_strlit("path");
    assert("ok"@.len() == 2);
    assert("error"@.len() == 5);
    assert("code"@.len() == 4);
    assert("message"@.len() == 7);
    assert("layer"@.len() == 5);
    assert("path"@.len() == 4);
    assert("code"@[0] != "path"@[0]);
}

/// A document that holds no others, and is no fraction.
spec fn leaf(v: JsonView) -> bool {
    !(v is List) && !(v is Object) && !(v is Fraction)
}

/// An object of leaves with different keys is fit to be written.
proof fn lemma_leaves(ms: Seq<MemberView>)
    requires
        distinct_keys(ms),
        forall|i: int| 0 <= i < ms.len() ==> leaf((#[trigger] ms[i]).value),
    ensures
        sound(JsonView::Object(ms)),
        integral(JsonView::Object(ms)),
        nested_within(JsonView::Object(ms), 1),
{
    let doc = JsonView::Object(ms);
    assert(doc->Object_0 == ms);
    assert forall|i: int| 0 <= i < ms.len() implies sound((#[trigger] ms[i]).value) && integral(
        ms[i].value,
    ) && nested_within(ms[i].value, 0) by {
        assert(leaf(ms[i].value));
    }
}

/// The document of a tree has its keys once each, and no fractions.
proof fn lemma_tree_doc(t: TreeView)
    ensures
        sound(tree_doc(t)),
        integral(tree_doc(t)),
    decreases t,
{
    lemma_node_keys();
    let doc = tree_doc(t);
    let ms = doc->Object_0;
    if t.children.len() > 0 {
        let kids = ms[3].value;
        let s = kids->List_0;
        assert forall|i: int| 0 <= i < s.len() implies sound(#[trigger] s[i]) && integral(
            s[i],
        ) by {
            lemma_tree_doc(t.children[i]);
        }
        assert(sound(kids));
        assert(integral(kids));
    }
    assert(distinct_keys(ms));
    assert forall|i: int| 0 <= i < ms.len() implies sound((#[trigger] ms[i]).value) && integral(
        ms[i].value,
    ) by {}
}

/// The document of an output has its keys once each, and no fractions.
proof fn lemma_ok_doc(out: OutputView)
    ensures
        sound(ok_doc(out)),
        integral(ok_doc(out)),
{
    lemma_node_keys();
    lemma_event_keys();
    lemma_stats_keys();
    lemma_ok_keys();
    lemma_tree_doc(out.tree);
    let files = file_docs(out.files);
    assert forall|i: int| 0 <= i < files.len() implies sound(#[trigger] files[i]) && integral(
        files[i],
    ) by {
        lemma_leaves(files[i]->Object_0);
    }
    let events = event_docs(out.obscured);
    assert forall|i: int| 0 <= i < events.len() implies sound(#[trigger] events[i]) && integral(
        events[i],
    ) by {
        lemma_leaves(events[i]->Object_0);
    }
    lemma_leaves(stats_doc(out.stats)->Object_0);
    let file_list = JsonView::List(files);
    assert(file_list->List_0 == files);
    assert(sound(file_list) && integral(file_list));
    let event_list = JsonView::List(events);
    assert(event_list->List_0 == events);
    assert(sound(event_list) && integral(event_list));
    let ms = ok_doc(out)->Object_0;
    assert(distinct_keys(ms));
    assert forall|i: int| 0 <= i < ms.len() implies sound((#[trigger] ms[i]).value) && integral(
        ms[i].value,
    ) by {}
}

/// The document of an error has its keys once each, no fractions, and is flat.
proof fn lemma_error_doc(e: ErrorView)
    ensures
        sound(error_doc(e)),
        integral(error_doc(e)),
        nested_within(error_doc(e), MAX_NESTING as nat),
{
    lemma_error_keys();
    let inner = error_members(e);
    lemma_leaves(inner);
    let ms = error_doc(e)->Object_0;
    assert(distinct_keys(ms));
    assert(ms[1].value == JsonView::Object(inner));
    lemma_nested_more(ms[1].value, 1, (MAX_NESTING - 1) as nat);
    assert forall|i: int| 0 <= i < ms.len() implies sound((#[trigger] ms[i]).value) && integral(
        ms[i].value,
    ) && nested_within(ms[i].value, (MAX_NESTING - 1) as nat) by {}
}

/// What is nested within some depth is nested within a larger one.
pub proof fn lemma_nested_more(v: JsonView, n: nat, m: nat)
    requires
        nested_within(v, n),
        n <= m,
    ensures
        nested_within(v, m),
    decreases v,
{
    match v {
        JsonView::List(s) => {
            assert forall|i: int| 0 <= i < s.len() implies nested_within(
                #[trigger] s[i],
                (m - 1) as nat,
            ) by {
                lemma_nested_more(s[i], (n - 1) as nat, (m - 1) as nat);
            }
        },
        JsonView::Object(s) => {
            assert forall|i: int| 0 <= i < s.len() implies nested_within(
                (#[trigger] s[i]).value,
                (m - 1) as nat,
            ) by {
                lemma_nested_more(s[i].value, (n - 1) as nat, (m - 1) as nat);
            }
        },
        _ => {},
    }
}

// ---------------------------------------------------------------------------
// Building documents
// ---------------------------------------------------------------------------

/// A member with a key.
pub(crate) fn entry(key: &str, value: Json) -> (r: Member)
    ensures
        r.key@ == key@,
        r.value@ == value@,
{
    Member { key: key.to_owned(), value }
}

/// A text.
pub(crate) fn text(s: &str) -> (r: Json)
    ensures
        r@ == JsonView::Text(s@),
{
    Json::Text(s.to_owned())
}

/// A number.
fn number(n: usize) -> (r: Json)
    ensures
        r@ == JsonView::Integer(n as int),
{
    Json::Unsigned(n as u64)
}

/// A layer index, or null.
fn index_json(o: &Option<usize>) -> (r: Json)
    ensures
        r@ == index_doc(index_view(*o)),
{
    match o {
        Some(n) => number(*n),
        None => Json::Null,
    }
}

/// An object.
pub(crate) fn object(v: Vec<Member>) -> (r: Json)
    ensures
        r@ == JsonView::Object(member_views(v@)),
{
    proof {
        lemma_object_view(v);
    }
    Json::Object(v)
}

/// A list.
pub(crate) fn list(v: Vec<Json>) -> (r: Json)
    ensures
        r@ == JsonView::List(json_views(v@)),
{
    proof {
        lemma_list_view(v);
    }
    Json::List(v)
}

/// The name of a kind.
fn kind_text(k: Kind) -> (r: &'static str)
    ensures
        r@ == kind_name(k),
{
    match k {
        Kind::File => "file",
        Kind::Dir => "dir",
    }
}

/// The name of a reason.
fn reason_text(r: Reason) -> (s: &'static str)
    ensures
        s@ == reason_name(r),
{
    match r {
        Reason::Overwritten => "overwritten",
        Reason::Whiteout => "whiteout",
        Reason::WhiteoutAncestor => "whiteout_ancestor",
        Reason::OpaqueAncestor => "opaque_ancestor",
        Reason::ReplacedByFile => "replaced_by_file",
        Reason::ReplacedByDir => "replaced_by_dir",
        Reason::ReplacedAncestor => "replaced_ancestor",
    }
}

/// The name of an error class.
fn code_text(c: ErrorCode) -> (r: &'static str)
    ensures
        r@ == code_name(c),
{
    match c {
        ErrorCode::InvalidJson => "invalid_json",
        ErrorCode::InvalidInput => "invalid_input",
        ErrorCode::InvalidPath => "invalid_path",
        ErrorCode::LayerConflict => "layer_conflict",
        ErrorCode::InvalidOpaque => "invalid_opaque",
        ErrorCode::FileAsParent => "file_as_parent",
        ErrorCode::Internal => "internal",
    }
}

/// The document of a node.
fn tree_json(t: &TreeNode) -> (r: Json)
    ensures
        r@ == tree_doc(t@),
    decreases t,
{
    let mut ms = vec![
        entry("kind", text(kind_text(t.kind))),
        entry("path", text(t.path.as_str())),
        entry("source_layer", index_json(&t.source_layer)),
    ];
    let ghost fixed = seq![
        member("kind"@, JsonView::Text(kind_name(t.kind))),
        member("path"@, JsonView::Text(t.path@)),
        member("source_layer"@, index_doc(index_view(t.source_layer))),
    ];
    assert(member_views(ms@) =~= fixed);
    assert(t@.children.len() == t.children@.len());
    if t.children.len() > 0 {
        let mut kids: Vec<Json> = Vec::new();
        let mut i: usize = 0;
        while i < t.children.len()
            invariant
                i <= t.children.len(),
                kids@.len() == i,
                forall|k: int| 0 <= k < i ==> (#[trigger] kids@[k])@ == tree_doc(t.children@[k]@),
            decreases t.children.len() - i,
        {
            kids.push(tree_json(&t.children[i]));
            i += 1;
        }
        let ghost before = ms@;
        ms.push(entry("children", list(kids)));
        proof {
            let docs = tree_doc(t@)->Object_0[3].value->List_0;
            assert(json_views(kids@) =~= docs);
            assert(member_views(ms@) =~= fixed.push(
                member("children"@, JsonView::List(docs)),
            ));
        }
    }
    object(ms)
}

/// The document of a file.
fn file_json(f: &FileSource) -> (r: Json)
    ensures
        r@ == file_doc(f@),
{
    let ms = vec![
        entry("path", text(f.path.as_str())),
        entry("source_layer", number(f.source_layer)),
    ];
    assert(member_views(ms@) =~= file_doc(f@)->Object_0);
    object(ms)
}

/// The document of a log entry.
fn event_json(o: &Obscured) -> (r: Json)
    ensures
        r@ == event_doc(o@),
{
    let mut ms = vec![
        entry("path", text(o.path.as_str())),
        entry("source_layer", number(o.source_layer)),
        entry("reason", text(reason_text(o.reason))),
        entry("by_layer", number(o.by_layer)),
    ];
    match &o.via {
        Some(v) => {
            ms.push(entry("via", text(v.as_str())));
        },
        None => {},
    }
    assert(member_views(ms@) =~= event_doc(o@)->Object_0);
    object(ms)
}

/// The document of the totals.
fn stats_json(s: &Stats) -> (r: Json)
    ensures
        r@ == stats_doc(*s),
{
    let ms = vec![
        entry("layers", number(s.layers)),
        entry("files", number(s.files)),
        entry("dirs", number(s.dirs)),
        entry("obscured", number(s.obscured)),
    ];
    assert(member_views(ms@) =~= stats_doc(*s)->Object_0);
    object(ms)
}

/// The list of all files.
fn files_json(files: &Vec<FileSource>) -> (r: Json)
    ensures
        r@ == JsonView::List(file_docs(file_views(files@))),
{
    let mut out: Vec<Json> = Vec::new();
    let mut i: usize = 0;
    while i < files.len()
        invariant
            i <= files.len(),
            out@.len() == i,
            forall|k: int| 0 <= k < i ==> (#[trigger] out@[k])@ == file_doc(files@[k]@),
        decreases files.len() - i,
    {
        out.push(file_json(&files[i]));
        i += 1;
    }
    assert(json_views(out@) =~= file_docs(file_views(files@)));
    list(out)
}

/// The list of all log entries.
fn events_json(events: &Vec<Obscured>) -> (r: Json)
    ensures
        r@ == JsonView::List(event_docs(log_views(events@))),
{
    let mut out: Vec<Json> = Vec::new();
    let mut i: usize = 0;
    while i < events.len()
        invariant
            i <= events.len(),
            out@.len() == i,
            forall|k: int| 0 <= k < i ==> (#[trigger] out@[k])@ == event_doc(events@[k]@),
        decreases events.len() - i,
    {
        out.push(event_json(&events[i]));
        i += 1;
    }
    assert(json_views(out@) =~= event_docs(log_views(events@)));
    list(out)
}

/// The document for a merged image.
pub fn ok_document(output: &Output) -> (r: Json)
    ensures
        r@ == ok_doc(output@),
{
    let ms = vec![
        entry("ok", Json::Bool(true)),
        entry("tree", tree_json(&output.tree)),
        entry("files", files_json(&output.files)),
        entry("obscured", events_json(&output.obscured)),
        entry("stats", stats_json(&output.stats)),
    ];
    assert(member_views(ms@) =~= ok_doc(output@)->Object_0);
    object(ms)
}

/// The document for an error.
pub fn err_document(err: &MergeError) -> (r: Json)
    ensures
        r@ == error_doc(err@),
{
    let mut inner = vec![
        entry("code", text(code_text(err.code))),
        entry("message", text(err.message.as_str())),
    ];
    match &err.layer {
        Some(n) => {
            inner.push(entry("layer", number(*n)));
        },
        None => {},
    }
    match &err.path {
        Some(p) => {
            inner.push(entry("path", text(p.as_str())));
        },
        None => {},
    }
    assert(member_views(inner@) =~= error_members(err@));
    let ms = vec![entry("ok", Json::Bool(false)), entry("error", object(inner))];
    assert(member_views(ms@) =~= error_doc(err@)->Object_0);
    object(ms)
}

/// Writes a merged image as JSON, indented or not. The text reads as the same
/// document either way, unless it is nested too deep to be read.
pub fn ok_json(output: &Output, pretty: bool) -> (r: String)
    ensures
        r@ == if pretty {
            json_pretty(ok_doc(output@))
        } else {
            json_compact(ok_doc(output@))
        },
        pretty <==> r@.contains('\n'),
        nested_within(ok_doc(output@), MAX_NESTING as nat) ==> reads_as(r@, ok_doc(output@)),
{
    proof {
        lemma_ok_doc(output@);
    }
    write_json(&ok_document(output), pretty)
}

/// Writes an error as JSON, indented or not. The text reads as the same
/// document either way.
pub fn err_json(err: &MergeError, pretty: bool) -> (r: String)
    ensures
        r@ == if pretty {
            json_pretty(error_doc(err@))
        } else {
            json_compact(error_doc(err@))
        },
        pretty <==> r@.contains('\n'),
        reads_as(r@, error_doc(err@)),
{
    proof {
        lemma_error_doc(err@);
    }
    write_json(&err_document(err), pretty)
}

// ---------------------------------------------------------------------------
// What can be read back
// ---------------------------------------------------------------------------

/// The number of segments of a path.
pub open spec fn segments(p: Path) -> nat
    decreases p.len(),
{
    if p.len() == 0 {
        1
    } else {
        segments(p.drop_last()) + if p.last() == '/' {
            1nat
        } else {
            0nat
        }
    }
}

/// Characters behind the last slash make no segments.
proof fn lemma_segments_tail(p: Path, k: int)
    requires
        0 <= k <= p.len(),
        forall|i: int| k <= i < p.len() ==> p[i] != '/',
    ensures
        segments(p) == segments(p.take(k)),
    decreases p.len(),
{
    if k == p.len() {
        assert(p.take(k) =~= p);
    } else {
        let q = p.drop_last();
        assert forall|i: int| k <= i < q.len() implies q[i] != '/' by {
            assert(q[i] == p[i]);
        }
        lemma_segments_tail(q, k);
        assert(q.take(k) =~= p.take(k));
    }
}

/// A path has one segment more than its parent.
proof fn lemma_segments_child(p: Path, dir: Option<Path>)
    requires
        child_of(p, dir),
    ensures
        segments(p) == match dir {
            Some(d) => segments(d) + 1,
            None => 1,
        },
{
    match dir {
        Some(d) => {
            let n = d.len() as int;
            assert forall|i: int| n + 1 <= i < p.len() implies p[i] != '/' by {
                if p[i] == '/' {
                    assert(under(p, p.take(i)));
                }
            }
            lemma_segments_tail(p, n + 1);
            assert(p.take(n + 1).drop_last() =~= d);
            assert(p.take(n + 1).last() == '/');
        },
        None => {
            assert forall|i: int| 0 <= i < p.len() implies p[i] != '/' by {
                if p[i] == '/' {
                    assert(under(p, p.take(i)));
                }
            }
            lemma_segments_tail(p, 0);
            assert(p.take(0).len() == 0);
        },
    }
}

/// The document of a node is nested as deep as the paths beneath it are long.
proof fn lemma_tree_nesting(t: TreeView, dir: Option<Path>, image: Image, most: nat)
    requires
        children_show(t.children, dir, image),
        forall|p: Path| #[trigger] image.contains_key(p) ==> segments(p) <= most,
        match dir {
            Some(d) => segments(d) <= most,
            None => true,
        },
    ensures
        nested_within(
            tree_doc(t),
            (2 * (most - match dir {
                Some(d) => segments(d),
                None => 0,
            }) + 1) as nat,
        ),
    decreases t,
{
    let depth: nat = match dir {
        Some(d) => segments(d),
        None => 0,
    };
    let n = (2 * (most - depth) + 1) as nat;
    let doc = tree_doc(t);
    let ms = doc->Object_0;
    if t.children.len() > 0 {
        let kids = ms[3].value;
        let s = kids->List_0;
        assert forall|i: int| 0 <= i < s.len() implies nested_within(
            #[trigger] s[i],
            (n - 2) as nat,
        ) && n >= 3 by {
            let c = t.children[i];
            assert(node_shows(c, image));
            assert(tree_paths(t.children)[i] == c.path);
            assert(tree_paths(t.children).contains(c.path));
            lemma_segments_child(c.path, dir);
            lemma_tree_nesting(c, Some(c.path), image, most);
        }
        assert(s.len() > 0);
        assert(nested_within(s[0], (n - 2) as nat));
        assert(nested_within(kids, (n - 1) as nat));
    }
    assert forall|i: int| 0 <= i < ms.len() implies nested_within(
        (#[trigger] ms[i]).value,
        (n - 1) as nat,
    ) by {}
}

/// The most segments that the paths of an output may have for its document to
/// be read back.
pub const MAX_READABLE_SEGMENTS: usize = 62;

/// An output whose paths are not too deep can be read back.
pub proof fn law_readable(
    out: OutputView,
    image: Image,
    log: Set<ObscuredView>,
    layers: nat,
)
    requires
        describes(out, image, log, layers),
        forall|p: Path| #[trigger]
            image.contains_key(p) ==> segments(p) <= MAX_READABLE_SEGMENTS,
    ensures
        nested_within(ok_doc(out), MAX_NESTING as nat),
{
    lemma_node_keys();
    lemma_event_keys();
    lemma_stats_keys();
    lemma_tree_nesting(out.tree, None, image, MAX_READABLE_SEGMENTS as nat);
    let deep = (MAX_NESTING - 1) as nat;
    let files = file_docs(out.files);
    assert forall|i: int| 0 <= i < files.len() implies nested_within(
        #[trigger] files[i],
        (deep - 1) as nat,
    ) by {
        lemma_leaves(files[i]->Object_0);
        lemma_nested_more(files[i], 1, (deep - 1) as nat);
    }
    let events = event_docs(out.obscured);
    assert forall|i: int| 0 <= i < events.len() implies nested_within(
        #[trigger] events[i],
        (deep - 1) as nat,
    ) by {
        lemma_leaves(events[i]->Object_0);
        lemma_nested_more(events[i], 1, (deep - 1) as nat);
    }
    lemma_leaves(stats_doc(out.stats)->Object_0);
    lemma_nested_more(stats_doc(out.stats), 1, deep);
    lemma_nested_more(
        tree_doc(out.tree),
        (2 * MAX_READABLE_SEGMENTS + 1) as nat,
        deep,
    );
    let file_list = JsonView::List(files);
    assert(file_list->List_0 == files);
    assert(nested_within(file_list, deep));
    let event_list = JsonView::List(events);
    assert(event_list->List_0 == events);
    assert(nested_within(event_list, deep));
    let ms = ok_doc(out)->Object_0;
    assert forall|i: int| 0 <= i < ms.len() implies nested_within(
        (#[trigger] ms[i]).value,
        deep,
    ) by {}
}

// ---------------------------------------------------------------------------
// What the documents hold
// ---------------------------------------------------------------------------

/// The names of the kinds.
pub proof fn law_kind_names(k: Kind)
    ensures
        k == Kind::File ==> kind_name(k) == "file"@,
        k == Kind::Dir ==> kind_name(k) == "dir"@,
{
}

/// The names of the reasons.
pub proof fn law_reason_names(r: Reason)
    ensures
        r == Reason::Overwritten ==> reason_name(r) == "overwritten"@,
        r == Reason::Whiteout ==> reason_name(r) == "whiteout"@,
        r == Reason::WhiteoutAncestor ==> reason_name(r) == "whiteout_ancestor"@,
        r == Reason::OpaqueAncestor ==> reason_name(r) == "opaque_ancestor"@,
        r == Reason::ReplacedByFile ==> reason_name(r) == "replaced_by_file"@,
        r == Reason::ReplacedByDir ==> reason_name(r) == "replaced_by_dir"@,
        r == Reason::ReplacedAncestor ==> reason_name(r) == "replaced_ancestor"@,
{
}

/// The names of the error classes.
pub proof fn law_code_names(c: ErrorCode)
    ensures
        c == ErrorCode::InvalidJson ==> code_name(c) == "invalid_json"@,
        c == ErrorCode::InvalidInput ==> code_name(c) == "invalid_input"@,
        c == ErrorCode::InvalidPath ==> code_name(c) == "invalid_path"@,
        c == ErrorCode::LayerConflict ==> code_name(c) == "layer_conflict"@,
        c == ErrorCode::InvalidOpaque ==> code_name(c) == "invalid_opaque"@,
        c == ErrorCode::FileAsParent ==> code_name(c) == "file_as_parent"@,
        c == ErrorCode::Internal ==> code_name(c) == "internal"@,
{
}

/// Different kinds have different names.
proof fn lemma_kind_names(a: Kind, b: Kind)
    requires
        kind_name(a) == kind_name(b),
    ensures
        a == b,
{
    reveal_strlit("file");
    reveal_strlit("dir");
    assert("file"@.len() == 4);
    assert("dir"@.len() == 3);
}

/// Different reasons have different names.
proof fn lemma_reason_names(a: Reason, b: Reason)
    requires
        reason_name(a) == reason_name(b),
    ensures
        a == b,
{
    reveal_strlit("overwritten");
    reveal_strlit("whiteout");
    reveal_strlit("whiteout_ancestor");
    reveal_strlit("opaque_ancestor");
    reveal_strlit("replaced_by_file");
    reveal_strlit("replaced_by_dir");
    reveal_strlit("replaced_ancestor");
    assert("overwritten"@.len() == 11);
    assert("whiteout"@.len() == 8);
    assert("whiteout_ancestor"@.len() == 17);
    assert("opaque_ancestor"@.len() == 15);
    assert("replaced_by_file"@.len() == 16);
    assert("replaced_by_dir"@.len() == 15);
    assert("replaced_ancestor"@.len() == 17);
    assert("whiteout_ancestor"@[0] != "replaced_ancestor"@[0]);
    assert("opaque_ancestor"@[0] != "replaced_by_dir"@[0]);
}

/// Different error classes have different names.
proof fn lemma_code_names(a: ErrorCode, b: ErrorCode)
    requires
        code_name(a) == code_name(b),
    ensures
        a == b,
{
    reveal_strlit("invalid_json");
    reveal_strlit("invalid_input");
    reveal_strlit("invalid_path");
    reveal_strlit("layer_conflict");
    reveal_strlit("invalid_opaque");
    reveal_strlit("file_as_parent");
    reveal_strlit("internal");
    assert("invalid_json"@.len() == 12);
    assert("invalid_input"@.len() == 13);
    assert("invalid_path"@.len() == 12);
    assert("layer_conflict"@.len() == 14);
    assert("invalid_opaque"@.len() == 14);
    assert("file_as_parent"@.len() == 14);
    assert("internal"@.len() == 8);
    assert("invalid_json"@[8] != "invalid_path"@[8]);
    assert("layer_conflict"@[0] != "invalid_opaque"@[0]);
    assert("layer_conflict"@[0] != "file_as_parent"@[0]);
    assert("invalid_opaque"@[0] != "file_as_parent"@[0]);
}

/// The document of a node holds its kind, path and source, and, where it has
/// children, their documents in order.
pub proof fn law_node_document(t: TreeView)
    ensures
        tree_doc(t) is Object,
        ({
            let s = tree_doc(t)->Object_0;
            &&& s.len() == if t.children.len() == 0 {
                3int
            } else {
                4int
            }
            &&& s[0].key == "kind"@
            &&& t.kind == Kind::File ==> s[0].value == JsonView::Text("file"@)
            &&& t.kind == Kind::Dir ==> s[0].value == JsonView::Text("dir"@)
            &&& s[1].key == "path"@
            &&& s[1].value == JsonView::Text(t.path)
            &&& s[2].key == "source_layer"@
            &&& t.source_layer is None ==> s[2].value == JsonView::Null
            &&& t.source_layer matches Some(n) ==> s[2].value == JsonView::Integer(n as int)
            &&& t.children.len() > 0 ==> {
                &&& s[3].key == "children"@
                &&& s[3].value is List
                &&& s[3].value->List_0.len() == t.children.len()
                &&& forall|i: int|
                    0 <= i < t.children.len() ==> #[trigger] s[3].value->List_0[i] == tree_doc(
                        t.children[i],
                    )
            }
        }),
{
}

/// The document of a file holds its path and its source.
pub proof fn law_file_document(f: FileView)
    ensures
        file_doc(f) is Object,
        ({
            let s = file_doc(f)->Object_0;
            &&& s.len() == 2
            &&& s[0].key == "path"@
            &&& s[0].value == JsonView::Text(f.path)
            &&& s[1].key == "source_layer"@
            &&& s[1].value == JsonView::Integer(f.source_layer as int)
        }),
{
}

/// The document of a log entry holds its five parts, the last where there is one.
pub proof fn law_event_document(o: ObscuredView)
    ensures
        event_doc(o) is Object,
        ({
            let s = event_doc(o)->Object_0;
            &&& s.len() == if o.via is None {
                4int
            } else {
                5int
            }
            &&& s[0].key == "path"@
            &&& s[0].value == JsonView::Text(o.path)
            &&& s[1].key == "source_layer"@
            &&& s[1].value == JsonView::Integer(o.source_layer as int)
            &&& s[2].key == "reason"@
            &&& s[2].value == JsonView::Text(reason_name(o.reason))
            &&& s[3].key == "by_layer"@
            &&& s[3].value == JsonView::Integer(o.by_layer as int)
            &&& o.via matches Some(v) ==> s[4].key == "via"@ && s[4].value == JsonView::Text(v)
        }),
{
}

/// The document of an output holds its tree, its files and log entries one for one
/// and in order, and its totals.
pub proof fn law_ok_document(out: OutputView)
    ensures
        ok_doc(out) is Object,
        ({
            let s = ok_doc(out)->Object_0;
            &&& s.len() == 5
            &&& s[0].key == "ok"@
            &&& s[0].value == JsonView::Bool(true)
            &&& s[1].key == "tree"@
            &&& s[1].value == tree_doc(out.tree)
            &&& s[2].key == "files"@
            &&& s[2].value is List
            &&& s[2].value->List_0.len() == out.files.len()
            &&& forall|i: int|
                0 <= i < out.files.len() ==> #[trigger] s[2].value->List_0[i] == file_doc(
                    out.files[i],
                )
            &&& s[3].key == "obscured"@
            &&& s[3].value is List
            &&& s[3].value->List_0.len() == out.obscured.len()
            &&& forall|i: int|
                0 <= i < out.obscured.len() ==> #[trigger] s[3].value->List_0[i] == event_doc(
                    out.obscured[i],
                )
            &&& s[4].key == "stats"@
            &&& s[4].value is Object
        }),
        ({
            let s = ok_doc(out)->Object_0[4].value->Object_0;
            &&& s.len() == 4
            &&& s[0].key == "layers"@
            &&& s[0].value == JsonView::Integer(out.stats.layers as int)
            &&& s[1].key == "files"@
            &&& s[1].value == JsonView::Integer(out.stats.files as int)
            &&& s[2].key == "dirs"@
            &&& s[2].value == JsonView::Integer(out.stats.dirs as int)
            &&& s[3].key == "obscured"@
            &&& s[3].value == JsonView::Integer(out.stats.obscured as int)
        }),
{
}

/// The document of an error holds its class and message, and its layer and path
/// where it has them.
pub proof fn law_error_document(e: ErrorView)
    ensures
        error_doc(e) is Object,
        ({
            let s = error_doc(e)->Object_0;
            &&& s.len() == 2
            &&& s[0].key == "ok"@
            &&& s[0].value == JsonView::Bool(false)
            &&& s[1].key == "error"@
            &&& s[1].value is Object
        }),
        ({
            let s = error_doc(e)->Object_0[1].value->Object_0;
            let n: int = if e.layer is Some {
                3
            } else {
                2
            };
            &&& s.len() == if e.path is Some {
                n + 1
            } else {
                n
            }
            &&& s[0].key == "code"@
            &&& s[0].value == JsonView::Text(code_name(e.code))
            &&& s[1].key == "message"@
            &&& s[1].value == JsonView::Text(e.message)
            &&& e.layer matches Some(k) ==> s[2].key == "layer"@ && s[2].value
                == JsonView::Integer(k as int)
            &&& e.path matches Some(p) ==> s[n].key == "path"@ && s[n].value == JsonView::Text(p)
        }),
{
}

/// Different trees have different documents.
pub proof fn law_tree_documents_differ(t: TreeView, u: TreeView)
    requires
        tree_doc(t) == tree_doc(u),
    ensures
        t == u,
    decreases t,
{
    law_node_document(t);
    law_node_document(u);
    let s = tree_doc(t)->Object_0;
    assert(s[0].value == JsonView::Text(kind_name(t.kind)));
    assert(tree_doc(u)->Object_0[0].value == JsonView::Text(kind_name(u.kind)));
    lemma_kind_names(t.kind, u.kind);
    assert(t.children.len() == u.children.len());
    assert forall|i: int| 0 <= i < t.children.len() implies t.children[i] == u.children[i] by {
        assert(s[3].value->List_0[i] == tree_doc(t.children[i]));
        assert(tree_doc(u)->Object_0[3].value->List_0[i] == tree_doc(u.children[i]));
        law_tree_documents_differ(t.children[i], u.children[i]);
    }
    assert(t.children =~= u.children);
}

/// Different outputs have different documents: nothing of an output is lost.
pub proof fn law_outputs_differ(x: OutputView, y: OutputView)
    requires
        ok_doc(x) == ok_doc(y),
    ensures
        x == y,
{
    law_ok_document(x);
    law_ok_document(y);
    law_tree_documents_differ(x.tree, y.tree);
    let s = ok_doc(x)->Object_0;
    let u = ok_doc(y)->Object_0;
    assert forall|i: int| 0 <= i < x.files.len() implies x.files[i] == y.files[i] by {
        assert(s[2].value->List_0[i] == file_doc(x.files[i]));
        assert(u[2].value->List_0[i] == file_doc(y.files[i]));
        law_file_document(x.files[i]);
        law_file_document(y.files[i]);
    }
    assert(x.files =~= y.files);
    assert forall|i: int| 0 <= i < x.obscured.len() implies x.obscured[i] == y.obscured[i] by {
        assert(s[3].value->List_0[i] == event_doc(x.obscured[i]));
        assert(u[3].value->List_0[i] == event_doc(y.obscured[i]));
        law_event_document(x.obscured[i]);
        law_event_document(y.obscured[i]);
        lemma_reason_names(x.obscured[i].reason, y.obscured[i].reason);
    }
    assert(x.obscured =~= y.obscured);
    let a = s[4].value->Object_0;
    let b = u[4].value->Object_0;
    assert(a[0] == b[0] && a[1] == b[1] && a[2] == b[2] && a[3] == b[3]);
}

/// Different errors have different documents: nothing of an error is lost.
pub proof fn law_errors_differ(e: ErrorView, f: ErrorView)
    requires
        error_doc(e) == error_doc(f),
    ensures
        e == f,
{
    law_error_document(e);
    law_error_document(f);
    lemma_error_keys();
    let s = error_doc(e)->Object_0[1].value->Object_0;
    let u = error_doc(f)->Object_0[1].value->Object_0;
    assert(s == u);
    lemma_code_names(e.code, f.code);
    assert(s[2] == u[2]);
    assert(s[3] == u[3]);
}

/// No output has the document of an error.
pub proof fn law_ok_is_no_error(x: OutputView, e: ErrorView)
    ensures
        ok_doc(x) != error_doc(e),
{
    law_ok_document(x);
    law_error_document(e);
}

/// One character more makes one segment more where it is a slash, and none else.
pub proof fn law_segments(p: Path, c: char)
    ensures
        p.len() == 0 ==> segments(p) == 1,
        c == '/' ==> segments(p.push(c)) == segments(p) + 1,
        c != '/' ==> segments(p.push(c)) == segments(p),
{
    assert(p.push(c).drop_last() =~= p);
}

/// An output whose paths have at most 62 segments is nested at most 127 deep, and
/// so every text that is written for it reads back.
pub proof fn law_depth(out: OutputView, image: Image, log: Set<ObscuredView>, layers: nat)
    requires
        describes(out, image, log, layers),
        forall|p: Path| #[trigger] image.contains_key(p) ==> segments(p) <= 62,
    ensures
        nested_within(ok_doc(out), 127),
{
    law_readable(out, image, log, layers);
}

} // verus!
