//! What a layer must not do: the checks that come before it is applied.
use vstd::prelude::*;
use crate::catalog::{Catalog, Entry};
use crate::model::{
    above, bad_opaque, below, blocked, blocked_by, clash, coherent, conflict, first_bad_opaque,
    first_blocked, first_clash, first_repeat, first_shared, makes_dir, no_repeats, opaque_refusal,
    parent_refusal, repeat_error, stays_file,
};
use crate::path::{
    ancestors, is_under, lemma_lt_total, lemma_push_contains, listed, path_lt, paths, same,
    slice_paths, sorted, under, Path,
};
use crate::text::join3;
use crate::types::{ErrorCode, ErrorView, Kind, LayerInput, MergeError};

verus! {

/// An error of a layer at a path.
fn error_at(code: ErrorCode, message: String, idx: usize, path: &str) -> (r: MergeError)
    ensures
        r@ == ErrorView::new(code, message@).at(idx as nat, path@),
{
    MergeError::new(code, message).at(idx, path)
}

/// The paths of `list`, as a set.
fn path_set(list: &Vec<String>) -> (r: Catalog)
    ensures
        r.inv(),
        forall|p: Path| #[trigger] r@.contains_key(p) <==> paths(list@).contains(p),
{
    let mut set = Catalog::new();
    add_all(&mut set, list);
    set
}

/// Adds the paths of `list` to a set.
fn add_all(set: &mut Catalog, list: &Vec<String>)
    requires
        old(set).inv(),
    ensures
        final(set).inv(),
        forall|p: Path| #[trigger]
            final(set)@.contains_key(p) <==> old(set)@.contains_key(p) || paths(list@).contains(p),
{
    let ghost start = set@;
    let mut i: usize = 0;
    while i < list.len()
        invariant
            i <= list.len(),
            set.inv(),
            forall|p: Path| #[trigger]
                set@.contains_key(p) <==> start.contains_key(p) || paths(list@).take(
                    i as int,
                ).contains(p),
        decreases list.len() - i,
    {
        let ghost before = set@;
        set.insert(list[i].as_str(), Entry { kind: Kind::Dir, source: 0 });
        proof {
            let done = paths(list@).take(i as int);
            assert(paths(list@).take(i + 1) =~= done.push(list@[i as int]@));
            assert forall|p: Path| #[trigger]
                set@.contains_key(p) <==> start.contains_key(p) || paths(list@).take(
                    i + 1,
                ).contains(p) by {
                lemma_push_contains(done, list@[i as int]@, p);
                assert(before.contains_key(p) <==> start.contains_key(p) || done.contains(p));
            }
        }
        i += 1;
    }
    assert(paths(list@).take(i as int) =~= paths(list@));
}

/// Adds the ancestors of the paths of `list` to a set.
fn add_ancestors(set: &mut Catalog, list: &Vec<String>)
    requires
        old(set).inv(),
    ensures
        final(set).inv(),
        forall|p: Path| #[trigger]
            final(set)@.contains_key(p) <==> old(set)@.contains_key(p) || above(paths(list@), p),
{
    let ghost start = set@;
    let mut i: usize = 0;
    while i < list.len()
        invariant
            i <= list.len(),
            set.inv(),
            forall|p: Path| #[trigger]
                set@.contains_key(p) <==> start.contains_key(p) || above(
                    paths(list@).take(i as int),
                    p,
                ),
        decreases list.len() - i,
    {
        let ghost before = set@;
        let ancs = ancestors(list[i].as_str());
        add_all(set, &ancs);
        proof {
            let done = paths(list@).take(i as int);
            let t = list@[i as int]@;
            assert(paths(list@).take(i + 1) =~= done.push(t));
            assert forall|p: Path| #[trigger]
                set@.contains_key(p) <==> start.contains_key(p) || above(
                    paths(list@).take(i + 1),
                    p,
                ) by {
                assert(before.contains_key(p) <==> start.contains_key(p) || above(done, p));
                assert(paths(ancs@).contains(p) <==> under(t, p));
                lemma_push_above(done, t, p);
            }
        }
        i += 1;
    }
    assert(paths(list@).take(i as int) =~= paths(list@));
}

/// What one more path adds to the ancestors of a list.
pub proof fn lemma_push_above(list: Seq<Path>, t: Path, p: Path)
    ensures
        above(list.push(t), p) <==> above(list, p) || under(t, p),
{
    if above(list, p) {
        let x = choose|x: Path| #[trigger] list.contains(x) && under(x, p);
        lemma_push_contains(list, t, x);
    }
    lemma_push_contains(list, t, t);
    if above(list.push(t), p) {
        let x = choose|x: Path| #[trigger] list.push(t).contains(x) && under(x, p);
        lemma_push_contains(list, t, x);
    }
}

/// The directories that a layer creates: explicit ones, and the parents of
/// everything it creates.
pub fn layer_dir_set(layer: &LayerInput) -> (r: Catalog)
    ensures
        r.inv(),
        forall|p: Path| #[trigger] r@.contains_key(p) <==> makes_dir(layer@, p),
{
    let mut dirs = path_set(&layer.mkdirs);
    add_ancestors(&mut dirs, &layer.writes);
    add_ancestors(&mut dirs, &layer.mkdirs);
    dirs
}

/// Tells whether one of the whiteouts deletes `path`, by naming it or an ancestor.
pub fn removed_by_whiteouts(path: &str, whiteouts: &Vec<String>) -> (r: bool)
    ensures
        r == (paths(whiteouts@).contains(path@) || below(paths(whiteouts@), path@)),
{
    let mut i: usize = 0;
    while i < whiteouts.len()
        invariant
            i <= whiteouts.len(),
            forall|j: int|
                0 <= j < i ==> whiteouts@[j]@ != path@ && !under(
                    path@,
                    #[trigger] whiteouts@[j]@,
                ),
        decreases whiteouts.len() - i,
    {
        let w = whiteouts[i].as_str();
        if same(w, path) || is_under(path, w) {
            proof {
                assert(paths(whiteouts@)[i as int] == w@);
                assert(paths(whiteouts@).contains(w@));
            }
            return true;
        }
        i += 1;
    }
    proof {
        let ws = paths(whiteouts@);
        assert forall|a: Path| #[trigger] ws.contains(a) implies a != path@ && !under(
            path@,
            a,
        ) by {
            let j = choose|j: int| 0 <= j < ws.len() && ws[j] == a;
            assert(whiteouts@[j]@ == a);
        }
    }
    false
}

/// Refuses a list that names a path twice.
fn check_repeats(idx: usize, name: &str, list: &Vec<String>) -> (r: Result<(), MergeError>)
    ensures
        r is Ok <==> paths(list@).no_duplicates(),
        r is Err ==> repeat_error(idx as nat, paths(list@), name@, r->Err_0@),
{
    let mut seen = Catalog::new();
    let mut i: usize = 0;
    while i < list.len()
        invariant
            i <= list.len(),
            seen.inv(),
            forall|p: Path| #[trigger]
                seen@.contains_key(p) <==> paths(list@).take(i as int).contains(p),
            paths(list@).take(i as int).no_duplicates(),
        decreases list.len() - i,
    {
        let ghost ps = paths(list@);
        let ghost done = ps.take(i as int);
        let ghost before = seen@;
        let p = list[i].as_str();
        if seen.get(p).is_some() {
            proof {
                assert(done.contains(ps[i as int]));
                assert(first_repeat(ps, i as int));
                let j = choose|j: int| 0 <= j < done.len() && done[j] == p@;
                assert(ps[j] == ps[i as int]);
            }
            let mut message = join3("duplicate path '", p, "' in ");
            message.append(name);
            return Err(error_at(ErrorCode::LayerConflict, message, idx, p));
        }
        seen.insert(p, Entry { kind: Kind::Dir, source: 0 });
        proof {
            let next = ps.take(i + 1);
            assert(next =~= done.push(p@));
            assert forall|q: Path| #[trigger]
                seen@.contains_key(q) <==> next.contains(q) by {
                lemma_push_contains(done, p@, q);
                assert(before.contains_key(q) <==> done.contains(q));
            }
            assert(!done.contains(p@));
            assert forall|a: int, b: int|
                0 <= a < next.len() && 0 <= b < next.len() && a != b implies next[a]
                != next[b] by {
                if a < i && b < i {
                    assert(done[a] != done[b]);
                } else if a < i {
                    assert(done.contains(done[a]));
                } else {
                    assert(done.contains(done[b]));
                }
            }
        }
        i += 1;
    }
    assert(paths(list@).take(i as int) =~= paths(list@));
    Ok(())
}

/// Refuses a layer that contradicts itself.
pub fn check_layer_conflicts(idx: usize, layer: &LayerInput) -> (r: Result<(), MergeError>)
    ensures
        r is Ok <==> coherent(layer@),
        r is Err ==> conflict(layer@, idx as nat, r->Err_0@),
{
    check_repeats(idx, "writes", &layer.writes)?;
    check_repeats(idx, "mkdirs", &layer.mkdirs)?;
    check_repeats(idx, "whiteouts", &layer.whiteouts)?;
    check_repeats(idx, "opaques", &layer.opaques)?;

    let files = sorted(&layer.writes);
    let dirs = layer_dir_set(layer);
    let ghost fs = slice_paths(files@);
    let mut i: usize = 0;
    while i < files.len()
        invariant
            i <= files.len(),
            no_repeats(layer@),
            dirs.inv(),
            forall|p: Path| #[trigger] dirs@.contains_key(p) <==> makes_dir(layer@, p),
            fs == slice_paths(files@),
            crate::path::non_descending(fs),
            forall|p: Path| #[trigger] fs.contains(p) <==> layer@.writes.contains(p),
            forall|j: int| 0 <= j < i ==> !clash(layer@, #[trigger] fs[j]),
        decreases files.len() - i,
    {
        let p = files[i];
        if dirs.get(p).is_some() {
            proof {
                assert(fs[i as int] == p@);
                assert(fs.contains(p@));
                assert(dirs@.contains_key(p@));
                assert forall|q: Path| #[trigger] clash(layer@, q) implies q == p@ || path_lt(
                    p@,
                    q,
                ) by {
                    assert(fs.contains(q));
                    let j = choose|j: int| 0 <= j < fs.len() && fs[j] == q;
                    assert(j >= i);
                    lemma_lt_total(p@, q);
                    if j > i {
                        assert(!path_lt(fs[j], fs[i as int]));
                    }
                }
                assert(first_clash(layer@, p@));
            }
            return Err(
                error_at(
                    ErrorCode::LayerConflict,
                    join3("path '", p, "' is both a file (writes) and a directory"),
                    idx,
                    p,
                ),
            );
        }
        assert(!dirs@.contains_key(p@));
        i += 1;
    }
    assert forall|p: Path| !clash(layer@, p) by {
        if clash(layer@, p) {
            assert(fs.contains(p));
            let j = choose|j: int| 0 <= j < fs.len() && fs[j] == p;
            assert(!clash(layer@, fs[j]));
        }
    }

    let whiteouts = path_set(&layer.whiteouts);
    let mut k: usize = 0;
    while k < layer.opaques.len()
        invariant
            k <= layer.opaques.len(),
            no_repeats(layer@),
            forall|p: Path| !clash(layer@, p),
            whiteouts.inv(),
            forall|p: Path| #[trigger]
                whiteouts@.contains_key(p) <==> layer@.whiteouts.contains(p),
            forall|j: int|
                0 <= j < k ==> !layer@.whiteouts.contains(#[trigger] layer@.opaques[j]),
        decreases layer.opaques.len() - k,
    {
        let p = layer.opaques[k].as_str();
        if whiteouts.get(p).is_some() {
            proof {
                assert(layer@.opaques[k as int] == p@);
                assert(whiteouts@.contains_key(p@));
                assert(first_shared(layer@, k as int));
                assert(layer@.opaques.contains(p@));
            }
            return Err(
                error_at(
                    ErrorCode::LayerConflict,
                    join3("path '", p, "' is both a whiteout and an opaque directory"),
                    idx,
                    p,
                ),
            );
        }
        assert(!whiteouts@.contains_key(p@));
        k += 1;
    }
    Ok(())
}

/// Refuses an opaque marker unless it names a directory of the lower image, or a
/// path that is not in the lower image and that the layer makes a directory. A file of the
/// lower image is refused even where the layer replaces it by a directory.
pub fn check_opaques(map: &Catalog, idx: usize, layer: &LayerInput) -> (r: Result<(), MergeError>)
    requires
        map.inv(),
    ensures
        r is Ok <==> forall|o: Path| !bad_opaque(map@, layer@, o),
        r is Err ==> opaque_refusal(map@, layer@, idx as nat, r->Err_0@),
{
    let layer_dirs = layer_dir_set(layer);
    let opaques = sorted(&layer.opaques);
    let ghost os = slice_paths(opaques@);
    let mut i: usize = 0;
    while i < opaques.len()
        invariant
            i <= opaques.len(),
            map.inv(),
            layer_dirs.inv(),
            forall|p: Path| #[trigger] layer_dirs@.contains_key(p) <==> makes_dir(layer@, p),
            os == slice_paths(opaques@),
            crate::path::non_descending(os),
            forall|p: Path| #[trigger] os.contains(p) <==> layer@.opaques.contains(p),
            forall|j: int| 0 <= j < i ==> !bad_opaque(map@, layer@, #[trigger] os[j]),
        decreases opaques.len() - i,
    {
        let o = opaques[i];
        let ghost first = bad_opaque(map@, layer@, o@);
        proof {
            assert(os[i as int] == o@);
            assert(os.contains(o@));
            assert(layer_dirs@.contains_key(o@) <==> makes_dir(layer@, o@));
            if first {
                assert forall|q: Path| #[trigger] bad_opaque(map@, layer@, q) implies q == o@
                    || path_lt(o@, q) by {
                    assert(os.contains(q));
                    let j = choose|j: int| 0 <= j < os.len() && os[j] == q;
                    assert(j >= i);
                    lemma_lt_total(o@, q);
                    if j > i {
                        assert(!path_lt(os[j], os[i as int]));
                    }
                }
                assert(first_bad_opaque(map@, layer@, o@));
            }
        }
        match map.get(o) {
            Some(e) => {
                if e.kind != Kind::Dir {
                    return Err(
                        error_at(
                            ErrorCode::InvalidOpaque,
                            join3("opaque path '", o, "' is a file, not a directory"),
                            idx,
                            o,
                        ),
                    );
                }
            },
            None => {
                if layer_dirs.get(o).is_none() {
                    return Err(
                        error_at(
                            ErrorCode::InvalidOpaque,
                            join3(
                                "opaque directory '",
                                o,
                                "' exists neither in lower layers nor in this layer",
                            ),
                            idx,
                            o,
                        ),
                    );
                }
            },
        }
        i += 1;
    }
    assert forall|o: Path| !bad_opaque(map@, layer@, o) by {
        if bad_opaque(map@, layer@, o) {
            assert(os.contains(o));
            let j = choose|j: int| 0 <= j < os.len() && os[j] == o;
            assert(!bad_opaque(map@, layer@, os[j]));
        }
    }
    Ok(())
}

/// The topmost file of the lower image that stands above `p` and that the layer
/// leaves in place.
fn blocking_file(map: &Catalog, layer: &LayerInput, p: &str) -> (r: Option<String>)
    requires
        map.inv(),
    ensures
        r is Some <==> exists|a: Path| under(p@, a) && stays_file(map@, layer@, a),
        r is Some ==> under(p@, r->0@) && stays_file(map@, layer@, r->0@),
        r is Some ==> forall|b: Path| #[trigger]
            under(p@, b) && stays_file(map@, layer@, b) ==> r->0@.len() <= b.len(),
{
    let ancs = ancestors(p);
    let mut i: usize = 0;
    while i < ancs.len()
        invariant
            i <= ancs.len(),
            map.inv(),
            forall|a: Path|
                #![trigger paths(ancs@).contains(a)]
                #![trigger under(p@, a)]
                paths(ancs@).contains(a) <==> under(p@, a),
            forall|j: int, k: int|
                0 <= j < k < ancs.len() ==> ancs@[j]@.len() < ancs@[k]@.len(),
            forall|j: int| 0 <= j < i ==> !stays_file(map@, layer@, #[trigger] ancs@[j]@),
        decreases ancs.len() - i,
    {
        let anc = ancs[i].as_str();
        let is_file = match map.get(anc) {
            Some(e) => e.kind == Kind::File,
            None => false,
        };
        if is_file && !listed(&layer.mkdirs, anc) && !removed_by_whiteouts(anc, &layer.whiteouts) {
            proof {
                assert(paths(ancs@)[i as int] == anc@);
                assert(paths(ancs@).contains(anc@));
                assert(stays_file(map@, layer@, anc@));
                assert forall|b: Path| #[trigger]
                    under(p@, b) && stays_file(map@, layer@, b) implies anc@.len() <= b.len() by {
                    assert(paths(ancs@).contains(b));
                    let j = choose|j: int| 0 <= j < paths(ancs@).len() && paths(ancs@)[j] == b;
                    assert(ancs@[j]@ == b);
                    assert(j >= i);
                    if j > i {
                        assert(ancs@[i as int]@.len() < ancs@[j]@.len());
                    }
                }
            }
            return Some(ancs[i].clone());
        }
        i += 1;
    }
    assert forall|a: Path| under(p@, a) implies !stays_file(map@, layer@, a) by {
        assert(paths(ancs@).contains(a));
        let j = choose|j: int| 0 <= j < paths(ancs@).len() && paths(ancs@)[j] == a;
        assert(ancs@[j]@ == a);
    }
    None
}

/// Everything that a layer creates explicitly.
fn targets_of(layer: &LayerInput) -> (r: Vec<String>)
    ensures
        forall|p: Path| #[trigger]
            paths(r@).contains(p) <==> layer@.writes.contains(p) || layer@.mkdirs.contains(p),
{
    let mut r: Vec<String> = Vec::new();
    copy_paths(&mut r, &layer.writes);
    copy_paths(&mut r, &layer.mkdirs);
    r
}

/// Puts the paths of `list` behind those of `v`.
fn copy_paths(v: &mut Vec<String>, list: &Vec<String>)
    ensures
        paths(final(v)@) == paths(old(v)@) + paths(list@),
        forall|p: Path| #[trigger]
            paths(final(v)@).contains(p) <==> paths(old(v)@).contains(p) || paths(
                list@,
            ).contains(p),
{
    let ghost start = paths(v@);
    let mut i: usize = 0;
    assert(paths(v@) =~= start + paths(list@).take(0));
    while i < list.len()
        invariant
            i <= list.len(),
            paths(v@) == start + paths(list@).take(i as int),
        decreases list.len() - i,
    {
        let ghost before = v@;
        v.push(list[i].clone());
        proof {
            assert(paths(v@) =~= paths(before).push(list@[i as int]@));
            assert(paths(list@).take(i + 1) =~= paths(list@).take(i as int).push(
                list@[i as int]@,
            ));
            assert(paths(v@) =~= start + paths(list@).take(i + 1));
        }
        i += 1;
    }
    proof {
        let l = paths(list@);
        assert(l.take(i as int) =~= l);
        let all = paths(v@);
        assert forall|p: Path| #[trigger] all.contains(p) <==> start.contains(p) || l.contains(
            p,
        ) by {
            if start.contains(p) {
                let j = choose|j: int| 0 <= j < start.len() && start[j] == p;
                assert(all[j] == p);
            }
            if l.contains(p) {
                let j = choose|j: int| 0 <= j < l.len() && l[j] == p;
                assert(all[start.len() + j] == p);
            }
            if all.contains(p) {
                let j = choose|j: int| 0 <= j < all.len() && all[j] == p;
                if j < start.len() {
                    assert(start[j] == p);
                } else {
                    assert(l[j - start.len()] == p);
                }
            }
        }
    }
}

/// Refuses to create anything beneath a file that stays.
pub fn check_parents(map: &Catalog, idx: usize, layer: &LayerInput) -> (r: Result<(), MergeError>)
    requires
        map.inv(),
    ensures
        r is Ok <==> forall|p: Path| !blocked(map@, layer@, p),
        r is Err ==> parent_refusal(map@, layer@, idx as nat, r->Err_0@),
{
    let all = targets_of(layer);
    let targets = sorted(&all);
    let ghost ts = slice_paths(targets@);
    let mut i: usize = 0;
    while i < targets.len()
        invariant
            i <= targets.len(),
            map.inv(),
            ts == slice_paths(targets@),
            crate::path::non_descending(ts),
            forall|p: Path| #[trigger]
                ts.contains(p) <==> layer@.writes.contains(p) || layer@.mkdirs.contains(p),
            forall|j: int| 0 <= j < i ==> !blocked(map@, layer@, #[trigger] ts[j]),
        decreases targets.len() - i,
    {
        let p = targets[i];
        proof {
            assert(ts[i as int] == p@);
            assert(ts.contains(p@));
        }
        match blocking_file(map, layer, p) {
            Some(anc) => {
                proof {
                    assert(blocked_by(map@, layer@, p@, anc@));
                    assert(blocked(map@, layer@, p@));
                    assert forall|q: Path| #[trigger] blocked(map@, layer@, q) implies q == p@
                        || path_lt(p@, q) by {
                        let a = choose|a: Path| blocked_by(map@, layer@, q, a);
                        assert(ts.contains(q));
                        let j = choose|j: int| 0 <= j < ts.len() && ts[j] == q;
                        assert(j >= i);
                        lemma_lt_total(p@, q);
                        if j > i {
                            assert(!path_lt(ts[j], ts[i as int]));
                        }
                    }
                    assert(first_blocked(map@, layer@, p@, anc@));
                }
                let mut message = join3(
                    "file '",
                    anc.as_str(),
                    "' cannot serve as a parent directory of '",
                );
                message.append(p);
                message.append("'");
                return Err(error_at(ErrorCode::FileAsParent, message, idx, p));
            },
            None => {},
        }
        i += 1;
    }
    assert forall|p: Path| !blocked(map@, layer@, p) by {
        if blocked(map@, layer@, p) {
            let a = choose|a: Path| blocked_by(map@, layer@, p, a);
            assert(ts.contains(p));
            let j = choose|j: int| 0 <= j < ts.len() && ts[j] == p;
            assert(!blocked(map@, layer@, ts[j]));
        }
    }
    Ok(())
}

} // verus!
