//! An ordered map from paths to what stands there, kept as a vector of slots in
//! ascending path order.
use vstd::prelude::*;
use crate::model::{Image, Node};
use crate::path::{
    ascending, is_under, lemma_ascending_distinct, lemma_lt_asymmetric, lemma_lt_irreflexive,
    lemma_lt_total, lemma_lt_transitive, lemma_prefix_lt, path_lt, rank, under, Path, Rank,
};
use crate::types::Kind;

verus! {

/// What stands at a path, and the layer that put it there.
#[derive(Clone, Copy)]
pub struct Entry {
    pub kind: Kind,
    pub source: usize,
}

impl View for Entry {
    type V = Node;

    open spec fn view(&self) -> Node {
        Node { kind: self.kind, source: self.source as nat }
    }
}

/// A path with its entry.
pub struct Slot {
    pub path: String,
    pub entry: Entry,
}

/// The paths of a run of slots.
pub open spec fn slot_paths(s: Seq<Slot>) -> Seq<Path> {
    s.map_values(|x: Slot| x.path@)
}

/// The slots hold exactly what `image` has at the paths that satisfy `keep`, in path order.
pub open spec fn lists(s: Seq<Slot>, image: Image, keep: spec_fn(Path) -> bool) -> bool {
    &&& ascending(slot_paths(s))
    &&& forall|p: Path| #[trigger]
        slot_paths(s).contains(p) <==> image.contains_key(p) && keep(p)
    &&& forall|i: int| 0 <= i < s.len() ==> (#[trigger] s[i]).entry@ == image[s[i].path@]
}

/// Live paths with their entries.
pub struct Catalog {
    slots: Vec<Slot>,
}

/// The position of a path among the slots.
pub closed spec fn position(s: Seq<Slot>, p: Path) -> int {
    choose|i: int| 0 <= i < s.len() && #[trigger] s[i].path@ == p
}

impl Catalog {
    /// The image that the catalog holds.
    pub closed spec fn view(&self) -> Image {
        Map::new(
            |p: Path| slot_paths(self.slots@).contains(p),
            |p: Path| self.slots@[position(self.slots@, p)].entry@,
        )
    }

    /// The slots are in ascending path order.
    pub closed spec fn inv(&self) -> bool {
        ascending(slot_paths(self.slots@))
    }

    /// The slots, in path order.
    pub closed spec fn spec_slots(&self) -> Seq<Slot> {
        self.slots@
    }

    /// What a slot holds is what the image has at its path.
    proof fn lemma_slot(&self, i: int)
        requires
            self.inv(),
            0 <= i < self.slots@.len(),
        ensures
            self@.contains_key(self.slots@[i].path@),
            self@[self.slots@[i].path@] == self.slots@[i].entry@,
    {
        let ps = slot_paths(self.slots@);
        let p = self.slots@[i].path@;
        assert(ps[i] == p);
        assert(ps.contains(p));
        lemma_ascending_distinct(ps);
        let j = position(self.slots@, p);
        assert(0 <= j < self.slots@.len() && self.slots@[j].path@ == p);
        assert(ps[j] == ps[i]);
    }

    /// The slots list the whole image.
    proof fn lemma_lists_all(&self)
        requires
            self.inv(),
        ensures
            lists(self.slots@, self@, |p: Path| true),
    {
        assert forall|i: int| 0 <= i < self.slots@.len() implies (#[trigger] self.slots@[i]).entry@
            == self@[self.slots@[i].path@] by {
            self.lemma_slot(i);
        }
    }

    /// Slots that list a whole image determine it.
    proof fn lemma_image(&self, image: Image)
        requires
            self.inv(),
            lists(self.slots@, image, |p: Path| true),
        ensures
            self@ == image,
    {
        assert forall|p: Path| self@.contains_key(p) implies self@[p] == image[p] by {
            let ps = slot_paths(self.slots@);
            let i = choose|i: int| 0 <= i < ps.len() && ps[i] == p;
            self.lemma_slot(i);
            assert(self.slots@[i].entry@ == image[p]);
        }
        assert(self@.dom() =~= image.dom()) by {
            assert forall|p: Path| self@.contains_key(p) <==> image.contains_key(p) by {
                assert(slot_paths(self.slots@).contains(p) <==> image.contains_key(p));
            }
        }
        assert(self@ =~= image);
    }

    /// An empty catalog.
    pub fn new() -> (r: Catalog)
        ensures
            r.inv(),
            r@ == Map::<Path, Node>::empty(),
    {
        let r = Catalog { slots: Vec::new() };
        assert(r@ =~= Map::<Path, Node>::empty());
        r
    }

    /// The slots, in path order.
    pub fn slots(&self) -> (r: &Vec<Slot>)
        requires
            self.inv(),
        ensures
            r@ == self.spec_slots(),
            lists(r@, self@, |p: Path| true),
    {
        proof {
            self.lemma_lists_all();
        }
        &self.slots
    }

    /// The number of slots before `path`, and whether `path` is in the next one.
    fn find(&self, path: &str) -> (r: (usize, bool))
        requires
            self.inv(),
        ensures
            r.0 <= self.slots@.len(),
            forall|i: int| 0 <= i < r.0 ==> path_lt(#[trigger] self.slots@[i].path@, path@),
            forall|i: int|
                r.0 <= i < self.slots@.len() ==> !path_lt(
                    #[trigger] self.slots@[i].path@,
                    path@,
                ),
            r.1 <==> self@.contains_key(path@),
            r.1 ==> r.0 < self.slots@.len() && self.slots@[r.0 as int].path@ == path@,
    {
        let mut lo: usize = 0;
        let mut hi: usize = self.slots.len();
        let ghost ps = slot_paths(self.slots@);
        while lo < hi
            invariant
                self.inv(),
                ps == slot_paths(self.slots@),
                lo <= hi <= self.slots@.len(),
                forall|i: int| 0 <= i < lo ==> path_lt(#[trigger] self.slots@[i].path@, path@),
                forall|i: int|
                    hi <= i < self.slots@.len() ==> path_lt(
                        path@,
                        #[trigger] self.slots@[i].path@,
                    ),
            decreases hi - lo,
        {
            let mid = lo + (hi - lo) / 2;
            let ghost m = self.slots@[mid as int].path@;
            match rank(self.slots[mid].path.as_str(), path) {
                Rank::Before => {
                    assert forall|i: int| 0 <= i < mid + 1 implies path_lt(
                        #[trigger] self.slots@[i].path@,
                        path@,
                    ) by {
                        if i < mid {
                            assert(path_lt(ps[i], ps[mid as int]));
                            lemma_lt_transitive(ps[i], m, path@);
                        }
                    }
                    lo = mid + 1;
                },
                Rank::Same => {
                    proof {
                        assert forall|i: int| 0 <= i < mid implies path_lt(
                            #[trigger] self.slots@[i].path@,
                            path@,
                        ) by {
                            assert(path_lt(ps[i], ps[mid as int]));
                        }
                        assert forall|i: int| mid <= i < self.slots@.len() implies !path_lt(
                            #[trigger] self.slots@[i].path@,
                            path@,
                        ) by {
                            if i > mid {
                                assert(path_lt(ps[mid as int], ps[i]));
                                lemma_lt_asymmetric(ps[mid as int], ps[i]);
                            } else {
                                lemma_lt_irreflexive(m);
                            }
                        }
                        assert(ps[mid as int] == path@);
                    }
                    return (mid, true);
                },
                Rank::After => {
                    proof {
                        lemma_lt_total(m, path@);
                    }
                    assert forall|i: int| mid <= i < self.slots@.len() implies path_lt(
                        path@,
                        #[trigger] self.slots@[i].path@,
                    ) by {
                        if i > mid {
                            assert(path_lt(ps[mid as int], ps[i]));
                            lemma_lt_transitive(path@, m, ps[i]);
                        }
                    }
                    hi = mid;
                },
            }
        }
        proof {
            if ps.contains(path@) {
                let i = choose|i: int| 0 <= i < ps.len() && ps[i] == path@;
                assert(self.slots@[i].path@ == path@);
                lemma_lt_irreflexive(path@);
            }
            assert forall|i: int| lo <= i < self.slots@.len() implies !path_lt(
                #[trigger] self.slots@[i].path@,
                path@,
            ) by {
                lemma_lt_asymmetric(path@, self.slots@[i].path@);
            }
        }
        (lo, false)
    }

    /// What stands at `path`.
    pub fn get(&self, path: &str) -> (r: Option<Entry>)
        requires
            self.inv(),
        ensures
            r is Some <==> self@.contains_key(path@),
            r is Some ==> r->0@ == self@[path@],
    {
        let (i, found) = self.find(path);
        if found {
            proof {
                self.lemma_slot(i as int);
            }
            Some(self.slots[i].entry)
        } else {
            None
        }
    }

    /// Puts `entry` at `path`.
    pub fn insert(&mut self, path: &str, entry: Entry)
        requires
            old(self).inv(),
        ensures
            final(self).inv(),
            final(self)@ == old(self)@.insert(path@, entry@),
    {
        let ghost before = *self;
        let ghost ps = slot_paths(self.slots@);
        let (i, found) = self.find(path);
        let slot = Slot { path: path.to_owned(), entry };
        proof {
            before.lemma_lists_all();
        }
        let ghost image = before@.insert(path@, entry@);
        if found {
            self.slots.set(i, slot);
            proof {
                assert(slot_paths(self.slots@) =~= ps);
                assert(ps[i as int] == path@);
                lemma_ascending_distinct(ps);
                assert(lists(self.slots@, image, |p: Path| true)) by {
                    assert forall|p: Path| #[trigger]
                        slot_paths(self.slots@).contains(p) <==> image.contains_key(p) by {
                        assert(ps.contains(p) <==> before@.contains_key(p));
                    }
                    assert forall|j: int| 0 <= j < self.slots@.len() implies (
                    #[trigger] self.slots@[j]).entry@ == image[self.slots@[j].path@] by {
                        if j != i {
                            assert(ps[j] != ps[i as int]);
                            assert(before.slots@[j].entry@ == before@[ps[j]]);
                        }
                    }
                }
                self.lemma_image(image);
            }
        } else {
            self.slots.insert(i, slot);
            proof {
                let qs = slot_paths(self.slots@);
                assert(qs =~= ps.insert(i as int, path@));
                assert forall|a: int, b: int| 0 <= a < b < qs.len() implies path_lt(
                    qs[a],
                    qs[b],
                ) by {
                    if b < i {
                        assert(path_lt(ps[a], ps[b]));
                    } else if a > i {
                        assert(path_lt(ps[a - 1], ps[b - 1]));
                    } else if a == i {
                        assert(before.slots@[b - 1].path@ == ps[b - 1]);
                        lemma_lt_total(ps[b - 1], path@);
                        assert(ps.contains(ps[b - 1]));
                    } else if b == i {
                        assert(before.slots@[a].path@ == ps[a]);
                    } else {
                        assert(path_lt(ps[a], ps[b - 1]));
                    }
                }
                assert(lists(self.slots@, image, |p: Path| true)) by {
                    assert forall|p: Path| #[trigger]
                        slot_paths(self.slots@).contains(p) <==> image.contains_key(p) by {
                        assert(ps.contains(p) <==> before@.contains_key(p));
                        if ps.contains(p) {
                            let k = choose|k: int| 0 <= k < ps.len() && ps[k] == p;
                            if k < i {
                                assert(qs[k] == p);
                            } else {
                                assert(qs[k + 1] == p);
                            }
                        }
                        if p == path@ {
                            assert(qs[i as int] == p);
                        }
                        if qs.contains(p) && p != path@ {
                            let k = choose|k: int| 0 <= k < qs.len() && qs[k] == p;
                            if k < i {
                                assert(ps[k] == p);
                            } else {
                                assert(ps[k - 1] == p);
                            }
                        }
                    }
                    assert forall|j: int| 0 <= j < self.slots@.len() implies (
                    #[trigger] self.slots@[j]).entry@ == image[self.slots@[j].path@] by {
                        if j < i {
                            assert(before.slots@[j].entry@ == before@[ps[j]]);
                            assert(ps.contains(ps[j]));
                        } else if j > i {
                            assert(before.slots@[j - 1].entry@ == before@[ps[j - 1]]);
                            assert(ps.contains(ps[j - 1]));
                        }
                    }
                }
                self.lemma_image(image);
            }
        }
    }

    /// Takes `path` out.
    pub fn remove(&mut self, path: &str)
        requires
            old(self).inv(),
        ensures
            final(self).inv(),
            final(self)@ == old(self)@.remove(path@),
    {
        let ghost before = *self;
        let ghost ps = slot_paths(self.slots@);
        let (i, found) = self.find(path);
        if found {
            self.slots.remove(i);
            proof {
                before.lemma_lists_all();
                let qs = slot_paths(self.slots@);
                let image = before@.remove(path@);
                assert(ps[i as int] == path@);
                assert(qs =~= ps.remove(i as int));
                lemma_ascending_distinct(ps);
                assert forall|a: int, b: int| 0 <= a < b < qs.len() implies path_lt(
                    qs[a],
                    qs[b],
                ) by {
                    let a1 = if a < i {
                        a
                    } else {
                        a + 1
                    };
                    let b1 = if b < i {
                        b
                    } else {
                        b + 1
                    };
                    assert(path_lt(ps[a1], ps[b1]));
                }
                assert(lists(self.slots@, image, |p: Path| true)) by {
                    assert forall|p: Path| #[trigger]
                        slot_paths(self.slots@).contains(p) <==> image.contains_key(p) by {
                        assert(ps.contains(p) <==> before@.contains_key(p));
                        if ps.contains(p) && p != path@ {
                            let k = choose|k: int| 0 <= k < ps.len() && ps[k] == p;
                            if k < i {
                                assert(qs[k] == p);
                            } else {
                                assert(qs[k - 1] == p);
                            }
                        }
                        if qs.contains(p) {
                            let k = choose|k: int| 0 <= k < qs.len() && qs[k] == p;
                            if k < i {
                                assert(ps[k] == p);
                                assert(ps[k] != ps[i as int]);
                            } else {
                                assert(ps[k + 1] == p);
                                assert(ps[k + 1] != ps[i as int]);
                            }
                        }
                    }
                    assert forall|j: int| 0 <= j < self.slots@.len() implies (
                    #[trigger] self.slots@[j]).entry@ == image[self.slots@[j].path@] by {
                        let k = if j < i {
                            j
                        } else {
                            j + 1
                        };
                        assert(before.slots@[k].entry@ == before@[ps[k]]);
                        assert(ps[k] != ps[i as int]);
                    }
                }
                self.lemma_image(image);
            }
        } else {
            assert(self@ =~= before@.remove(path@));
        }
    }
}

/// `p` starts with `q`.
spec fn starts(p: Path, q: Path) -> bool {
    q.len() <= p.len() && p.take(q.len() as int) == q
}

/// What lies between a prefix and a path that starts with it, starts with it too.
proof fn lemma_between(q: Path, x: Path, y: Path)
    requires
        starts(y, q),
        !path_lt(x, q),
        path_lt(x, y),
    ensures
        starts(x, q),
    decreases q.len(),
{
    if q.len() == 0 {
        assert(x.take(0) =~= q);
    } else {
        assert(y[0] == y.take(q.len() as int)[0]);
        assert(y.drop_first().take(q.len() - 1) =~= y.take(q.len() as int).drop_first());
        assert(q.drop_first() =~= y.drop_first().take(q.len() - 1));
        lemma_between(q.drop_first(), x.drop_first(), y.drop_first());
        assert(x.take(q.len() as int) =~= seq![x[0]] + x.drop_first().take(q.len() - 1));
        assert(q =~= seq![q[0]] + q.drop_first());
    }
}

/// The descendants of `a` are what starts with `a` and a slash.
proof fn lemma_under_starts(p: Path, a: Path)
    ensures
        under(p, a) <==> starts(p, a.push('/')),
{
    let q = a.push('/');
    if under(p, a) {
        assert(p.take(q.len() as int) =~= p.take(a.len() as int).push('/'));
    }
    if starts(p, q) {
        assert(p.take(a.len() as int) =~= p.take(q.len() as int).take(a.len() as int));
        assert(q.take(a.len() as int) =~= a);
        assert(p[a.len() as int] == p.take(q.len() as int)[a.len() as int]);
    }
}

/// A path that starts with `q` does not come before it.
proof fn lemma_starts_not_lt(p: Path, q: Path)
    requires
        starts(p, q),
    ensures
        !path_lt(p, q),
{
    if p.len() == q.len() {
        assert(p.take(q.len() as int) =~= p);
        lemma_lt_irreflexive(p);
    } else {
        lemma_prefix_lt(q, p);
        lemma_lt_asymmetric(q, p);
    }
}

impl Catalog {
    /// The run of slots that hold the descendants of `path`.
    pub fn span(&self, path: &str) -> (r: (usize, usize))
        requires
            self.inv(),
        ensures
            r.0 <= r.1 <= self.spec_slots().len(),
            forall|i: int|
                0 <= i < self.spec_slots().len() ==> (r.0 <= i < r.1 <==> under(
                    #[trigger] self.spec_slots()[i].path@,
                    path@,
                )),
    {
        let prefix = path.to_owned().concat("/");
        let ghost q = path@.push('/');
        proof {
            reveal_strlit("/");
            assert(prefix@ =~= q);
        }
        let (lo, found) = self.find(prefix.as_str());
        let ghost ps = slot_paths(self.slots@);
        assert forall|i: int| 0 <= i < lo implies !under(#[trigger] self.slots@[i].path@, path@) by {
            lemma_under_starts(ps[i], path@);
            if starts(ps[i], q) {
                lemma_starts_not_lt(ps[i], q);
            }
        }
        let mut hi: usize = lo;
        while hi < self.slots.len() && is_under(self.slots[hi].path.as_str(), path)
            invariant
                lo <= hi <= self.slots@.len(),
                forall|i: int| lo <= i < hi ==> under(#[trigger] self.slots@[i].path@, path@),
            decreases self.slots@.len() - hi,
        {
            hi += 1;
        }
        assert forall|i: int| hi <= i < self.slots@.len() implies !under(
            #[trigger] self.slots@[i].path@,
            path@,
        ) by {
            if under(ps[i], path@) {
                assert(i > hi);
                assert(path_lt(ps[hi as int], ps[i]));
                lemma_under_starts(ps[i], path@);
                lemma_under_starts(ps[hi as int], path@);
                lemma_between(q, ps[hi as int], ps[i]);
            }
        }
        (lo, hi)
    }
}

/// The descendants of `path`, in path order.
pub fn descendants_of(map: &Catalog, path: &str) -> (r: Vec<Slot>)
    requires
        map.inv(),
    ensures
        lists(r@, map@, |p: Path| under(p, path@)),
{
    let (lo, hi) = map.span(path);
    let mut r: Vec<Slot> = Vec::new();
    let mut i: usize = lo;
    while i < hi
        invariant
            lo <= i <= hi <= map.slots@.len(),
            r@.len() == i - lo,
            forall|j: int|
                0 <= j < r@.len() ==> (#[trigger] r@[j]).path@ == map.slots@[j + lo].path@
                    && r@[j].entry == map.slots@[j + lo].entry,
        decreases hi - i,
    {
        r.push(Slot { path: map.slots[i].path.clone(), entry: map.slots[i].entry });
        i += 1;
    }
    proof {
        let ps = slot_paths(map.slots@);
        let qs = slot_paths(r@);
        assert(qs =~= ps.subrange(lo as int, hi as int));
        map.lemma_lists_all();
        assert forall|a: int, b: int| 0 <= a < b < qs.len() implies path_lt(qs[a], qs[b]) by {
            assert(path_lt(ps[a + lo], ps[b + lo]));
        }
        let keep = |p: Path| under(p, path@);
        assert forall|p: Path| #[trigger]
            qs.contains(p) <==> map@.contains_key(p) && keep(p) by {
            assert(ps.contains(p) <==> map@.contains_key(p));
            if qs.contains(p) {
                let k = choose|k: int| 0 <= k < qs.len() && qs[k] == p;
                assert(map.slots@[k + lo].path@ == p);
                assert(ps[k + lo] == p);
            }
            if ps.contains(p) && under(p, path@) {
                let k = choose|k: int| 0 <= k < ps.len() && ps[k] == p;
                assert(map.slots@[k].path@ == p);
                assert(qs[k - lo] == p);
            }
        }
        assert forall|j: int| 0 <= j < r@.len() implies (#[trigger] r@[j]).entry@
            == map@[r@[j].path@] by {
            map.lemma_slot(j + lo);
        }
    }
    r
}

/// Takes out the descendants of `path`.
pub fn remove_descendants(map: &mut Catalog, path: &str)
    requires
        old(map).inv(),
    ensures
        final(map).inv(),
        final(map)@ == old(map)@.remove_keys(Set::new(|p: Path| under(p, path@))),
{
    let ghost before = *map;
    let (lo, hi) = map.span(path);
    let mut tail = map.slots.split_off(lo);
    let mut rest = tail.split_off(hi - lo);
    map.slots.append(&mut rest);
    proof {
        let image = before@.remove_keys(Set::new(|p: Path| under(p, path@)));
        let ps = slot_paths(before.slots@);
        let qs = slot_paths(map.slots@);
        let n = before.slots@.len() as int;
        assert(map.slots@ =~= before.slots@.subrange(0, lo as int) + before.slots@.subrange(
            hi as int,
            n,
        ));
        assert(qs =~= ps.subrange(0, lo as int) + ps.subrange(hi as int, n));
        before.lemma_lists_all();
        assert forall|a: int, b: int| 0 <= a < b < qs.len() implies path_lt(qs[a], qs[b]) by {
            let a1 = if a < lo {
                a
            } else {
                a + hi - lo
            };
            let b1 = if b < lo {
                b
            } else {
                b + hi - lo
            };
            assert(path_lt(ps[a1], ps[b1]));
        }
        assert forall|p: Path| #[trigger] qs.contains(p) <==> image.contains_key(p) by {
            assert(ps.contains(p) <==> before@.contains_key(p));
            if qs.contains(p) {
                let k = choose|k: int| 0 <= k < qs.len() && qs[k] == p;
                let k1 = if k < lo {
                    k
                } else {
                    k + hi - lo
                };
                assert(before.slots@[k1].path@ == p);
                assert(ps[k1] == p);
            }
            if ps.contains(p) && !under(p, path@) {
                let k = choose|k: int| 0 <= k < ps.len() && ps[k] == p;
                assert(before.slots@[k].path@ == p);
                let k1 = if k < lo {
                    k
                } else {
                    k - hi + lo
                };
                assert(qs[k1] == p);
            }
        }
        assert forall|j: int| 0 <= j < map.slots@.len() implies (#[trigger] map.slots@[j]).entry@
            == image[map.slots@[j].path@] by {
            let k = if j < lo {
                j
            } else {
                j + hi - lo
            };
            before.lemma_slot(k);
            assert(before.slots@[k].path@ == map.slots@[j].path@);
        }
        map.lemma_image(image);
    }
}

} // verus!
