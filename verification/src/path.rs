//! Paths: their order, the ancestor relation, and the canonical form.
//!
//! Paths are ordered character by character, by code point. For UTF-8 text this
//! is the order of the underlying bytes.
use vstd::prelude::*;

verus! {

/// A path, as the sequence of its characters.
pub type Path = Seq<char>;

/// The paths that a vector of strings holds, in its order.
pub open spec fn paths(v: Seq<String>) -> Seq<Path> {
    v.map_values(|s: String| s@)
}

/// The paths that a vector of string slices holds, in its order.
pub open spec fn slice_paths(v: Seq<&str>) -> Seq<Path> {
    v.map_values(|s: &str| s@)
}

/// What a sequence holds after one more item was put behind it.
pub proof fn lemma_push_contains<A>(s: Seq<A>, x: A, y: A)
    ensures
        s.push(x).contains(y) <==> s.contains(y) || x == y,
{
    let t = s.push(x);
    if s.contains(y) {
        let i = choose|i: int| 0 <= i < s.len() && s[i] == y;
        assert(t[i] == y);
    }
    if x == y {
        assert(t[s.len() as int] == y);
    }
    if t.contains(y) && x != y {
        let i = choose|i: int| 0 <= i < t.len() && t[i] == y;
        assert(s[i] == y);
    }
}

// ---------------------------------------------------------------------------
// Order
// ---------------------------------------------------------------------------

/// `a` comes strictly before `b`.
pub open spec fn path_lt(a: Path, b: Path) -> bool
    decreases a.len(),
{
    if b.len() == 0 {
        false
    } else if a.len() == 0 {
        true
    } else if a[0] != b[0] {
        a[0] < b[0]
    } else {
        path_lt(a.drop_first(), b.drop_first())
    }
}

/// Every path of `s` comes strictly before all that follow it.
pub open spec fn ascending(s: Seq<Path>) -> bool {
    forall|i: int, j: int| 0 <= i < j < s.len() ==> path_lt(s[i], s[j])
}

/// No path of `s` comes after one that follows it.
pub open spec fn non_descending(s: Seq<Path>) -> bool {
    forall|i: int, j: int| 0 <= i < j < s.len() ==> !path_lt(s[j], s[i])
}

/// No path comes before itself.
pub proof fn lemma_lt_irreflexive(a: Path)
    ensures
        !path_lt(a, a),
    decreases a.len(),
{
    if a.len() > 0 {
        lemma_lt_irreflexive(a.drop_first());
    }
}

/// The order is transitive.
pub proof fn lemma_lt_transitive(a: Path, b: Path, c: Path)
    requires
        path_lt(a, b),
        path_lt(b, c),
    ensures
        path_lt(a, c),
    decreases a.len(),
{
    if a.len() > 0 && a[0] == b[0] && b[0] == c[0] {
        lemma_lt_transitive(a.drop_first(), b.drop_first(), c.drop_first());
    }
}

/// Of two different paths one comes before the other.
pub proof fn lemma_lt_total(a: Path, b: Path)
    ensures
        a == b || path_lt(a, b) || path_lt(b, a),
    decreases a.len(),
{
    if a.len() > 0 && b.len() > 0 {
        if a[0] == b[0] {
            lemma_lt_total(a.drop_first(), b.drop_first());
            if a.drop_first() == b.drop_first() {
                assert(a =~= seq![a[0]] + a.drop_first());
                assert(b =~= seq![b[0]] + b.drop_first());
            }
        }
    } else if a.len() == 0 && b.len() == 0 {
        assert(a =~= b);
    }
}

/// Two paths do not come before each other.
pub proof fn lemma_lt_asymmetric(a: Path, b: Path)
    requires
        path_lt(a, b),
    ensures
        !path_lt(b, a),
{
    if path_lt(b, a) {
        lemma_lt_transitive(a, b, a);
        lemma_lt_irreflexive(a);
    }
}

/// An ascending sequence holds no path twice.
pub proof fn lemma_ascending_distinct(s: Seq<Path>)
    requires
        ascending(s),
    ensures
        s.no_duplicates(),
{
    assert forall|i: int, j: int| 0 <= i < s.len() && 0 <= j < s.len() && i != j implies s[i]
        != s[j] by {
        lemma_lt_irreflexive(s[i]);
        if i < j {
            assert(path_lt(s[i], s[j]));
        } else {
            assert(path_lt(s[j], s[i]));
        }
    }
}

/// A sequence without repetitions that never descends, ascends.
pub proof fn lemma_non_descending_distinct(s: Seq<Path>)
    requires
        non_descending(s),
        s.no_duplicates(),
    ensures
        ascending(s),
{
    assert forall|i: int, j: int| 0 <= i < j < s.len() implies path_lt(s[i], s[j]) by {
        lemma_lt_total(s[i], s[j]);
    }
}

/// An ascending sequence is determined by the paths that it holds.
pub proof fn lemma_ascending_unique(s: Seq<Path>, t: Seq<Path>)
    requires
        ascending(s),
        ascending(t),
        forall|p: Path| s.contains(p) <==> t.contains(p),
    ensures
        s == t,
    decreases s.len(),
{
    if s.len() == 0 {
        if t.len() > 0 {
            assert(t.contains(t[0]));
        }
        assert(s =~= t);
    } else {
        assert(s.contains(s[0]));
        assert(t.contains(s[0]));
        assert(t.contains(t[0]));
        assert(s.contains(t[0]));
        if s[0] != t[0] {
            let i = choose|i: int| 0 <= i < t.len() && t[i] == s[0];
            let j = choose|j: int| 0 <= j < s.len() && s[j] == t[0];
            assert(path_lt(t[0], t[i]));
            assert(path_lt(s[0], s[j]));
            lemma_lt_asymmetric(s[0], t[0]);
        }
        let s1 = s.drop_first();
        let t1 = t.drop_first();
        lemma_ascending_distinct(s);
        lemma_ascending_distinct(t);
        assert forall|p: Path| s1.contains(p) <==> t1.contains(p) by {
            if s1.contains(p) {
                let i = choose|i: int| 0 <= i < s1.len() && s1[i] == p;
                assert(s[i + 1] == p);
                assert(s.contains(p));
                let j = choose|j: int| 0 <= j < t.len() && t[j] == p;
                assert(j != 0);
                assert(t1[j - 1] == p);
            }
            if t1.contains(p) {
                let i = choose|i: int| 0 <= i < t1.len() && t1[i] == p;
                assert(t[i + 1] == p);
                assert(t.contains(p));
                let j = choose|j: int| 0 <= j < s.len() && s[j] == p;
                assert(j != 0);
                assert(s1[j - 1] == p);
            }
        }
        lemma_ascending_unique(s1, t1);
        assert(s =~= seq![s[0]] + s1);
        assert(t =~= seq![t[0]] + t1);
    }
}

/// How one path stands to another in the order.
#[derive(Clone, Copy, PartialEq, Eq, Structural)]
pub enum Rank {
    Before,
    Same,
    After,
}

/// How `a` stands to `b`.
pub open spec fn rank_of(a: Path, b: Path) -> Rank {
    if a == b {
        Rank::Same
    } else if path_lt(a, b) {
        Rank::Before
    } else {
        Rank::After
    }
}

/// Compares two paths.
pub fn rank(a: &str, b: &str) -> (r: Rank)
    ensures
        r == rank_of(a@, b@),
{
    let mut x = a.chars();
    let mut y = b.chars();
    loop
        invariant
            vstd::std_specs::iter::IteratorSpec::decrease(&x) is Some,
            rank_of(a@, b@) == rank_of(
                vstd::std_specs::iter::IteratorSpec::remaining(&x),
                vstd::std_specs::iter::IteratorSpec::remaining(&y),
            ),
        decreases vstd::std_specs::iter::IteratorSpec::decrease(&x)->0,
    {
        let ghost xs = vstd::std_specs::iter::IteratorSpec::remaining(&x);
        let ghost ys = vstd::std_specs::iter::IteratorSpec::remaining(&y);
        match x.next() {
            None => {
                return match y.next() {
                    None => {
                        assert(xs =~= ys);
                        Rank::Same
                    },
                    Some(_) => Rank::Before,
                };
            },
            Some(c) => {
                match y.next() {
                    None => {
                        return Rank::After;
                    },
                    Some(d) => {
                        if c != d {
                            return if c < d {
                                Rank::Before
                            } else {
                                Rank::After
                            };
                        }
                        assert(xs =~= seq![c] + xs.drop_first());
                        assert(ys =~= seq![d] + ys.drop_first());
                    },
                }
            },
        }
    }
}

/// Tells whether two paths are the same.
pub fn same(a: &str, b: &str) -> (r: bool)
    ensures
        r == (a@ == b@),
{
    rank(a, b) == Rank::Same
}

/// Tells whether `list` holds `p`.
pub fn listed(list: &Vec<String>, p: &str) -> (r: bool)
    ensures
        r == paths(list@).contains(p@),
{
    let mut i: usize = 0;
    while i < list.len()
        invariant
            i <= list.len(),
            forall|j: int| 0 <= j < i ==> list@[j]@ != p@,
        decreases list.len() - i,
    {
        if same(list[i].as_str(), p) {
            assert(paths(list@)[i as int] == p@);
            return true;
        }
        i += 1;
    }
    false
}

/// The paths of `list`, in order.
pub fn sorted<'a>(list: &'a Vec<String>) -> (r: Vec<&'a str>)
    ensures
        slice_paths(r@).to_multiset() == paths(list@).to_multiset(),
        non_descending(slice_paths(r@)),
        forall|p: Path| #[trigger] slice_paths(r@).contains(p) <==> paths(list@).contains(p),
{
    let mut v: Vec<&'a str> = Vec::new();
    let mut i: usize = 0;
    assert(slice_paths(v@) =~= paths(list@).take(0));
    while i < list.len()
        invariant
            i <= list.len(),
            slice_paths(v@).to_multiset() == paths(list@).take(i as int).to_multiset(),
            non_descending(slice_paths(v@)),
        decreases list.len() - i,
    {
        insert_in_order(&mut v, list[i].as_str());
        proof {
            let t = paths(list@).take(i as int);
            assert(paths(list@).take(i + 1) =~= t.push(list@[i as int]@));
            t.to_multiset_ensures();
        }
        i += 1;
    }
    proof {
        assert(paths(list@).take(i as int) =~= paths(list@));
        slice_paths(v@).to_multiset_ensures();
        paths(list@).to_multiset_ensures();
        assert forall|p: Path| #[trigger] slice_paths(v@).contains(p) <==> paths(
            list@,
        ).contains(p) by {
            assert(slice_paths(v@).to_multiset().count(p) == paths(list@).to_multiset().count(p));
        }
    }
    v
}

/// Puts `p` behind the last path of `v` that does not come after it.
fn insert_in_order<'a>(v: &mut Vec<&'a str>, p: &'a str)
    requires
        non_descending(slice_paths(old(v)@)),
    ensures
        slice_paths(final(v)@).to_multiset() == slice_paths(old(v)@).to_multiset().insert(p@),
        non_descending(slice_paths(final(v)@)),
{
    let mut i: usize = v.len();
    while i > 0 && rank(v[i - 1], p) == Rank::After
        invariant
            i <= v.len(),
            v@ == old(v)@,
            forall|j: int| i <= j < v.len() ==> path_lt(p@, #[trigger] v@[j]@),
        decreases i,
    {
        proof {
            lemma_lt_total(v@[i - 1]@, p@);
        }
        i -= 1;
    }
    let ghost s = slice_paths(v@);
    v.insert(i, p);
    proof {
        let t = slice_paths(v@);
        assert(t =~= s.insert(i as int, p@));
        vstd::seq_lib::to_multiset_insert(s, i as int, p@);
        if i > 0 && path_lt(p@, s[i - 1]) {
            lemma_lt_asymmetric(p@, s[i - 1]);
            lemma_lt_irreflexive(p@);
        }
        assert forall|a: int, b: int| 0 <= a < b < t.len() implies !path_lt(t[b], t[a]) by {
            if a < i && b > i {
                assert(!path_lt(s[b - 1], s[a]));
            } else if a > i {
                assert(!path_lt(s[b - 1], s[a - 1]));
            } else if a == i {
                assert(path_lt(p@, s[b - 1]));
                lemma_lt_asymmetric(p@, s[b - 1]);
            } else if b == i {
                assert(!path_lt(p@, s[i - 1]));
                if path_lt(p@, s[a]) {
                    assert(a < i - 1);
                    assert(!path_lt(s[i - 1], s[a]));
                    lemma_lt_total(s[i - 1], s[a]);
                    if s[a] != s[i - 1] {
                        lemma_lt_transitive(p@, s[a], s[i - 1]);
                    }
                }
            }
        }
    }
}

// ---------------------------------------------------------------------------
// Ancestors
// ---------------------------------------------------------------------------

/// `a` is a proper ancestor of `p`: `p` continues `a` with a slash.
pub open spec fn under(p: Path, a: Path) -> bool {
    &&& a.len() < p.len()
    &&& p[a.len() as int] == '/'
    &&& p.take(a.len() as int) == a
}

/// An ancestor of an ancestor is an ancestor.
pub proof fn lemma_under_transitive(p: Path, a: Path, b: Path)
    requires
        under(p, a),
        under(a, b),
    ensures
        under(p, b),
{
    assert(p[b.len() as int] == p.take(a.len() as int)[b.len() as int]);
    assert(p.take(b.len() as int) =~= p.take(a.len() as int).take(b.len() as int));
}

/// The ancestors of one path form a chain.
pub proof fn lemma_under_chain(p: Path, a: Path, b: Path)
    requires
        under(p, a),
        under(p, b),
    ensures
        a.len() < b.len() ==> under(b, a),
        a.len() == b.len() ==> a == b,
{
    if a.len() < b.len() {
        assert(b[a.len() as int] == p.take(b.len() as int)[a.len() as int]);
        assert(b.take(a.len() as int) =~= p.take(a.len() as int));
    }
}

/// A path comes before those that continue it.
pub proof fn lemma_prefix_lt(a: Path, p: Path)
    requires
        a.len() < p.len(),
        p.take(a.len() as int) == a,
    ensures
        path_lt(a, p),
    decreases a.len(),
{
    if a.len() > 0 {
        assert(a[0] == p.take(a.len() as int)[0]);
        assert(p.drop_first().take(a.len() - 1) =~= p.take(a.len() as int).drop_first());
        lemma_prefix_lt(a.drop_first(), p.drop_first());
    }
}

/// An ancestor comes before its descendants.
pub proof fn lemma_under_lt(p: Path, a: Path)
    requires
        under(p, a),
    ensures
        path_lt(a, p),
        a != p,
{
    lemma_prefix_lt(a, p);
}

/// A shared first character makes no difference to the ancestor relation.
proof fn lemma_under_step(p: Path, a: Path)
    requires
        p.len() > 0,
        a.len() > 0,
        p[0] == a[0],
    ensures
        under(p, a) == under(p.drop_first(), a.drop_first()),
{
    let x = p.drop_first();
    let y = a.drop_first();
    if under(p, a) {
        assert(x.take(y.len() as int) =~= p.take(a.len() as int).drop_first());
    }
    if under(x, y) {
        assert(p.take(a.len() as int) =~= seq![p[0]] + x.take(y.len() as int));
        assert(a =~= seq![a[0]] + y);
    }
}

/// Tells whether `a` is a proper ancestor of `p`.
pub fn is_under(p: &str, a: &str) -> (r: bool)
    ensures
        r == under(p@, a@),
{
    let mut x = p.chars();
    let mut y = a.chars();
    loop
        invariant
            vstd::std_specs::iter::IteratorSpec::decrease(&x) is Some,
            under(p@, a@) == under(
                vstd::std_specs::iter::IteratorSpec::remaining(&x),
                vstd::std_specs::iter::IteratorSpec::remaining(&y),
            ),
        decreases vstd::std_specs::iter::IteratorSpec::decrease(&x)->0,
    {
        let ghost xs = vstd::std_specs::iter::IteratorSpec::remaining(&x);
        let ghost ys = vstd::std_specs::iter::IteratorSpec::remaining(&y);
        match x.next() {
            None => {
                return false;
            },
            Some(c) => {
                match y.next() {
                    None => {
                        assert(xs.take(0) =~= ys);
                        return c == '/';
                    },
                    Some(d) => {
                        if c != d {
                            assert(under(xs, ys) ==> xs.take(ys.len() as int)[0] == ys[0]);
                            return false;
                        }
                        proof {
                            lemma_under_step(xs, ys);
                        }
                    },
                }
            },
        }
    }
}

/// The proper ancestors of a path, shortest first.
pub fn ancestors(path: &str) -> (r: Vec<String>)
    ensures
        forall|a: Path|
            #![trigger paths(r@).contains(a)]
            #![trigger under(path@, a)]
            paths(r@).contains(a) <==> under(path@, a),
        forall|i: int, j: int| 0 <= i < j < r.len() ==> r@[i]@.len() < r@[j]@.len(),
{
    let n = path.unicode_len();
    let mut it = path.chars();
    let mut v: Vec<String> = Vec::new();
    let mut i: usize = 0;
    assert(path@.skip(0) =~= path@);
    while i < n
        invariant
            i <= n,
            n == path@.len(),
            vstd::std_specs::iter::IteratorSpec::remaining(&it) == path@.skip(i as int),
            forall|a: Path| #[trigger]
                paths(v@).contains(a) <==> under(path@, a) && a.len() < i,
            forall|j: int, k: int| 0 <= j < k < v.len() ==> v@[j]@.len() < v@[k]@.len(),
        decreases n - i,
    {
        let ghost before = v@;
        match it.next() {
            None => {
                assert(false);
            },
            Some(c) => {
                assert(c == path@[i as int]);
                assert(path@.skip(i as int).drop_first() =~= path@.skip(i + 1));
                if c == '/' {
                    let a = path.substring_char(0, i).to_owned();
                    v.push(a);
                    proof {
                        let p = path@.take(i as int);
                        assert(a@ =~= p);
                        assert(paths(v@) =~= paths(before).push(p));
                        assert(under(path@, p));
                        assert forall|j: int| 0 <= j < before.len() implies before[j]@.len()
                            < i by {
                            assert(paths(before)[j] == before[j]@);
                            assert(paths(before).contains(before[j]@));
                        }
                        assert forall|b: Path|
                            paths(v@).contains(b) <==> under(path@, b) && b.len() < i + 1 by {
                            lemma_push_contains(paths(before), p, b);
                            assert(paths(before).contains(b) <==> under(path@, b) && b.len() < i);
                            if under(path@, b) && b.len() == i {
                                assert(b == p);
                            }
                        }
                    }
                }
                i += 1;
            },
        }
    }
    v
}

// ---------------------------------------------------------------------------
// What the words mean
// ---------------------------------------------------------------------------

/// A path is beneath another where it is that path, a slash, and anything.
pub proof fn law_under(p: Path, a: Path)
    ensures
        under(p, a) <==> exists|rest: Seq<char>| p == #[trigger] (a + seq!['/'] + rest),
{
    if under(p, a) {
        let rest = p.skip(a.len() as int + 1);
        assert(p.take(a.len() as int) == a);
        assert forall|i: int| 0 <= i < p.len() implies p[i] == (a + seq!['/'] + rest)[i] by {
            if i < a.len() {
                assert(p.take(a.len() as int)[i] == a[i]);
            }
        }
        assert(p =~= a + seq!['/'] + rest);
    }
    if exists|rest: Seq<char>| p == #[trigger] (a + seq!['/'] + rest) {
        let rest = choose|rest: Seq<char>| p == #[trigger] (a + seq!['/'] + rest);
        assert(p.take(a.len() as int) =~= a);
    }
}

/// The paths agree up to place `k`, and there `a` ends or has the smaller character.
pub open spec fn smaller_at(a: Path, b: Path, k: int) -> bool {
    &&& 0 <= k <= a.len()
    &&& k < b.len()
    &&& forall|i: int| 0 <= i < k ==> a[i] == b[i]
    &&& k == a.len() || a[k] < b[k]
}

/// One path comes before another where they agree up to some place, and there the
/// first ends or has the smaller character.
pub proof fn law_path_order(a: Path, b: Path)
    ensures
        path_lt(a, b) <==> exists|k: int| smaller_at(a, b, k),
    decreases a.len(),
{
    if b.len() > 0 && a.len() > 0 && a[0] == b[0] {
        let x = a.drop_first();
        let y = b.drop_first();
        law_path_order(x, y);
        if path_lt(x, y) {
            let k = choose|k: int| smaller_at(x, y, k);
            assert forall|i: int| 0 <= i < k + 1 implies a[i] == b[i] by {
                if i > 0 {
                    assert(x[i - 1] == y[i - 1]);
                }
            }
            assert(smaller_at(a, b, k + 1));
        }
        if exists|k: int| smaller_at(a, b, k) {
            let k = choose|k: int| smaller_at(a, b, k);
            assert forall|i: int| 0 <= i < k - 1 implies x[i] == y[i] by {
                assert(a[i + 1] == b[i + 1]);
            }
            assert(smaller_at(x, y, k - 1));
        }
    } else if path_lt(a, b) {
        assert(smaller_at(a, b, 0));
    } else if exists|k: int| smaller_at(a, b, k) {
        let k = choose|k: int| smaller_at(a, b, k);
        if k > 0 {
            assert(a[0] == b[0]);
        }
    }
}

/// The order of two different paths is decided one way.
pub proof fn law_order_is_strict(a: Path, b: Path, c: Path)
    ensures
        !path_lt(a, a),
        a != b ==> (path_lt(a, b) <==> !path_lt(b, a)),
        path_lt(a, b) && path_lt(b, c) ==> path_lt(a, c),
{
    lemma_lt_irreflexive(a);
    lemma_lt_total(a, b);
    if path_lt(a, b) {
        lemma_lt_asymmetric(a, b);
        if path_lt(b, c) {
            lemma_lt_transitive(a, b, c);
        }
    }
}

/// The paths of a list are its strings, one for one.
pub proof fn law_paths(v: Seq<String>, w: Seq<&str>)
    ensures
        paths(v).len() == v.len(),
        forall|i: int| 0 <= i < v.len() ==> #[trigger] paths(v)[i] == v[i]@,
        slice_paths(w).len() == w.len(),
        forall|i: int| 0 <= i < w.len() ==> #[trigger] slice_paths(w)[i] == w[i]@,
{
}

} // verus!
