//! The canonical form of paths.
use vstd::prelude::*;
use crate::path::{same, Path};
use crate::text::{decimal, decimal_text, join3};
use crate::types::{ErrorCode, ErrorView, MergeError};

verus! {

/// The longest path, in bytes.
pub const MAX_PATH_LEN: usize = 512;

/// A printable ASCII character.
pub open spec fn printable(c: char) -> bool {
    ' ' <= c <= '~'
}

/// The number of characters before the first slash.
pub open spec fn head_len(p: Path) -> nat
    decreases p.len(),
{
    if p.len() == 0 || p[0] == '/' {
        0
    } else {
        1 + head_len(p.drop_first())
    }
}

/// What is wrong with a segment, if anything.
pub open spec fn segment_fault(seg: Path) -> Option<Seq<char>> {
    if seg.len() == 0 {
        Some("path contains an empty segment (leading/trailing/double slash)"@)
    } else if seg == "."@ || seg == ".."@ {
        Some("path contains a '.' or '..' segment"@)
    } else if exists|i: int| 0 <= i < seg.len() && !printable(#[trigger] seg[i]) {
        Some("path contains non-printable characters"@)
    } else {
        None
    }
}

/// What is wrong with the first faulty segment, if there is one.
pub open spec fn segments_fault(p: Path) -> Option<Seq<char>>
    decreases p.len(),
{
    let n = head_len(p) as int;
    match segment_fault(p.take(n)) {
        Some(m) => Some(m),
        None => if n < p.len() {
            segments_fault(p.skip(n + 1))
        } else {
            None
        },
    }
}

/// What is wrong with a path, if anything.
pub open spec fn path_fault(p: Path) -> Option<Seq<char>> {
    if p.len() == 0 {
        Some("path is empty"@)
    } else if vstd::utf8::encode_utf8(p).len() > MAX_PATH_LEN {
        Some("path exceeds "@ + decimal(MAX_PATH_LEN as nat) + " bytes"@)
    } else if !vstd::utf8::is_ascii_chars(p) {
        Some("path must be ASCII"@)
    } else if p[0] == '/' {
        Some("path must be relative, not absolute"@)
    } else {
        segments_fault(p)
    }
}

/// The error for a path with a fault.
pub open spec fn path_error(message: Seq<char>) -> ErrorView {
    ErrorView::new(ErrorCode::InvalidPath, message)
}

/// The head of a path ends at its first slash.
proof fn lemma_head_len(p: Path, n: int)
    requires
        0 <= n <= p.len(),
        forall|i: int| 0 <= i < n ==> p[i] != '/',
        n == p.len() || p[n] == '/',
    ensures
        head_len(p) == n,
    decreases p.len(),
{
    if n > 0 {
        let rest = p.drop_first();
        assert forall|i: int| 0 <= i < n - 1 implies rest[i] != '/' by {
            assert(rest[i] == p[i + 1]);
        }
        lemma_head_len(rest, n - 1);
    }
}

/// Tells whether all characters are printable ASCII.
fn all_printable(seg: &str) -> (r: bool)
    ensures
        r <==> forall|i: int| 0 <= i < seg@.len() ==> printable(#[trigger] seg@[i]),
{
    let n = seg.unicode_len();
    let mut it = seg.chars();
    let mut i: usize = 0;
    assert(seg@.skip(0) =~= seg@);
    while i < n
        invariant
            i <= n,
            n == seg@.len(),
            vstd::std_specs::iter::IteratorSpec::remaining(&it) == seg@.skip(i as int),
            forall|j: int| 0 <= j < i ==> printable(#[trigger] seg@[j]),
        decreases n - i,
    {
        match it.next() {
            None => {
                assert(false);
            },
            Some(c) => {
                assert(c == seg@[i as int]);
                assert(seg@.skip(i as int).drop_first() =~= seg@.skip(i + 1));
                if c < ' ' || '~' < c {
                    assert(!printable(seg@[i as int]));
                    return false;
                }
            },
        }
        i += 1;
    }
    true
}

/// Finds what is wrong with a segment.
fn check_segment(seg: &str) -> (r: Option<&'static str>)
    ensures
        match r {
            Some(m) => segment_fault(seg@) == Some(m@),
            None => segment_fault(seg@) is None,
        },
{
    if seg.is_empty() {
        Some("path contains an empty segment (leading/trailing/double slash)")
    } else if same(seg, ".") || same(seg, "..") {
        Some("path contains a '.' or '..' segment")
    } else if !all_printable(seg) {
        Some("path contains non-printable characters")
    } else {
        None
    }
}

/// Finds what is wrong with the segments of a path.
fn check_segments(path: &str) -> (r: Option<&'static str>)
    ensures
        match r {
            Some(m) => segments_fault(path@) == Some(m@),
            None => segments_fault(path@) is None,
        },
{
    let n = path.unicode_len();
    let mut it = path.chars();
    let mut start: usize = 0;
    let mut i: usize = 0;
    let ghost p = path@;
    assert(p.skip(0) =~= p);
    while i < n
        invariant
            start <= i <= n,
            p == path@,
            n == p.len(),
            vstd::std_specs::iter::IteratorSpec::remaining(&it) == p.skip(i as int),
            forall|j: int| start <= j < i ==> p[j] != '/',
            segments_fault(p) == segments_fault(p.skip(start as int)),
        decreases n - i,
    {
        match it.next() {
            None => {
                assert(false);
            },
            Some(c) => {
                assert(c == p[i as int]);
                assert(p.skip(i as int).drop_first() =~= p.skip(i + 1));
                if c == '/' {
                    let seg = path.substring_char(start, i);
                    proof {
                        let rest = p.skip(start as int);
                        lemma_head_len(rest, i - start);
                        assert(seg@ =~= rest.take(i - start));
                        assert(rest.skip(i - start + 1) =~= p.skip(i + 1));
                    }
                    match check_segment(seg) {
                        Some(m) => {
                            return Some(m);
                        },
                        None => {},
                    }
                    start = i + 1;
                }
            },
        }
        i += 1;
    }
    let seg = path.substring_char(start, n);
    proof {
        let rest = p.skip(start as int);
        lemma_head_len(rest, n - start);
        assert(seg@ =~= rest.take(n - start));
    }
    check_segment(seg)
}

/// Tells whether the first character is a slash.
fn starts_with_slash(path: &str) -> (r: bool)
    requires
        path@.len() > 0,
    ensures
        r == (path@[0] == '/'),
{
    path.chars().next() == Some('/')
}

/// Accepts canonical relative ASCII paths: non-empty printable segments joined
/// by single slashes, none of them `.` or `..`.
pub fn validate_path(path: &str) -> (r: Result<(), MergeError>)
    ensures
        r is Ok <==> path_fault(path@) is None,
        r is Err ==> r->Err_0@ == path_error(path_fault(path@)->0),
{
    if path.is_empty() {
        return Err(MergeError::new(ErrorCode::InvalidPath, "path is empty"));
    }
    if path.as_bytes().len() > MAX_PATH_LEN {
        return Err(
            MergeError::new(
                ErrorCode::InvalidPath,
                join3("path exceeds ", decimal_text(MAX_PATH_LEN as u128).as_str(), " bytes"),
            ),
        );
    }
    if !path.is_ascii() {
        return Err(MergeError::new(ErrorCode::InvalidPath, "path must be ASCII"));
    }
    if starts_with_slash(path) {
        return Err(
            MergeError::new(ErrorCode::InvalidPath, "path must be relative, not absolute"),
        );
    }
    match check_segments(path) {
        Some(m) => Err(MergeError::new(ErrorCode::InvalidPath, m)),
        None => Ok(()),
    }
}

// ---------------------------------------------------------------------------
// What canonical means
// ---------------------------------------------------------------------------

/// The characters from `i` up to `j` are a segment of `p`: they reach from slash
/// to slash, or to an end of the path.
pub open spec fn is_segment(p: Path, i: int, j: int) -> bool {
    &&& 0 <= i <= j <= p.len()
    &&& i == 0 || p[i - 1] == '/'
    &&& j == p.len() || p[j] == '/'
    &&& forall|k: int| i <= k < j ==> p[k] != '/'
}

/// A segment that may stand in a path.
pub open spec fn proper_segment(seg: Path) -> bool {
    &&& seg.len() > 0
    &&& seg != "."@
    &&& seg != ".."@
    &&& forall|i: int| 0 <= i < seg.len() ==> printable(#[trigger] seg[i])
}

/// A canonical path: not too long, and every segment proper.
pub open spec fn canonical(p: Path) -> bool {
    &&& p.len() <= MAX_PATH_LEN
    &&& forall|i: int, j: int| #[trigger] is_segment(p, i, j) ==> proper_segment(p.subrange(i, j))
}

/// A segment is proper where nothing is wrong with it.
proof fn lemma_proper(seg: Path)
    ensures
        segment_fault(seg) is None <==> proper_segment(seg),
{
}

/// The head of a path reaches to its first slash.
proof fn lemma_head(p: Path)
    ensures
        head_len(p) <= p.len(),
        forall|i: int| 0 <= i < head_len(p) ==> p[i] != '/',
        head_len(p) == p.len() || p[head_len(p) as int] == '/',
    decreases p.len(),
{
    if p.len() > 0 && p[0] != '/' {
        let rest = p.drop_first();
        lemma_head(rest);
        assert forall|i: int| 0 <= i < head_len(p) implies p[i] != '/' by {
            if i > 0 {
                assert(rest[i - 1] == p[i]);
            }
        }
    }
}

/// From position `s` on, where a segment starts, nothing is wrong exactly
/// where all segments are proper.
proof fn lemma_segments(p: Path, s: int)
    requires
        0 <= s <= p.len(),
        s == 0 || p[s - 1] == '/',
    ensures
        segments_fault(p.skip(s)) is None <==> forall|i: int, j: int|
            s <= i && #[trigger] is_segment(p, i, j) ==> proper_segment(p.subrange(i, j)),
    decreases p.len() - s,
{
    let rest = p.skip(s);
    let n = head_len(rest) as int;
    lemma_head(rest);
    assert(p.subrange(s, s + n) =~= rest.take(n));
    lemma_proper(rest.take(n));
    assert(is_segment(p, s, s + n)) by {
        assert forall|k: int| s <= k < s + n implies p[k] != '/' by {
            assert(rest[k - s] == p[k]);
        }
    }
    assert forall|i: int, j: int| s <= i && #[trigger] is_segment(p, i, j) implies (i == s && j == s
        + n) || (n < rest.len() && i >= s + n + 1) by {
        if i == s {
            if j < s + n {
                assert(p[j] != '/');
            }
            if j > s + n {
                assert(p[s + n] != '/');
            }
        } else if i <= s + n {
            assert(rest[i - 1 - s] == p[i - 1]);
        }
    }
    if n < rest.len() {
        assert(rest.skip(n + 1) =~= p.skip(s + n + 1));
        assert(p[s + n] == '/');
        lemma_segments(p, s + n + 1);
    }
}

/// What is accepted is exactly what is canonical.
pub proof fn law_canonical(p: Path)
    ensures
        path_fault(p) is None <==> canonical(p),
        canonical(p) ==> 0 < p.len() && forall|i: int|
            0 <= i < p.len() ==> printable(#[trigger] p[i]),
        canonical(p) ==> p[0] != '/' && p.last() != '/',
{
    assert(p.skip(0) =~= p);
    lemma_segments(p, 0);
    if p.len() == 0 {
        assert(is_segment(p, 0, 0));
    } else {
        if p[0] == '/' {
            assert(is_segment(p, 0, 0));
        }
        if p.last() == '/' {
            assert(is_segment(p, p.len() as int, p.len() as int));
        }
        if canonical(p) {
            assert forall|k: int| 0 <= k < p.len() implies printable(#[trigger] p[k]) by {
                lemma_char_in_segment(p, k);
            }
            assert forall|k: int| 0 <= k < p.len() implies '\0' <= #[trigger] p[k] <= '\u{7f}' by {
                assert(printable(p[k]));
            }
        }
        if vstd::utf8::is_ascii_chars(p) {
            vstd::utf8::is_ascii_chars_encode_utf8(p);
        }
    }
}

/// Every character of a canonical path is a slash or within a segment.
proof fn lemma_char_in_segment(p: Path, k: int)
    requires
        canonical(p),
        0 <= k < p.len(),
    ensures
        printable(p[k]),
{
    if p[k] != '/' {
        let i = lemma_segment_start(p, k);
        let j = lemma_segment_end(p, k);
        assert(is_segment(p, i, j));
        assert(p.subrange(i, j)[k - i] == p[k]);
    }
}

/// Where the segment around a character starts.
proof fn lemma_segment_start(p: Path, k: int) -> (i: int)
    requires
        0 <= k < p.len(),
        p[k] != '/',
    ensures
        0 <= i <= k,
        i == 0 || p[i - 1] == '/',
        forall|x: int| i <= x <= k ==> p[x] != '/',
    decreases k,
{
    if k == 0 || p[k - 1] == '/' {
        k
    } else {
        let i = lemma_segment_start(p, k - 1);
        i
    }
}

/// Where the segment around a character ends.
proof fn lemma_segment_end(p: Path, k: int) -> (j: int)
    requires
        0 <= k < p.len(),
        p[k] != '/',
    ensures
        k < j <= p.len(),
        j == p.len() || p[j] == '/',
        forall|x: int| k <= x < j ==> p[x] != '/',
    decreases p.len() - k,
{
    if k + 1 == p.len() || p[k + 1] == '/' {
        k + 1
    } else {
        let j = lemma_segment_end(p, k + 1);
        j
    }
}

/// The accepted paths, character by character: 1 to 512 of them, each with a code
/// from 0x20 to 0x7e, no slash at either end, no two slashes in a row, and no dot or pair of
/// dots that is alone between slashes or ends.
pub proof fn law_accepted_paths(p: Path)
    ensures
        path_fault(p) is None <==> {
            &&& 1 <= p.len() <= 512
            &&& forall|i: int| 0 <= i < p.len() ==> 0x20 <= (#[trigger] p[i]) as int <= 0x7e
            &&& p[0] != '/'
            &&& p[p.len() - 1] != '/'
            &&& forall|i: int| 0 < i < p.len() && #[trigger] p[i] == '/' ==> p[i - 1] != '/'
            &&& forall|i: int|
                0 <= i < p.len() && #[trigger] p[i] == '.' && (i == 0 || p[i - 1] == '/') ==> i + 1
                    < p.len() && p[i + 1] != '/'
            &&& forall|i: int|
                0 < i < p.len() && #[trigger] p[i] == '.' && p[i - 1] == '.' && (i == 1 || p[i - 2]
                    == '/') ==> i + 1 < p.len() && p[i + 1] != '/'
        },
{
    law_canonical(p);
    reveal_strlit(".");
    reveal_strlit("..");
    if canonical(p) {
        assert forall|i: int| 0 <= i < p.len() implies 0x20 <= (#[trigger] p[i]) as int
            <= 0x7e by {
            assert(printable(p[i]));
        }
        assert forall|i: int| 0 < i < p.len() && #[trigger] p[i] == '/' implies p[i - 1]
            != '/' by {
            if p[i - 1] == '/' {
                assert(is_segment(p, i, i));
            }
        }
        assert forall|i: int|
            0 <= i < p.len() && #[trigger] p[i] == '.' && (i == 0 || p[i - 1] == '/') implies i + 1
            < p.len() && p[i + 1] != '/' by {
            if i + 1 == p.len() || p[i + 1] == '/' {
                assert(is_segment(p, i, i + 1));
                assert(p.subrange(i, i + 1) =~= "."@);
            }
        }
        assert forall|i: int|
            0 < i < p.len() && #[trigger] p[i] == '.' && p[i - 1] == '.' && (i == 1 || p[i - 2]
                == '/') implies i + 1 < p.len() && p[i + 1] != '/' by {
            if i + 1 == p.len() || p[i + 1] == '/' {
                assert(is_segment(p, i - 1, i + 1));
                assert(p.subrange(i - 1, i + 1) =~= ".."@);
            }
        }
    }
    if {
        &&& 1 <= p.len() <= 512
        &&& forall|i: int| 0 <= i < p.len() ==> 0x20 <= (#[trigger] p[i]) as int <= 0x7e
        &&& p[0] != '/'
        &&& p[p.len() - 1] != '/'
        &&& forall|i: int| 0 < i < p.len() && #[trigger] p[i] == '/' ==> p[i - 1] != '/'
        &&& forall|i: int|
            0 <= i < p.len() && #[trigger] p[i] == '.' && (i == 0 || p[i - 1] == '/') ==> i + 1
                < p.len() && p[i + 1] != '/'
        &&& forall|i: int|
            0 < i < p.len() && #[trigger] p[i] == '.' && p[i - 1] == '.' && (i == 1 || p[i - 2]
                == '/') ==> i + 1 < p.len() && p[i + 1] != '/'
    } {
        assert forall|i: int, j: int| #[trigger] is_segment(p, i, j) implies proper_segment(
            p.subrange(i, j),
        ) by {
            let seg = p.subrange(i, j);
            if i == j {
                if j < p.len() {
                    assert(p[j] == '/');
                } else {
                    assert(p[p.len() - 1] == p[i - 1]);
                }
            }
            assert forall|k: int| 0 <= k < seg.len() implies printable(#[trigger] seg[k]) by {
                assert(seg[k] == p[i + k]);
            }
            if seg == "."@ {
                assert(seg[0] == p[i]);
            }
            if seg == ".."@ {
                assert(seg[0] == p[i]);
                assert(seg[1] == p[i + 1]);
            }
        }
    }
}

/// The fault of the first faulty segment from position `s` on.
proof fn lemma_first_fault(p: Path, s: int, i: int, j: int)
    requires
        0 <= s <= i,
        s == 0 || p[s - 1] == '/',
        is_segment(p, i, j),
        !proper_segment(p.subrange(i, j)),
        forall|a: int, b: int| #[trigger]
            is_segment(p, a, b) && s <= a < i ==> proper_segment(p.subrange(a, b)),
    ensures
        segments_fault(p.skip(s)) == segment_fault(p.subrange(i, j)),
        segment_fault(p.subrange(i, j)) is Some,
    decreases p.len() - s,
{
    let rest = p.skip(s);
    let n = head_len(rest) as int;
    lemma_head(rest);
    lemma_proper(rest.take(n));
    lemma_proper(p.subrange(i, j));
    assert(p.subrange(s, s + n) =~= rest.take(n));
    assert(is_segment(p, s, s + n)) by {
        assert forall|k: int| s <= k < s + n implies p[k] != '/' by {
            assert(rest[k - s] == p[k]);
        }
    }
    if i == s {
        if j < s + n {
            assert(p[j] == rest[j - s]);
        }
        if j > s + n {
            assert(p[s + n] == rest[n]);
        }
        assert(j == s + n);
    } else {
        if i <= s + n {
            assert(rest[i - 1 - s] == p[i - 1]);
        }
        assert(n < rest.len());
        assert(rest.skip(n + 1) =~= p.skip(s + n + 1));
        assert(p[s + n] == rest[n]);
        lemma_first_fault(p, s + n + 1, i, j);
    }
}

/// The message for a path that is not accepted: length before characters before
/// the leading slash, and then the first segment that is empty, dots, or not printable.
pub proof fn law_path_messages(p: Path)
    ensures
        ({
            let size = vstd::utf8::encode_utf8(p).len();
            let ascii = forall|i: int| 0 <= i < p.len() ==> 0 <= (#[trigger] p[i]) as int <= 0x7f;
            &&& p.len() == 0 ==> path_fault(p) == Some("path is empty"@)
            &&& p.len() > 0 && size > 512 ==> path_fault(p) == Some("path exceeds 512 bytes"@)
            &&& p.len() > 0 && size <= 512 && !ascii ==> path_fault(p) == Some(
                "path must be ASCII"@,
            )
            &&& p.len() > 0 && size <= 512 && ascii && p[0] == '/' ==> path_fault(p) == Some(
                "path must be relative, not absolute"@,
            )
        }),
{
    reveal_strlit("path exceeds 512 bytes");
    reveal_strlit("path exceeds ");
    reveal_strlit(" bytes");
    assert(decimal(512) =~= seq!['5', '1', '2']) by {
        reveal_with_fuel(decimal, 3);
    }
    assert("path exceeds "@ + decimal(512) + " bytes"@ =~= "path exceeds 512 bytes"@);
    if vstd::utf8::is_ascii_chars(p) {
        assert forall|i: int| 0 <= i < p.len() implies 0 <= (#[trigger] p[i]) as int <= 0x7f by {}
    }
}

/// The message for the first faulty segment of a path that is in order otherwise.
pub proof fn law_segment_messages(p: Path, i: int, j: int)
    requires
        0 < p.len(),
        vstd::utf8::encode_utf8(p).len() <= 512,
        vstd::utf8::is_ascii_chars(p),
        p[0] != '/',
        0 <= i <= j <= p.len(),
        i == 0 || p[i - 1] == '/',
        j == p.len() || p[j] == '/',
        forall|k: int| i <= k < j ==> p[k] != '/',
        // Every segment before this one is fine.
        forall|a: int, b: int|
            0 <= a < b < i && (a == 0 || p[a - 1] == '/') && #[trigger] p[b] == '/' && (forall|
                k: int,
            |
                a <= k < b ==> #[trigger] p[k] != '/') ==> #[trigger] p.subrange(a, b) != "."@
                && p.subrange(a, b) != ".."@ && forall|k: int|
                a <= k < b ==> 0x20 <= (#[trigger] p[k]) as int <= 0x7e,
        forall|b: int| 0 < b < i && #[trigger] p[b] == '/' ==> p[b - 1] != '/',
    ensures
        i == j ==> path_fault(p) == Some(
            "path contains an empty segment (leading/trailing/double slash)"@,
        ),
        p.subrange(i, j) == "."@ || p.subrange(i, j) == ".."@ ==> path_fault(p) == Some(
            "path contains a '.' or '..' segment"@,
        ),
        i < j && p.subrange(i, j) != "."@ && p.subrange(i, j) != ".."@ && (exists|k: int|
            i <= k < j && !(0x20 <= (#[trigger] p[k]) as int <= 0x7e)) ==> path_fault(p) == Some(
            "path contains non-printable characters"@,
        ),
{
    let seg = p.subrange(i, j);
    reveal_strlit(".");
    reveal_strlit("..");
    assert("."@.len() == 1);
    assert(".."@.len() == 2);
    assert(is_segment(p, i, j));
    assert(p.skip(0) =~= p);
    assert forall|a: int, b: int| #[trigger]
        is_segment(p, a, b) && 0 <= a < i implies proper_segment(p.subrange(a, b)) by {
        if b >= i {
            if i > 0 {
                assert(p[i - 1] == '/');
                assert(a <= i - 1 < b);
            }
        }
        let s = p.subrange(a, b);
        assert(p[b] == '/');
        if a == b {
            if b > 0 {
                assert(p[b - 1] == '/');
            }
        }
        assert forall|k: int| 0 <= k < s.len() implies printable(#[trigger] s[k]) by {
            assert(s[k] == p[a + k]);
        }
    }
    lemma_proper(seg);
    if !proper_segment(seg) {
        lemma_first_fault(p, 0, i, j);
    }
    if exists|k: int| i <= k < j && !(0x20 <= (#[trigger] p[k]) as int <= 0x7e) {
        let k = choose|k: int| i <= k < j && !(0x20 <= (#[trigger] p[k]) as int <= 0x7e);
        assert(seg[k - i] == p[k]);
        assert(!printable(seg[k - i]));
    }
}

/// The error for a path holds the message and names no place.
pub proof fn law_path_error(message: Seq<char>)
    ensures
        path_error(message).code == ErrorCode::InvalidPath,
        path_error(message).message == message,
        path_error(message).layer is None,
        path_error(message).path is None,
{
}

} // verus!
