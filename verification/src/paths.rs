//! Splitting a relative path into folder, stem and extension.
//!
//! A relative path is a forward-slash separated, non-empty string. The file
//! part is everything after the last slash; the extension is everything after
//! the last dot of the file part. A path only has a well-defined name under
//! the naming rule when that dot exists and is not the first character of the
//! file part (`valid_path`).

use vstd::prelude::*;
use vstd::string::StrSliceExecFns;

verus! {

/// Index of the last occurrence of `c` in `s`, or `-1` if `c` does not occur.
pub open spec fn last_index(s: Seq<char>, c: char) -> int
    decreases s.len(),
{
    if s.len() == 0 {
        -1
    } else if s[s.len() - 1] == c {
        s.len() - 1
    } else {
        last_index(s.drop_last(), c)
    }
}

pub proof fn lemma_last_index(s: Seq<char>, c: char)
    ensures
        -1 <= last_index(s, c) < s.len(),
        last_index(s, c) >= 0 ==> s[last_index(s, c)] == c,
        forall|j: int| last_index(s, c) < j < s.len() ==> s[j] != c,
    decreases s.len(),
{
    if s.len() > 0 && s[s.len() - 1] != c {
        lemma_last_index(s.drop_last(), c);
        assert(forall|j: int| 0 <= j < s.len() - 1 ==> s.drop_last()[j] == s[j]);
    }
}

/// If `k` holds `c` and nothing after `k` does, then `k` is the last occurrence.
pub proof fn lemma_last_index_is(s: Seq<char>, c: char, k: int)
    requires
        0 <= k < s.len(),
        s[k] == c,
        forall|j: int| k < j < s.len() ==> s[j] != c,
    ensures
        last_index(s, c) == k,
    decreases s.len(),
{
    if k < s.len() - 1 {
        lemma_last_index_is(s.drop_last(), c, k);
    }
}

/// If `c` occurs nowhere in `s`, the last occurrence is `-1`.
pub proof fn lemma_last_index_none(s: Seq<char>, c: char)
    requires
        forall|j: int| 0 <= j < s.len() ==> s[j] != c,
    ensures
        last_index(s, c) == -1,
{
    lemma_last_index(s, c);
    if last_index(s, c) >= 0 {
        assert(s[last_index(s, c)] == c);
    }
}

/// Index at which the file part (after the last slash) begins.
pub open spec fn file_start(p: Seq<char>) -> int {
    last_index(p, '/') + 1
}

/// The folder part: everything before the last slash, empty when there is none.
pub open spec fn folder_of(p: Seq<char>) -> Seq<char> {
    if last_index(p, '/') >= 0 {
        p.subrange(0, last_index(p, '/'))
    } else {
        Seq::empty()
    }
}

/// The file part: everything after the last slash.
pub open spec fn file_of(p: Seq<char>) -> Seq<char> {
    p.subrange(file_start(p), p.len() as int)
}

/// Position of the last dot within the file part, or `-1`.
pub open spec fn dot_pos(p: Seq<char>) -> int {
    last_index(file_of(p), '.')
}

/// A path has a well-defined stem and extension when the file part has a dot
/// that is not its first character.
pub open spec fn valid_path(p: Seq<char>) -> bool {
    dot_pos(p) >= 1
}

/// The stem: the file part up to (excluding) its last dot.
pub open spec fn stem_of(p: Seq<char>) -> Seq<char> {
    file_of(p).subrange(0, dot_pos(p))
}

/// The extension: the file part after its last dot.
pub open spec fn ext_of(p: Seq<char>) -> Seq<char> {
    file_of(p).subrange(dot_pos(p) + 1, file_of(p).len() as int)
}

/// Whether the path has a well-defined stem and extension: its file part
/// holds a dot that is not the first character.
pub fn has_valid_name(s: &str) -> (r: bool)
    ensures
        r == valid_path(s@),
{
    let n = s.unicode_len();
    proof {
        lemma_last_index(s@, '/');
    }
    let fs = rfind_char(s, '/');
    let file = s.substring_char(fs, n);
    proof {
        assert(file@ =~= file_of(s@));
        lemma_last_index(file@, '.');
    }
    let d = rfind_char(file, '.');
    d >= 2
}

/// Index one past the last occurrence of `c` in `s`, or `0` if `c` is absent.
pub fn rfind_char(s: &str, c: char) -> (r: usize)
    ensures
        r == last_index(s@, c) + 1,
{
    let n = s.unicode_len();
    let mut i = n;
    while i > 0
        invariant
            i <= n,
            n == s@.len(),
            forall|j: int| i <= j < n ==> s@[j] != c,
        decreases i,
    {
        if s.get_char(i - 1) == c {
            proof {
                lemma_last_index_is(s@, c, i - 1);
            }
            return i;
        }
        i = i - 1;
    }
    proof {
        lemma_last_index_none(s@, c);
    }
    0
}

} // verus!
