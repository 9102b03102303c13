//! A tree root that is either a plain local path or a `remote:path` pair
//! addressed through a remote-copy tool. The reconciliation logic treats both
//! uniformly; only the outer I/O layer branches on the variant.

use vstd::prelude::*;
use vstd::string::{StrSliceExecFns, StringExecFns};

verus! {

/// A local directory, or a named remote with a directory on it.
#[derive(Clone)]
pub enum RclonePath {
    Local(String),
    Remote(String, String),
}

impl RclonePath {
    /// The full form: the bare path for a local root, `remote:path` for a
    /// remote one.
    pub open spec fn full_view(self) -> Seq<char> {
        match self {
            RclonePath::Local(path) => path@,
            RclonePath::Remote(remote, path) => remote@ + seq![':'] + path@,
        }
    }

    /// The path part alone, without the remote name.
    pub open spec fn path_view(self) -> Seq<char> {
        match self {
            RclonePath::Local(path) => path@,
            RclonePath::Remote(_, path) => path@,
        }
    }

    /// Renders the root for the remote-copy tool: `path`, or `remote:path`.
    pub fn to_string(self) -> (r: String)
        ensures
            r@ == self.full_view(),
    {
        match self {
            RclonePath::Local(path) => path,
            RclonePath::Remote(remote, path) => {
                proof {
                    reveal_strlit(":");
                    assert(":"@ =~= seq![':']);
                }
                remote.concat(":").concat(path.as_str())
            },
        }
    }

    /// The directory part, dropping the remote name if there is one.
    pub fn path_string(self) -> (r: String)
        ensures
            r@ == self.path_view(),
    {
        match self {
            RclonePath::Local(path) => path,
            RclonePath::Remote(_, path) => path,
        }
    }

    /// Whether this root lives behind the remote-copy tool.
    pub fn is_remote(&self) -> (r: bool)
        ensures
            r == (self is Remote),
    {
        match self {
            RclonePath::Local(_) => false,
            RclonePath::Remote(_, _) => true,
        }
    }

    /// The same root with its directory part replaced.
    pub fn with_path(&self, path: String) -> (r: Self)
        ensures
            r.path_view() == path@,
            r is Remote <==> self is Remote,
            r is Remote ==> r->Remote_0@ == self->Remote_0@,
    {
        match self {
            RclonePath::Local(_) => RclonePath::Local(path),
            RclonePath::Remote(remote, _) => RclonePath::Remote(remote.clone(), path),
        }
    }

    /// Parses `remote:path` into a remote root and anything else into a local
    /// one. The remote name is the text before the first colon; the path is
    /// the text between the first colon and the next one, or the end.
    pub fn from_str(s: &str) -> (r: Self)
        ensures
            first_index(s@, ':') < 0 ==> r is Local && r->Local_0@ == s@,
            first_index(s@, ':') >= 0 ==> {
                let i = first_index(s@, ':');
                let end = first_index_from(s@, i + 1, ':');
                &&& r is Remote
                &&& r->Remote_0@ == s@.subrange(0, i)
                &&& r->Remote_1@ == s@.subrange(i + 1, end)
            },
    {
        let n = s.unicode_len();
        let i = find_char(s, 0, ':');
        if i == n {
            RclonePath::Local(s.to_owned())
        } else {
            proof {
                lemma_first_index_from(s@, 0, ':');
                lemma_first_index_from(s@, i + 1, ':');
            }
            let j = find_char(s, i + 1, ':');
            let remote = s.substring_char(0, i).to_owned();
            let path = s.substring_char(i + 1, j).to_owned();
            RclonePath::Remote(remote, path)
        }
    }
}

/// Index of the first occurrence of `c` at or after `j`, or `s.len()` if
/// there is none.
pub open spec fn first_index_from(s: Seq<char>, j: int, c: char) -> int
    decreases s.len() - j,
{
    if j < 0 || j >= s.len() {
        s.len() as int
    } else if s[j] == c {
        j
    } else {
        first_index_from(s, j + 1, c)
    }
}

/// Index of the first occurrence of `c` in `s`, or `-1` if there is none.
pub open spec fn first_index(s: Seq<char>, c: char) -> int {
    if first_index_from(s, 0, c) == s.len() {
        -1
    } else {
        first_index_from(s, 0, c)
    }
}

pub proof fn lemma_first_index_from(s: Seq<char>, j: int, c: char)
    requires
        0 <= j <= s.len(),
    ensures
        j <= first_index_from(s, j, c) <= s.len(),
        first_index_from(s, j, c) < s.len() ==> s[first_index_from(s, j, c)] == c,
        forall|k: int| j <= k < first_index_from(s, j, c) ==> s[k] != c,
    decreases s.len() - j,
{
    if j < s.len() && s[j] != c {
        lemma_first_index_from(s, j + 1, c);
    }
}

/// Index of the first occurrence of `c` at or after `j`, or the length of
/// `s` if there is none.
pub fn find_char(s: &str, j: usize, c: char) -> (r: usize)
    requires
        j <= s@.len(),
    ensures
        r == first_index_from(s@, j as int, c),
    decreases s@.len() - j,
{
    let n = s.unicode_len();
    if j >= n {
        n
    } else if s.get_char(j) == c {
        j
    } else {
        find_char(s, j + 1, c)
    }
}

} // verus!
