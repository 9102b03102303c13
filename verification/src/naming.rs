//! The naming rule: the destination name a source file should produce.
//!
//! The stem keeps its name, the extension is replaced when the file is to be
//! transcoded, and each enabled bracket kind is stripped from the resulting
//! file name in three passes: first `" (content)"` groups with their leading
//! space, then `"(content) "` groups with their trailing space, then bare
//! `"(content)"` groups. A pass removes non-overlapping matches from left to
//! right; the content of a group ends at the first closing delimiter.

use vstd::prelude::*;
use vstd::string::{StrSliceExecFns, StringExecFns};
use crate::config::Config;
use crate::paths::{
    ext_of, file_of, folder_of, lemma_last_index, rfind_char, stem_of, valid_path,
};

verus! {

/// `k` is a position where a group being matched may close: it holds the
/// closing delimiter, followed by a space when the pass demands one.
pub open spec fn close_matches(s: Seq<char>, k: int, close: char, trail: bool) -> bool {
    &&& 0 <= k < s.len()
    &&& s[k] == close
    &&& (trail ==> k + 1 < s.len() && s[k + 1] == ' ')
}

/// The first position at or after `j` where the group may close, or the
/// length of `s` when there is none.
pub open spec fn first_close_from(s: Seq<char>, j: int, close: char, trail: bool) -> int
    decreases s.len() - j,
{
    if j < 0 || j >= s.len() {
        s.len() as int
    } else if close_matches(s, j, close, trail) {
        j
    } else {
        first_close_from(s, j + 1, close, trail)
    }
}

pub proof fn lemma_first_close(s: Seq<char>, j: int, close: char, trail: bool)
    requires
        0 <= j <= s.len(),
    ensures
        j <= first_close_from(s, j, close, trail) <= s.len(),
        first_close_from(s, j, close, trail) < s.len() ==> close_matches(
            s,
            first_close_from(s, j, close, trail),
            close,
            trail,
        ),
        forall|k: int|
            j <= k < first_close_from(s, j, close, trail) ==> !close_matches(s, k, close, trail),
        (exists|k: int| j <= k && close_matches(s, k, close, trail)) ==> first_close_from(
            s,
            j,
            close,
            trail,
        ) < s.len(),
    decreases s.len() - j,
{
    if j < s.len() && !close_matches(s, j, close, trail) {
        lemma_first_close(s, j + 1, close, trail);
    }
}

/// A match of the pass begins at the start of `s`: the opening delimiter (and
/// the leading space when the pass demands one) stands there, and the group
/// closes somewhere after it.
pub open spec fn match_at_start(
    s: Seq<char>,
    open: char,
    close: char,
    lead: bool,
    trail: bool,
) -> bool {
    let p: int = if lead {
        1
    } else {
        0
    };
    &&& p < s.len()
    &&& (lead ==> s[0] == ' ')
    &&& s[p] == open
    &&& exists|k: int| p < k && close_matches(s, k, close, trail)
}

/// One past the last character of the match that begins at the start of `s`.
pub open spec fn match_end(s: Seq<char>, open: char, close: char, lead: bool, trail: bool) -> int {
    let p: int = if lead {
        1
    } else {
        0
    };
    let extra: int = if trail {
        1
    } else {
        0
    };
    first_close_from(s, p + 1, close, trail) + 1 + extra
}

pub proof fn lemma_match_end(s: Seq<char>, open: char, close: char, lead: bool, trail: bool)
    requires
        match_at_start(s, open, close, lead, trail),
    ensures
        2 <= match_end(s, open, close, lead, trail) <= s.len(),
{
    let p: int = if lead {
        1
    } else {
        0
    };
    lemma_first_close(s, p + 1, close, trail);
    let k = choose|k: int| p < k && close_matches(s, k, close, trail);
    assert(k >= p + 1);
}

/// One pass of the bracket-stripping rule: scan from the left, drop each
/// match, and keep every character that no match covers.
pub open spec fn strip_pass(
    s: Seq<char>,
    open: char,
    close: char,
    lead: bool,
    trail: bool,
) -> Seq<char>
    decreases s.len(),
    via strip_pass_dec
{
    if s.len() == 0 {
        s
    } else if match_at_start(s, open, close, lead, trail) {
        strip_pass(s.skip(match_end(s, open, close, lead, trail)), open, close, lead, trail)
    } else {
        seq![s[0]] + strip_pass(s.skip(1), open, close, lead, trail)
    }
}

#[via_fn]
proof fn strip_pass_dec(s: Seq<char>, open: char, close: char, lead: bool, trail: bool) {
    if s.len() != 0 && match_at_start(s, open, close, lead, trail) {
        lemma_match_end(s, open, close, lead, trail);
    }
}

/// The three passes for one delimiter pair, in the order that avoids leaving
/// stray separator spaces: leading-space groups, then trailing-space groups,
/// then bare groups.
pub open spec fn strip_bracket(s: Seq<char>, open: char, close: char) -> Seq<char> {
    strip_pass(
        strip_pass(strip_pass(s, open, close, true, false), open, close, false, true),
        open,
        close,
        false,
        false,
    )
}

/// The first position at or after `j` where the group may close, or the
/// length of `s` when there is none.
fn find_close(s: &str, j: usize, close: char, trail: bool) -> (r: usize)
    requires
        j <= s@.len(),
    ensures
        r == first_close_from(s@, j as int, close, trail),
    decreases s@.len() - j,
{
    let n = s.unicode_len();
    if j >= n {
        n
    } else if s.get_char(j) == close && (!trail || (j + 1 < n && s.get_char(j + 1) == ' ')) {
        j
    } else {
        find_close(s, j + 1, close, trail)
    }
}

/// One pass of the bracket-stripping rule over a file name.
fn strip_pass_exec(s: &str, open: char, close: char, lead: bool, trail: bool) -> (r: String)
    ensures
        r@ == strip_pass(s@, open, close, lead, trail),
    decreases s@.len(),
{
    let n = s.unicode_len();
    if n == 0 {
        return String::new();
    }
    let p: usize = if lead {
        1
    } else {
        0
    };
    let head_ok = p < n && (!lead || s.get_char(0) == ' ') && s.get_char(p) == open;
    if head_ok {
        let k = find_close(s, p + 1, close, trail);
        proof {
            lemma_first_close(s@, p + 1, close, trail);
        }
        if k < n {
            proof {
                assert(match_at_start(s@, open, close, lead, trail));
                lemma_match_end(s@, open, close, lead, trail);
            }
            let e = k + 1 + (if trail {
                1
            } else {
                0
            });
            let rest = s.substring_char(e, n);
            proof {
                assert(rest@ =~= s@.skip(match_end(s@, open, close, lead, trail)));
            }
            return strip_pass_exec(rest, open, close, lead, trail);
        }
        proof {
            assert forall|c: int| p < c implies !close_matches(s@, c, close, trail) by {
                if c < s@.len() {
                    assert(!close_matches(s@, c, close, trail));
                }
            }
            assert(!match_at_start(s@, open, close, lead, trail));
        }
    }
    let rest = s.substring_char(1, n);
    let tail = strip_pass_exec(rest, open, close, lead, trail);
    let head = s.substring_char(0, 1);
    let r = head.to_owned().concat(tail.as_str());
    proof {
        assert(rest@ =~= s@.skip(1));
        assert(r@ =~= seq![s@[0]] + strip_pass(s@.skip(1), open, close, lead, trail));
    }
    r
}

/// The three passes for one delimiter pair, in order.
fn strip_bracket_exec(s: String, open: char, close: char) -> (r: String)
    ensures
        r@ == strip_bracket(s@, open, close),
{
    let s1 = strip_pass_exec(s.as_str(), open, close, true, false);
    let s2 = strip_pass_exec(s1.as_str(), open, close, false, true);
    strip_pass_exec(s2.as_str(), open, close, false, false)
}

/// Whether a source path's extension is among those to transcode.
pub open spec fn encodable(p: Seq<char>, cfg: Config) -> bool {
    cfg.exts().contains(ext_of(p))
}

/// The extension the destination file receives.
pub open spec fn target_ext(p: Seq<char>, cfg: Config) -> Seq<char> {
    if encodable(p, cfg) {
        cfg.enc()
    } else {
        ext_of(p)
    }
}

/// Whether an optional toggle is switched on.
pub open spec fn flag_on(f: Option<bool>) -> bool {
    f == Some(true)
}

/// All enabled bracket kinds stripped from a file name, in fixed order:
/// round, square, curly, angle.
pub open spec fn strip_enabled(s: Seq<char>, cfg: Config) -> Seq<char> {
    let s1 = if flag_on(cfg.remove_round_brackets) {
        strip_bracket(s, '(', ')')
    } else {
        s
    };
    let s2 = if flag_on(cfg.remove_square_brackets) {
        strip_bracket(s1, '[', ']')
    } else {
        s1
    };
    let s3 = if flag_on(cfg.remove_curly_brackets) {
        strip_bracket(s2, '{', '}')
    } else {
        s2
    };
    if flag_on(cfg.remove_angle_brackets) {
        strip_bracket(s3, '<', '>')
    } else {
        s3
    }
}

/// The destination name for a source path: stem and target extension, the
/// enabled bracket kinds stripped, the folder put back in front.
pub open spec fn name_spec(p: Seq<char>, cfg: Config) -> Seq<char> {
    let base = stem_of(p) + seq!['.'] + target_ext(p, cfg);
    let stripped = strip_enabled(base, cfg);
    if folder_of(p).len() > 0 {
        folder_of(p) + seq!['/'] + stripped
    } else {
        stripped
    }
}

/// Whether `x` occurs in `v`.
pub fn contains_string(v: &Vec<String>, x: &String) -> (r: bool)
    ensures
        r == v.deep_view().contains(x@),
{
    let mut i: usize = 0;
    while i < v.len()
        invariant
            i <= v.len(),
            forall|j: int| 0 <= j < i ==> v.deep_view()[j] != x@,
        decreases v.len() - i,
    {
        if v[i] == *x {
            proof {
                assert(v.deep_view()[i as int] == x@);
            }
            return true;
        }
        i = i + 1;
    }
    false
}

/// Whether an optional toggle is switched on.
fn flag_on_exec(f: &Option<bool>) -> (r: bool)
    ensures
        r == flag_on(*f),
{
    match f {
        Some(b) => *b,
        None => false,
    }
}

/// The extension of a path: the file part after its last dot, or the whole
/// file part when it has no dot.
pub fn extension_of(s: &str) -> (r: String)
    ensures
        r@ == ext_of(s@),
{
    let n = s.unicode_len();
    proof {
        lemma_last_index(s@, '/');
    }
    let fs = rfind_char(s, '/');
    let file = s.substring_char(fs, n);
    proof {
        assert(file@ =~= file_of(s@));
        lemma_last_index(file@, '.');
    }
    let d = rfind_char(file, '.');
    let ext = file.substring_char(d, n - fs);
    proof {
        assert(ext@ =~= ext_of(s@));
    }
    ext.to_owned()
}

/// Whether a path's extension is among those to transcode.
pub fn is_encodable(p: &String, config: &Config) -> (r: bool)
    ensures
        r == encodable(p@, *config),
{
    let e = extension_of(p.as_str());
    contains_string(&config.extensions_to_encode, &e)
}

/// The destination name for a source path under the given configuration.
///
/// The path must have a well-defined extension (`valid_path`); a source tree
/// holding a file without one is rejected before the naming rule runs.
pub fn create_output_file_name(input_file_name: String, config: &Config) -> (r: String)
    requires
        valid_path(input_file_name@),
    ensures
        r@ == name_spec(input_file_name@, *config),
{
    let s = input_file_name.as_str();
    let n = s.unicode_len();
    proof {
        lemma_last_index(s@, '/');
    }
    let fs = rfind_char(s, '/');
    let file = s.substring_char(fs, n);
    proof {
        assert(file@ =~= file_of(s@));
        lemma_last_index(file@, '.');
    }
    let fl = n - fs;
    let d = rfind_char(file, '.');
    let stem = file.substring_char(0, d - 1);
    let ext = file.substring_char(d, fl);
    proof {
        assert(stem@ =~= stem_of(s@));
        assert(ext@ =~= ext_of(s@));
    }
    let ext_string = ext.to_owned();
    let enc = contains_string(&config.extensions_to_encode, &ext_string);
    let base = if enc {
        stem.to_owned().concat(".").concat(config.encoded_extension.as_str())
    } else {
        stem.to_owned().concat(".").concat(ext)
    };
    proof {
        reveal_strlit(".");
        assert("."@ =~= seq!['.']);
        assert(base@ =~= stem_of(s@) + seq!['.'] + target_ext(s@, *config));
    }
    let mut name = base;
    if flag_on_exec(&config.remove_round_brackets) {
        name = strip_bracket_exec(name, '(', ')');
    }
    if flag_on_exec(&config.remove_square_brackets) {
        name = strip_bracket_exec(name, '[', ']');
    }
    if flag_on_exec(&config.remove_curly_brackets) {
        name = strip_bracket_exec(name, '{', '}');
    }
    if flag_on_exec(&config.remove_angle_brackets) {
        name = strip_bracket_exec(name, '<', '>');
    }
    if fs > 1 {
        let folder = s.substring_char(0, fs - 1);
        proof {
            assert(folder@ =~= folder_of(s@));
            reveal_strlit("/");
            assert("/"@ =~= seq!['/']);
        }
        let r = folder.to_owned().concat("/").concat(name.as_str());
        proof {
            assert(r@ =~= name_spec(s@, *config));
        }
        r
    } else {
        proof {
            assert(folder_of(s@).len() == 0);
        }
        name
    }
}

} // verus!
