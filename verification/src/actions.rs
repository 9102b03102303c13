//! Turning a plan into an ordered list of actions.
//!
//! Within one run all deletes must happen before all renames, and all
//! renames before any encode or copy: a rename may take a name just freed by
//! a delete, and an encode may take a name just freed by a rename. The list
//! built here carries that ordering in its contract, so the layer that
//! performs the I/O only has to walk it front to back.

use vstd::prelude::*;
use vstd::string::{StrSliceExecFns, StringExecFns};
use crate::config::Config;
use crate::naming::{create_output_file_name, encodable, is_encodable, name_spec};
use crate::path_set::{lemma_take_contains_step, PathSet};
use crate::paths::{folder_of, lemma_last_index, rfind_char, valid_path};
use crate::reconcile::Plan;

verus! {

/// One step of the executor, on paths relative to the two tree roots.
pub enum Action {
    /// Remove this destination file.
    Delete(String),
    /// Rename the first destination file to the second name.
    Rename(String, String),
    /// Byte-copy this source file to this destination name.
    Copy(String, String),
    /// Transcode this source file into this destination name.
    Encode(String, String),
}

/// The phase an action belongs to; phases run in ascending order.
pub open spec fn phase(a: Action) -> int {
    match a {
        Action::Delete(_) => 0,
        Action::Rename(_, _) => 1,
        Action::Copy(_, _) => 2,
        Action::Encode(_, _) => 2,
    }
}

/// Lays the plan out as one list: every delete, then every rename, then an
/// encode or copy for each source that needs one, with its destination name
/// under the current rule.
pub fn build_action_list(plan: &Plan, config: &Config) -> (acts: Vec<Action>)
    requires
        plan.to_delete.wf(),
        plan.to_rename.wf(),
        plan.to_encode_or_copy.wf(),
        forall|p: Seq<char>| plan.to_encode_or_copy@.contains(p) ==> valid_path(p),
    ensures
        forall|i: int, j: int| 0 <= i < j < acts@.len() ==> phase(acts@[i]) <= phase(acts@[j]),
        forall|i: int|
            0 <= i < acts@.len() ==> (#[trigger] acts@[i] is Delete ==> plan.to_delete@.contains(
                acts@[i]->Delete_0@,
            )),
        forall|d: Seq<char>|
            plan.to_delete@.contains(d) ==> exists|i: int|
                0 <= i < acts@.len() && #[trigger] acts@[i] is Delete && acts@[i]->Delete_0@ == d,
        forall|i: int|
            0 <= i < acts@.len() ==> (#[trigger] acts@[i] is Rename ==> plan.to_rename@.dom()
                .contains(acts@[i]->Rename_0@) && plan.to_rename@[acts@[i]->Rename_0@]
                == acts@[i]->Rename_1@),
        forall|d: Seq<char>|
            plan.to_rename@.dom().contains(d) ==> exists|i: int|
                0 <= i < acts@.len() && #[trigger] acts@[i] is Rename && acts@[i]->Rename_0@ == d,
        forall|i: int|
            0 <= i < acts@.len() ==> (#[trigger] acts@[i] is Copy ==> plan.to_encode_or_copy@
                .contains(acts@[i]->Copy_0@) && !encodable(acts@[i]->Copy_0@, *config)
                && acts@[i]->Copy_1@ == name_spec(acts@[i]->Copy_0@, *config)),
        forall|i: int|
            0 <= i < acts@.len() ==> (#[trigger] acts@[i] is Encode ==> plan.to_encode_or_copy@
                .contains(acts@[i]->Encode_0@) && encodable(acts@[i]->Encode_0@, *config)
                && acts@[i]->Encode_1@ == name_spec(acts@[i]->Encode_0@, *config)),
        forall|s: Seq<char>|
            plan.to_encode_or_copy@.contains(s) ==> exists|i: int|
                0 <= i < acts@.len() && ((#[trigger] acts@[i] is Encode && acts@[i]->Encode_0@
                    == s) || (acts@[i] is Copy && acts@[i]->Copy_0@ == s)),
{
    let mut acts: Vec<Action> = Vec::new();
    let nd = plan.to_delete.len();
    let mut i: usize = 0;
    while i < nd
        invariant
            plan.to_delete.wf(),
            nd == plan.to_delete.seq().len(),
            i <= nd,
            acts@.len() == i,
            forall|t: int| 0 <= t < i ==> #[trigger] acts@[t] is Delete,
            forall|t: int|
                0 <= t < i ==> acts@[t]->Delete_0@ == plan.to_delete.seq()[t],
        decreases nd - i,
    {
        acts.push(Action::Delete(plan.to_delete.at(i).clone()));
        i = i + 1;
    }
    let ghost adel = acts@;
    let nr = plan.to_rename.len();
    let mut j: usize = 0;
    while j < nr
        invariant
            plan.to_rename.wf(),
            nr == plan.to_rename.seq().len(),
            j <= nr,
            acts@.len() == adel.len() + j,
            acts@.take(adel.len() as int) == adel,
            forall|t: int| 0 <= t < adel.len() ==> #[trigger] acts@[t] is Delete,
            forall|t: int|
                0 <= t < adel.len() ==> acts@[t]->Delete_0@ == plan.to_delete.seq()[t],
            forall|t: int|
                adel.len() <= t < acts@.len() ==> #[trigger] acts@[t] is Rename,
            forall|t: int|
                adel.len() <= t < acts@.len() ==> acts@[t]->Rename_0@ == plan.to_rename.seq()[t
                    - adel.len()].0 && acts@[t]->Rename_1@ == plan.to_rename.seq()[t
                    - adel.len()].1,
        decreases nr - j,
    {
        let old_n = plan.to_rename.key_at(j).clone();
        let new_n = plan.to_rename.val_at(j).clone();
        let ghost before = acts@;
        acts.push(Action::Rename(old_n, new_n));
        proof {
            assert(acts@.take(adel.len() as int) =~= before.take(adel.len() as int));
        }
        j = j + 1;
    }
    let ghost aren = acts@;
    proof {
        assert(forall|t: int|
            adel.len() <= t < aren.len() ==> #[trigger] aren[t] is Rename && aren[t]->Rename_0@
                == plan.to_rename.seq()[t - adel.len()].0 && aren[t]->Rename_1@
                == plan.to_rename.seq()[t - adel.len()].1);
        assert(forall|t: int|
            0 <= t < adel.len() ==> #[trigger] aren[t] is Delete && aren[t]->Delete_0@
                == plan.to_delete.seq()[t]);
    }
    let np = plan.to_encode_or_copy.len();
    let mut k: usize = 0;
    while k < np
        invariant
            plan.to_encode_or_copy.wf(),
            forall|p: Seq<char>| plan.to_encode_or_copy@.contains(p) ==> valid_path(p),
            np == plan.to_encode_or_copy.seq().len(),
            k <= np,
            acts@.len() == aren.len() + k,
            acts@.take(aren.len() as int) == aren,
            forall|t: int| 0 <= t < aren.len() ==> acts@[t] == aren[t],
            forall|t: int|
                aren.len() <= t < acts@.len() ==> phase(#[trigger] acts@[t]) == 2,
            forall|t: int|
                aren.len() <= t < acts@.len() ==> ((acts@[t] is Encode && acts@[t]->Encode_0@
                    == plan.to_encode_or_copy.seq()[t - aren.len()] && encodable(
                    acts@[t]->Encode_0@,
                    *config,
                ) && acts@[t]->Encode_1@ == name_spec(acts@[t]->Encode_0@, *config)) || (
                #[trigger] acts@[t] is Copy && acts@[t]->Copy_0@ == plan.to_encode_or_copy.seq()[t
                    - aren.len()] && !encodable(acts@[t]->Copy_0@, *config) && acts@[t]->Copy_1@
                    == name_spec(acts@[t]->Copy_0@, *config))),
        decreases np - k,
    {
        let s = plan.to_encode_or_copy.at(k).clone();
        let out = create_output_file_name(s.clone(), config);
        let ghost before = acts@;
        if is_encodable(&s, config) {
            acts.push(Action::Encode(s, out));
        } else {
            acts.push(Action::Copy(s, out));
        }
        proof {
            assert(acts@.take(aren.len() as int) =~= before.take(aren.len() as int));
        }
        k = k + 1;
    }
    proof {
        assert forall|d: Seq<char>| plan.to_delete@.contains(d) implies exists|i: int|
            0 <= i < acts@.len() && #[trigger] acts@[i] is Delete && acts@[i]->Delete_0@ == d by {
            let sv = plan.to_delete.seq();
            let t = choose|t: int| 0 <= t < sv.len() && sv[t] == d;
            assert(acts@[t] is Delete && acts@[t]->Delete_0@ == d);
        }
        assert forall|d: Seq<char>| plan.to_rename@.dom().contains(d) implies exists|i: int|
            0 <= i < acts@.len() && #[trigger] acts@[i] is Rename && acts@[i]->Rename_0@ == d by {
            crate::path_map::lemma_map_of_dom(plan.to_rename.seq());
            let t = choose|t: int|
                0 <= t < plan.to_rename.seq().len() && plan.to_rename.seq()[t].0 == d;
            crate::path_map::lemma_map_of_index(plan.to_rename.seq());
            let ti: int = adel.len() + t;
            assert(acts@[ti] == aren[ti]);
            assert(aren[ti] is Rename && aren[ti]->Rename_0@ == d);
            assert(acts@[ti] is Rename && acts@[ti]->Rename_0@ == d);
            assert(acts@[ti]->Rename_1@ == plan.to_rename@[d]);
        }
        assert forall|s: Seq<char>| plan.to_encode_or_copy@.contains(s) implies exists|i: int|
            0 <= i < acts@.len() && ((#[trigger] acts@[i] is Encode && acts@[i]->Encode_0@ == s)
                || (acts@[i] is Copy && acts@[i]->Copy_0@ == s)) by {
            let sv = plan.to_encode_or_copy.seq();
            let t = choose|t: int| 0 <= t < sv.len() && sv[t] == s;
            let ti: int = aren.len() + t;
            assert(aren.len() <= ti < acts@.len());
            assert((acts@[ti] is Encode && acts@[ti]->Encode_0@ == sv[t]) || (acts@[ti] is Copy
                && acts@[ti]->Copy_0@ == sv[t]));
        }
        assert forall|i: int|
            0 <= i < acts@.len() && #[trigger] acts@[i] is Rename implies plan.to_rename@.dom()
            .contains(acts@[i]->Rename_0@) && plan.to_rename@[acts@[i]->Rename_0@]
            == acts@[i]->Rename_1@ by {
            crate::path_map::lemma_map_of_index(plan.to_rename.seq());
            if i < adel.len() {
                assert(acts@[i] == aren[i]);
                assert(aren[i] is Delete);
            }
            if i >= aren.len() {
                assert(phase(acts@[i]) == 2);
            }
            assert(adel.len() <= i < aren.len());
            assert(acts@[i] == aren[i]);
            assert(acts@[i]->Rename_0@ == plan.to_rename.seq()[i - adel.len()].0);
        }
        assert forall|i: int|
            0 <= i < acts@.len() && #[trigger] acts@[i] is Delete implies plan.to_delete@.contains(
            acts@[i]->Delete_0@,
        ) by {
            if adel.len() <= i < aren.len() {
                assert(acts@[i] == aren[i]);
                assert(aren[i] is Rename);
            }
            if i >= aren.len() {
                assert(phase(acts@[i]) == 2);
            }
            assert(0 <= i < adel.len());
            assert(acts@[i] == aren[i]);
            assert(acts@[i]->Delete_0@ == plan.to_delete.seq()[i]);
            assert(plan.to_delete.seq().contains(plan.to_delete.seq()[i]));
        }
        assert forall|i: int|
            0 <= i < acts@.len() && #[trigger] acts@[i] is Copy implies plan.to_encode_or_copy@
            .contains(acts@[i]->Copy_0@) && !encodable(acts@[i]->Copy_0@, *config)
            && acts@[i]->Copy_1@ == name_spec(acts@[i]->Copy_0@, *config) by {
            if i < adel.len() {
                assert(acts@[i] == aren[i]);
                assert(aren[i] is Delete);
            } else if i < aren.len() {
                assert(acts@[i] == aren[i]);
                assert(aren[i] is Rename);
            }
            assert(aren.len() <= i);
            assert(acts@[i]->Copy_0@ == plan.to_encode_or_copy.seq()[i - aren.len()]);
            assert(plan.to_encode_or_copy.seq().contains(
                plan.to_encode_or_copy.seq()[i - aren.len()],
            ));
        }
        assert forall|i: int|
            0 <= i < acts@.len() && #[trigger] acts@[i] is Encode implies plan.to_encode_or_copy@
            .contains(acts@[i]->Encode_0@) && encodable(acts@[i]->Encode_0@, *config)
            && acts@[i]->Encode_1@ == name_spec(acts@[i]->Encode_0@, *config) by {
            if i < adel.len() {
                assert(acts@[i] == aren[i]);
                assert(aren[i] is Delete);
            } else if i < aren.len() {
                assert(acts@[i] == aren[i]);
                assert(aren[i] is Rename);
            }
            assert(aren.len() <= i);
            assert(acts@[i]->Encode_0@ == plan.to_encode_or_copy.seq()[i - aren.len()]);
            assert(plan.to_encode_or_copy.seq().contains(
                plan.to_encode_or_copy.seq()[i - aren.len()],
            ));
        }
        assert forall|i: int, j: int|
            0 <= i < j < acts@.len() implies phase(acts@[i]) <= phase(acts@[j]) by {
            if i < adel.len() {
                assert(acts@[i] == aren[i]);
                assert(aren[i] is Delete);
            } else if i < aren.len() {
                assert(acts@[i] == aren[i]);
                assert(aren[i] is Rename);
            } else {
                assert(phase(acts@[i]) == 2);
            }
            if j < adel.len() {
                assert(acts@[j] == aren[j]);
                assert(aren[j] is Delete);
            } else if j < aren.len() {
                assert(acts@[j] == aren[j]);
                assert(aren[j] is Rename);
            } else {
                assert(phase(acts@[j]) == 2);
            }
        }
    }
    acts
}

/// The folder part of a relative path: everything before the last slash, or
/// the empty string when there is no slash.
pub fn parent_dir(p: &str) -> (r: String)
    ensures
        r@ == folder_of(p@),
{
    proof {
        lemma_last_index(p@, '/');
    }
    let fs = rfind_char(p, '/');
    if fs == 0 {
        let r = String::new();
        proof {
            assert(r@ =~= folder_of(p@));
        }
        r
    } else {
        let folder = p.substring_char(0, fs - 1);
        proof {
            assert(folder@ =~= folder_of(p@));
        }
        folder.to_owned()
    }
}

/// The folders that the planned outputs will live in, one entry per distinct
/// folder; the empty string stands for the tree root.
pub fn output_directories(set: &PathSet) -> (dirs: PathSet)
    requires
        set.wf(),
    ensures
        dirs@ == set@.map(|p: Seq<char>| folder_of(p)),
        dirs.wf(),
{
    let mut dirs = PathSet::new();
    let n = set.len();
    let mut i: usize = 0;
    while i < n
        invariant
            set.wf(),
            dirs.wf(),
            n == set.seq().len(),
            i <= n,
            dirs@ =~= set.seq().take(i as int).to_set().map(|p: Seq<char>| folder_of(p)),
        decreases n - i,
    {
        let d = parent_dir(set.at(i).as_str());
        proof {
            lemma_take_contains_step(set.seq(), i as int);
        }
        dirs.insert(d);
        proof {
            let f = |p: Seq<char>| folder_of(p);
            let t0 = set.seq().take(i as int).to_set();
            let t1 = set.seq().take(i as int + 1).to_set();
            assert forall|x: Seq<char>| t1.map(f).contains(x) implies dirs@.contains(x) by {
                let p = choose|p: Seq<char>| t1.contains(p) && f(p) == x;
                if t0.contains(p) {
                    assert(t0.map(f).contains(x));
                }
            }
            assert forall|x: Seq<char>| dirs@.contains(x) implies t1.map(f).contains(x) by {
                if x == folder_of(set.seq()[i as int]) {
                    assert(t1.contains(set.seq()[i as int]));
                    assert(t1.map(f).contains(x));
                } else {
                    let p = choose|p: Seq<char>| t0.contains(p) && f(p) == x;
                    assert(t1.contains(p));
                    assert(t1.map(f).contains(x));
                }
            }
            assert(dirs@ =~= t1.map(f));
        }
        i = i + 1;
    }
    proof {
        assert(set.seq().take(n as int) =~= set.seq());
    }
    dirs
}

/// A path inside a tree: the tree's base, a slash, the relative path.
pub fn join_path(base: &str, rel: &str) -> (r: String)
    ensures
        r@ == base@ + seq!['/'] + rel@,
{
    proof {
        reveal_strlit("/");
        assert("/"@ =~= seq!['/']);
    }
    base.to_owned().concat("/").concat(rel)
}

} // verus!
