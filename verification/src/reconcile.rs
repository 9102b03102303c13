//! The reconciliation algorithm.
//!
//! Given the files now in the source tree, the files now in the destination
//! tree, and the persisted record of which source file produced which
//! destination file, compute the repaired record and the action plan that
//! brings the destination back into step: what to encode or copy, what to
//! rename in place, and what to delete. The only hard failure is a name
//! collision: two source files whose destination names coincide under the
//! current naming rule. Every other anomaly is repaired silently.

use vstd::prelude::*;
use crate::config::Config;
use crate::naming::{create_output_file_name, encodable, extension_of, is_encodable, name_spec};
use crate::path_map::{
    lemma_map_of_dom, lemma_map_of_index, lemma_map_of_take_step, map_of, PathMap,
};
use crate::path_set::{lemma_take_contains_step, PathSet};
use crate::paths::{ext_of, valid_path};

verus! {

/// No two distinct source paths get the same destination name.
pub open spec fn injective_names(src: Set<Seq<char>>, cfg: Config) -> bool {
    forall|a: Seq<char>, b: Seq<char>|
        src.contains(a) && src.contains(b) && a != b ==> name_spec(a, cfg) != name_spec(b, cfg)
}

/// Two or more source paths produce the destination name `d`.
pub open spec fn colliding(src: Set<Seq<char>>, cfg: Config, d: Seq<char>) -> bool {
    exists|a: Seq<char>, b: Seq<char>|
        src.contains(a) && src.contains(b) && a != b && name_spec(a, cfg) == d && name_spec(b, cfg)
            == d
}

/// Entries whose recorded output no longer exists in the destination are
/// dropped: the record can no longer vouch for them.
pub open spec fn repair_removed(rec: Map<Seq<char>, Seq<char>>, dst: Set<Seq<char>>) -> Map<
    Seq<char>,
    Seq<char>,
> {
    Map::new(|k: Seq<char>| rec.dom().contains(k) && dst.contains(rec[k]), |k: Seq<char>| rec[k])
}

/// A source path adopts an unrecorded destination file: its name under the
/// current rule exists in the destination but is claimed by no entry.
pub open spec fn adopts(
    m2: Map<Seq<char>, Seq<char>>,
    src: Set<Seq<char>>,
    dst: Set<Seq<char>>,
    cfg: Config,
    k: Seq<char>,
) -> bool {
    &&& src.contains(k)
    &&& dst.contains(name_spec(k, cfg))
    &&& !m2.values().contains(name_spec(k, cfg))
}

/// Unrecorded destination files that match a source path's current name are
/// adopted without re-encoding; this recovers from a lost record.
pub open spec fn repair_untracked(
    m2: Map<Seq<char>, Seq<char>>,
    src: Set<Seq<char>>,
    dst: Set<Seq<char>>,
    cfg: Config,
) -> Map<Seq<char>, Seq<char>> {
    Map::new(
        |k: Seq<char>| m2.dom().contains(k) || adopts(m2, src, dst, cfg, k),
        |k: Seq<char>|
            if adopts(m2, src, dst, cfg, k) {
                name_spec(k, cfg)
            } else {
                m2[k]
            },
    )
}

/// An entry is stale when its source is to be transcoded but its recorded
/// output carries an extension other than the configured one.
pub open spec fn stale_entry(k: Seq<char>, v: Seq<char>, cfg: Config) -> bool {
    encodable(k, cfg) && ext_of(v) != cfg.enc()
}

/// Stale entries are dropped entirely, forcing a re-encode.
pub open spec fn repair_stale(m3: Map<Seq<char>, Seq<char>>, cfg: Config) -> Map<
    Seq<char>,
    Seq<char>,
> {
    Map::new(
        |k: Seq<char>| m3.dom().contains(k) && !stale_entry(k, m3[k], cfg),
        |k: Seq<char>| m3[k],
    )
}

/// The record after all three repairs, in order: removed outputs, untracked
/// outputs, stale extensions.
pub open spec fn repaired_record(
    rec: Map<Seq<char>, Seq<char>>,
    src: Set<Seq<char>>,
    dst: Set<Seq<char>>,
    cfg: Config,
) -> Map<Seq<char>, Seq<char>> {
    repair_stale(repair_untracked(repair_removed(rec, dst), src, dst, cfg), cfg)
}

/// The renames: for each surviving entry whose recorded output differs from
/// the name the rule gives today, the old output is renamed to the new name.
pub open spec fn renames_of(m4: Map<Seq<char>, Seq<char>>, cfg: Config) -> Map<
    Seq<char>,
    Seq<char>,
> {
    Map::new(
        |d: Seq<char>|
            exists|s: Seq<char>| m4.dom().contains(s) && m4[s] == d && name_spec(s, cfg) != d,
        |d: Seq<char>|
            name_spec(
                choose|s: Seq<char>| m4.dom().contains(s) && m4[s] == d && name_spec(s, cfg) != d,
                cfg,
            ),
    )
}

/// The canonical record to persist: every current source path mapped to its
/// name under the current rule.
pub open spec fn final_map(src: Set<Seq<char>>, cfg: Config) -> Map<Seq<char>, Seq<char>> {
    Map::new(|s: Seq<char>| src.contains(s), |s: Seq<char>| name_spec(s, cfg))
}

/// The action plan of one run, together with the record to persist.
pub struct Plan {
    /// Source files with no surviving record entry: encode or copy them.
    pub to_encode_or_copy: PathSet,
    /// Old destination name to new destination name: rename, no re-encode.
    pub to_rename: PathMap,
    /// Destination files claimed by no surviving entry: delete them.
    pub to_delete: PathSet,
    /// The canonical record to persist after the actions succeed.
    pub new_record: PathMap,
}

/// The report of a name collision: each colliding destination name with every
/// source path that produces it.
pub struct CollisionError {
    pub groups: Vec<(String, Vec<String>)>,
}

impl CollisionError {
    /// The groups name exactly the colliding destination names, each once,
    /// and each lists exactly the source paths producing that name.
    pub open spec fn describes(self, src: Set<Seq<char>>, cfg: Config) -> bool {
        let gs = self.groups.deep_view();
        &&& forall|g: int| 0 <= g < gs.len() ==> colliding(src, cfg, #[trigger] gs[g].0)
        &&& forall|g: int, p: Seq<char>|
            0 <= g < gs.len() ==> (#[trigger] gs[g].1.contains(p) <==> src.contains(p)
                && name_spec(p, cfg) == gs[g].0)
        &&& forall|g: int| 0 <= g < gs.len() ==> (#[trigger] gs[g].1).no_duplicates()
        &&& forall|d: Seq<char>|
            colliding(src, cfg, d) ==> exists|g: int| 0 <= g < gs.len() && gs[g].0 == d
        &&& forall|g1: int, g2: int| 0 <= g1 < g2 < gs.len() ==> gs[g1].0 != gs[g2].0
    }
}

/// The destination names of the source paths, one per path, in order.
fn compute_names(source: &PathSet, config: &Config) -> (names: Vec<String>)
    requires
        source.wf(),
        forall|p: Seq<char>| source@.contains(p) ==> valid_path(p),
    ensures
        names.len() == source.seq().len(),
        forall|j: int|
            0 <= j < names.len() ==> names.deep_view()[j] == name_spec(
                source.seq()[j],
                *config,
            ),
{
    let mut names: Vec<String> = Vec::new();
    let n = source.len();
    let mut i: usize = 0;
    while i < n
        invariant
            source.wf(),
            forall|p: Seq<char>| source@.contains(p) ==> valid_path(p),
            n == source.seq().len(),
            i <= n,
            names.len() == i,
            forall|j: int|
                0 <= j < i ==> names.deep_view()[j] == name_spec(source.seq()[j], *config),
        decreases n - i,
    {
        let sc = source.at(i).clone();
        let nm = create_output_file_name(sc, config);
        let ghost nb = names.deep_view();
        names.push(nm);
        proof {
            assert(names.deep_view() =~= nb.push(name_spec(source.seq()[i as int], *config)));
        }
        i = i + 1;
    }
    names
}

/// Two positions holding the same name, if any exist.
fn find_name_clash(names: &Vec<String>) -> (r: Option<(usize, usize)>)
    ensures
        r is Some ==> ({
            let pq = r->0;
            pq.0 < pq.1 < names.len() && names.deep_view()[pq.0 as int] == names.deep_view()[pq.1 as int]
        }),
        r is None ==> forall|p: int, q: int|
            0 <= p < q < names.len() ==> names.deep_view()[p] != names.deep_view()[q],
{
    let n = names.len();
    let mut q: usize = 1;
    while q < n
        invariant
            n == names.len(),
            1 <= q || n == 0,
            q <= n || (n == 0 && q == 1),
            forall|a: int, b: int|
                0 <= a < b < q && b < n ==> names.deep_view()[a] != names.deep_view()[b],
        decreases n - q,
    {
        let mut p: usize = 0;
        while p < q
            invariant
                n == names.len(),
                q < n,
                p <= q,
                forall|a: int| 0 <= a < p ==> names.deep_view()[a] != names.deep_view()[q as int],
            decreases q - p,
        {
            if names[p] == names[q] {
                proof {
                    assert(names.deep_view()[p as int] == names.deep_view()[q as int]);
                }
                return Some((p, q));
            }
            p = p + 1;
        }
        q = q + 1;
    }
    None
}

/// Gathers, for each colliding destination name, every source path that
/// produces it. Used only to report a collision.
#[verifier::rlimit(60)]
fn build_collision_error(source: &PathSet, names: &Vec<String>, config: &Config) -> (e:
    CollisionError)
    requires
        source.wf(),
        names.len() == source.seq().len(),
        forall|j: int|
            0 <= j < names.len() ==> names.deep_view()[j] == name_spec(source.seq()[j], *config),
    ensures
        e.describes(source@, *config),
{
    let n = names.len();
    let ghost nv = names.deep_view();
    let ghost sv = source.seq();
    let mut groups: Vec<(String, Vec<String>)> = Vec::new();
    let mut i: usize = 0;
    while i < n
        invariant
            source.wf(),
            names.len() == source.seq().len(),
            forall|j: int| 0 <= j < names.len() ==> nv[j] == name_spec(sv[j], *config),
            nv == names.deep_view(),
            sv == source.seq(),
            n == names.len(),
            i <= n,
            forall|g: int|
                0 <= g < groups.deep_view().len() ==> colliding(
                    source@,
                    *config,
                    #[trigger] groups.deep_view()[g].0,
                ),
            forall|g: int, p: Seq<char>|
                0 <= g < groups.deep_view().len() ==> (#[trigger] groups.deep_view()[g].1.contains(
                    p,
                ) <==> source@.contains(p) && name_spec(p, *config) == groups.deep_view()[g].0),
            forall|g: int|
                0 <= g < groups.deep_view().len() ==> (#[trigger] groups.deep_view()[g].1)
                    .no_duplicates(),
            forall|idx: int|
                0 <= idx < i && colliding(source@, *config, #[trigger] nv[idx]) ==> exists|g: int|
                    0 <= g < groups.deep_view().len() && groups.deep_view()[g].0 == nv[idx],
            forall|g: int|
                0 <= g < groups.deep_view().len() ==> exists|t: int|
                    0 <= t < i && #[trigger] groups.deep_view()[g].0 == nv[t],
            forall|g1: int, g2: int|
                0 <= g1 < g2 < groups.deep_view().len() ==> groups.deep_view()[g1].0
                    != groups.deep_view()[g2].0,
        decreases n - i,
    {
        let mut seen = false;
        let mut j: usize = 0;
        while j < i
            invariant
                n == names.len(),
                nv == names.deep_view(),
                i < n,
                j <= i,
                seen <==> exists|t: int| 0 <= t < j && nv[t] == nv[i as int],
            decreases i - j,
        {
            if names[j] == names[i] {
                proof {
                    assert(nv[j as int] == nv[i as int]);
                }
                seen = true;
            }
            j = j + 1;
        }
        if !seen {
            let mut members: Vec<String> = Vec::new();
            let mut k: usize = 0;
            while k < n
                invariant
                    source.wf(),
                    names.len() == source.seq().len(),
                    nv == names.deep_view(),
                    sv == source.seq(),
                    forall|jj: int| 0 <= jj < names.len() ==> nv[jj] == name_spec(sv[jj], *config),
                    n == names.len(),
                    i < n,
                    k <= n,
                    forall|t: int|
                        0 <= t < k && #[trigger] nv[t] == nv[i as int]
                            ==> members.deep_view().contains(sv[t]),
                    forall|p: Seq<char>|
                        #[trigger] members.deep_view().contains(p) ==> exists|t: int|
                            0 <= t < k && sv[t] == p && nv[t] == nv[i as int],
                    members.deep_view().no_duplicates(),
                decreases n - k,
            {
                if names[k] == names[i] {
                    let ghost mbefore = members.deep_view();
                    members.push(source.at(k).clone());
                    proof {
                        assert(members.deep_view() =~= mbefore.push(sv[k as int]));
                        assert(nv[k as int] == nv[i as int]);
                        if mbefore.contains(sv[k as int]) {
                            let u = choose|u: int|
                                0 <= u < mbefore.len() && mbefore[u] == sv[k as int];
                            let t = choose|t: int|
                                0 <= t < k && sv[t] == sv[k as int] && nv[t] == nv[i as int];
                            assert(sv[t] == sv[k as int]);
                        }
                        assert forall|t: int|
                            0 <= t < k + 1 && #[trigger] nv[t] == nv[i as int] implies
                            members.deep_view().contains(sv[t]) by {
                            if t < k {
                                let u = choose|u: int|
                                    0 <= u < mbefore.len() && mbefore[u] == sv[t];
                                assert(members.deep_view()[u] == sv[t]);
                            } else {
                                assert(members.deep_view()[mbefore.len() as int] == sv[k as int]);
                            }
                        }
                        assert forall|p: Seq<char>|
                            #[trigger] members.deep_view().contains(p) implies exists|t: int|
                            0 <= t < k + 1 && sv[t] == p && nv[t] == nv[i as int] by {
                            let u = choose|u: int|
                                0 <= u < members.deep_view().len() && members.deep_view()[u] == p;
                            if u < mbefore.len() {
                                assert(mbefore[u] == p);
                                assert(mbefore.contains(p));
                                let t = choose|t: int|
                                    0 <= t < k && sv[t] == p && nv[t] == nv[i as int];
                                assert(0 <= t < k + 1 && sv[t] == p && nv[t] == nv[i as int]);
                            } else {
                                assert(sv[k as int] == p);
                                assert(nv[k as int] == nv[i as int]);
                            }
                        }
                    }
                } else {
                    proof {
                        assert(nv[k as int] != nv[i as int]);
                    }
                }
                k = k + 1;
            }
            if members.len() >= 2 {
                let ghost gbefore = groups.deep_view();
                let ghost mv = members.deep_view();
                let gname = names[i].clone();
                proof {
                    assert(mv[0] != mv[1]);
                    assert(mv.contains(mv[0]));
                    assert(mv.contains(mv[1]));
                    let t0 = choose|t: int| 0 <= t < n && sv[t] == mv[0] && nv[t] == nv[i as int];
                    let t1 = choose|t: int| 0 <= t < n && sv[t] == mv[1] && nv[t] == nv[i as int];
                    assert(source@.contains(sv[t0]) && source@.contains(sv[t1]));
                    assert(name_spec(sv[t0], *config) == nv[i as int]);
                    assert(name_spec(sv[t1], *config) == nv[i as int]);
                    assert(colliding(source@, *config, nv[i as int]));
                }
                groups.push((gname, members));
                proof {
                    assert(groups.deep_view() =~= gbefore.push((nv[i as int], mv)));
                    assert forall|g: int, p: Seq<char>|
                        0 <= g < groups.deep_view().len() implies (
                        #[trigger] groups.deep_view()[g].1.contains(p) <==> source@.contains(p)
                            && name_spec(p, *config) == groups.deep_view()[g].0) by {
                        if g < gbefore.len() {
                            assert(groups.deep_view()[g] == gbefore[g]);
                        } else {
                            let mv = groups.deep_view()[g].1;
                            if mv.contains(p) {
                                let t = choose|t: int|
                                    0 <= t < n && sv[t] == p && nv[t] == nv[i as int];
                                assert(source@.contains(p) && name_spec(p, *config) == nv[i as int]);
                            }
                            if source@.contains(p) && name_spec(p, *config) == nv[i as int] {
                                let t = choose|t: int| 0 <= t < sv.len() && sv[t] == p;
                                assert(nv[t] == nv[i as int]);
                                assert(mv.contains(sv[t]));
                            }
                        }
                    }
                    assert forall|idx: int|
                        0 <= idx < i + 1 && colliding(source@, *config, #[trigger] nv[idx]) implies
                        exists|g: int|
                            0 <= g < groups.deep_view().len() && groups.deep_view()[g].0
                                == nv[idx] by {
                        if idx < i {
                            let g = choose|g: int| 0 <= g < gbefore.len() && gbefore[g].0 == nv[idx];
                            assert(groups.deep_view()[g].0 == nv[idx]);
                        } else {
                            assert(groups.deep_view()[gbefore.len() as int].0 == nv[idx]);
                        }
                    }
                }
            } else {
                proof {
                    if colliding(source@, *config, nv[i as int]) {
                        let (a, b) = choose|a: Seq<char>, b: Seq<char>|
                            source@.contains(a) && source@.contains(b) && a != b && name_spec(
                                a,
                                *config,
                            ) == nv[i as int] && name_spec(b, *config) == nv[i as int];
                        assert(sv.contains(a));
                        assert(sv.contains(b));
                        let ta = choose|t: int| 0 <= t < sv.len() && sv[t] == a;
                        let tb = choose|t: int| 0 <= t < sv.len() && sv[t] == b;
                        assert(nv[ta] == name_spec(sv[ta], *config));
                        assert(nv[tb] == name_spec(sv[tb], *config));
                        assert(nv[ta] == nv[i as int] && nv[tb] == nv[i as int]);
                        assert(members.deep_view().contains(a) && members.deep_view().contains(b));
                        let ua = choose|u: int|
                            0 <= u < members.deep_view().len() && members.deep_view()[u] == a;
                        let ub = choose|u: int|
                            0 <= u < members.deep_view().len() && members.deep_view()[u] == b;
                        assert(ua != ub);
                        assert(false);
                    }
                    assert(!colliding(source@, *config, nv[i as int]));
                    assert forall|idx: int|
                        0 <= idx < i + 1 && colliding(source@, *config, #[trigger] nv[idx]) implies
                        exists|g: int|
                            0 <= g < groups.deep_view().len() && groups.deep_view()[g].0
                                == nv[idx] by {
                    }
                }
            }
        } else {
            proof {
                let t = choose|t: int| 0 <= t < i && nv[t] == nv[i as int];
                assert forall|idx: int|
                    0 <= idx < i + 1 && colliding(source@, *config, #[trigger] nv[idx]) implies
                    exists|g: int|
                        0 <= g < groups.deep_view().len() && groups.deep_view()[g].0 == nv[idx] by {
                    if idx == i {
                        assert(colliding(source@, *config, nv[t]));
                    }
                }
            }
        }
        i = i + 1;
    }
    proof {
        assert forall|d: Seq<char>| colliding(source@, *config, d) implies exists|g: int|
            0 <= g < groups.deep_view().len() && groups.deep_view()[g].0 == d by {
            let (a, b) = choose|a: Seq<char>, b: Seq<char>|
                source@.contains(a) && source@.contains(b) && a != b && name_spec(a, *config) == d
                    && name_spec(b, *config) == d;
            let ta = choose|t: int| 0 <= t < sv.len() && sv[t] == a;
            assert(nv[ta] == d);
            assert(colliding(source@, *config, nv[ta]));
        }
    }
    CollisionError { groups }
}

/// After the repairs, no two entries share an output: retained entries keep
/// the record's distinct outputs, and adoptions take names that the record
/// does not claim and that are distinct among themselves.
proof fn lemma_repaired_distinct_values(
    rec: Map<Seq<char>, Seq<char>>,
    src: Set<Seq<char>>,
    dst: Set<Seq<char>>,
    cfg: Config,
)
    requires
        forall|k1: Seq<char>, k2: Seq<char>|
            rec.dom().contains(k1) && rec.dom().contains(k2) && k1 != k2 ==> rec[k1] != rec[k2],
        injective_names(src, cfg),
    ensures
        forall|k1: Seq<char>, k2: Seq<char>|
            repaired_record(rec, src, dst, cfg).dom().contains(k1) && repaired_record(
                rec,
                src,
                dst,
                cfg,
            ).dom().contains(k2) && k1 != k2 ==> repaired_record(rec, src, dst, cfg)[k1]
                != repaired_record(rec, src, dst, cfg)[k2],
{
    let m2 = repair_removed(rec, dst);
    let m3 = repair_untracked(m2, src, dst, cfg);
    let m4 = repair_stale(m3, cfg);
    assert forall|k1: Seq<char>, k2: Seq<char>|
        m4.dom().contains(k1) && m4.dom().contains(k2) && k1 != k2 implies m4[k1] != m4[k2] by {
        let a1 = adopts(m2, src, dst, cfg, k1);
        let a2 = adopts(m2, src, dst, cfg, k2);
        if a1 && a2 {
            assert(name_spec(k1, cfg) != name_spec(k2, cfg));
        } else if a1 && !a2 {
            assert(m2.dom().contains(k2));
            assert(m2.values().contains(m2[k2]));
        } else if !a1 && a2 {
            assert(m2.dom().contains(k1));
            assert(m2.values().contains(m2[k1]));
        } else {
            assert(m2[k1] == rec[k1] && m2[k2] == rec[k2]);
        }
    }
}

/// Drops every entry whose recorded output is no longer in the destination.
fn step_repair_removed(record: &PathMap, dest: &PathSet) -> (m2: PathMap)
    requires
        record.wf(),
    ensures
        m2@ == repair_removed(record@, dest@),
        m2.wf(),
{
    let mut m2 = PathMap::new();
    let n = record.len();
    let mut i: usize = 0;
    while i < n
        invariant
            record.wf(),
            m2.wf(),
            n == record.seq().len(),
            i <= n,
            m2@ =~= repair_removed(map_of(record.seq().take(i as int)), dest@),
        decreases n - i,
    {
        proof {
            lemma_map_of_take_step(record.seq(), i as int);
        }
        let keep = dest.contains(record.val_at(i));
        if keep {
            let k = record.key_at(i).clone();
            let v = record.val_at(i).clone();
            proof {
                assert(!m2@.dom().contains(k@));
            }
            m2.push_entry(k, v);
        }
        proof {
            assert(m2@ =~= repair_removed(map_of(record.seq().take(i as int + 1)), dest@));
        }
        i = i + 1;
    }
    proof {
        assert(record.seq().take(n as int) =~= record.seq());
    }
    m2
}

/// Adopts unrecorded destination files whose names match a source path's
/// current name, keeping every entry that is not superseded by an adoption.
fn step_repair_untracked(m2: &PathMap, source: &PathSet, dest: &PathSet, config: &Config) -> (m3:
    PathMap)
    requires
        m2.wf(),
        source.wf(),
        forall|k: Seq<char>| m2@.dom().contains(k) ==> valid_path(k),
        forall|p: Seq<char>| source@.contains(p) ==> valid_path(p),
    ensures
        m3@ == repair_untracked(m2@, source@, dest@, *config),
        m3.wf(),
{
    let mut m3 = PathMap::new();
    let n2 = m2.len();
    let mut i: usize = 0;
    while i < n2
        invariant
            m2.wf(),
            m3.wf(),
            forall|k: Seq<char>| m2@.dom().contains(k) ==> valid_path(k),
            n2 == m2.seq().len(),
            i <= n2,
            m3@ =~= Map::new(
                |k: Seq<char>|
                    map_of(m2.seq().take(i as int)).dom().contains(k) && !adopts(
                        m2@,
                        source@,
                        dest@,
                        *config,
                        k,
                    ),
                |k: Seq<char>| m2@[k],
            ),
        decreases n2 - i,
    {
        proof {
            lemma_map_of_take_step(m2.seq(), i as int);
        }
        let kc = m2.key_at(i).clone();
        let nk = create_output_file_name(kc.clone(), config);
        let ad = source.contains(&kc) && dest.contains(&nk) && !m2.contains_value(&nk);
        proof {
            assert(ad == adopts(m2@, source@, dest@, *config, kc@));
        }
        if !ad {
            let vc = m2.val_at(i).clone();
            proof {
                assert(!m3@.dom().contains(kc@));
            }
            m3.push_entry(kc, vc);
        }
        proof {
            assert(m3@ =~= Map::new(
                |k: Seq<char>|
                    map_of(m2.seq().take(i as int + 1)).dom().contains(k) && !adopts(
                        m2@,
                        source@,
                        dest@,
                        *config,
                        k,
                    ),
                |k: Seq<char>| m2@[k],
            ));
        }
        i = i + 1;
    }
    proof {
        assert(m2.seq().take(n2 as int) =~= m2.seq());
    }
    let n = source.len();
    let mut j: usize = 0;
    while j < n
        invariant
            m2.wf(),
            source.wf(),
            m3.wf(),
            forall|p: Seq<char>| source@.contains(p) ==> valid_path(p),
            n == source.seq().len(),
            j <= n,
            m3@ =~= Map::new(
                |k: Seq<char>|
                    (m2@.dom().contains(k) && !adopts(m2@, source@, dest@, *config, k)) || (
                    source.seq().take(j as int).contains(k) && adopts(
                        m2@,
                        source@,
                        dest@,
                        *config,
                        k,
                    )),
                |k: Seq<char>|
                    if adopts(m2@, source@, dest@, *config, k) {
                        name_spec(k, *config)
                    } else {
                        m2@[k]
                    },
            ),
        decreases n - j,
    {
        let sc = source.at(j).clone();
        let ns = create_output_file_name(sc.clone(), config);
        let ad = dest.contains(&ns) && !m2.contains_value(&ns);
        proof {
            assert(source@.contains(sc@));
            assert(ad == adopts(m2@, source@, dest@, *config, sc@));
            lemma_take_contains_step(source.seq(), j as int);
        }
        if ad {
            proof {
                if m3@.dom().contains(sc@) {
                    let t = source.seq().take(j as int);
                    if t.contains(sc@) {
                        let jj = choose|jj: int| 0 <= jj < t.len() && t[jj] == sc@;
                        assert(source.seq()[jj] == source.seq()[j as int]);
                    }
                }
            }
            m3.push_entry(sc, ns);
        }
        proof {
            assert(m3@ =~= Map::new(
                |k: Seq<char>|
                    (m2@.dom().contains(k) && !adopts(m2@, source@, dest@, *config, k)) || (
                    source.seq().take(j as int + 1).contains(k) && adopts(
                        m2@,
                        source@,
                        dest@,
                        *config,
                        k,
                    )),
                |k: Seq<char>|
                    if adopts(m2@, source@, dest@, *config, k) {
                        name_spec(k, *config)
                    } else {
                        m2@[k]
                    },
            ));
        }
        j = j + 1;
    }
    proof {
        assert(source.seq().take(n as int) =~= source.seq());
        assert forall|k: Seq<char>|
            repair_untracked(m2@, source@, dest@, *config).dom().contains(k) implies
            m3@.dom().contains(k) by {
            if adopts(m2@, source@, dest@, *config, k) {
                assert(source@.contains(k));
                assert(source.seq().contains(k));
            }
        }
        assert(m3@ =~= repair_untracked(m2@, source@, dest@, *config));
    }
    m3
}

/// Drops every surviving entry whose source is to be transcoded but whose
/// recorded output has the wrong extension.
fn step_repair_stale(m3: &PathMap, config: &Config) -> (m4: PathMap)
    requires
        m3.wf(),
    ensures
        m4@ == repair_stale(m3@, *config),
        m4.wf(),
{
    let mut m4 = PathMap::new();
    let n = m3.len();
    let mut i: usize = 0;
    while i < n
        invariant
            m3.wf(),
            m4.wf(),
            n == m3.seq().len(),
            i <= n,
            m4@ =~= Map::new(
                |k: Seq<char>|
                    map_of(m3.seq().take(i as int)).dom().contains(k) && !stale_entry(
                        k,
                        m3@[k],
                        *config,
                    ),
                |k: Seq<char>| m3@[k],
            ),
        decreases n - i,
    {
        proof {
            lemma_map_of_take_step(m3.seq(), i as int);
        }
        let kc = m3.key_at(i);
        let enc = is_encodable(kc, config);
        let keep = if enc {
            let ve = extension_of(m3.val_at(i).as_str());
            ve == config.encoded_extension
        } else {
            true
        };
        proof {
            assert(keep == !stale_entry(kc@, m3@[kc@], *config));
        }
        if keep {
            let kc2 = m3.key_at(i).clone();
            let vc = m3.val_at(i).clone();
            proof {
                assert(!m4@.dom().contains(kc2@));
            }
            m4.push_entry(kc2, vc);
        }
        proof {
            assert(m4@ =~= Map::new(
                |k: Seq<char>|
                    map_of(m3.seq().take(i as int + 1)).dom().contains(k) && !stale_entry(
                        k,
                        m3@[k],
                        *config,
                    ),
                |k: Seq<char>| m3@[k],
            ));
        }
        i = i + 1;
    }
    proof {
        assert(m3.seq().take(n as int) =~= m3.seq());
        assert(m4@ =~= repair_stale(m3@, *config));
    }
    m4
}

/// Collects the renames: each surviving entry whose recorded output differs
/// from today's name contributes old name to new name.
fn step_renames(m4: &PathMap, config: &Config) -> (ren: PathMap)
    requires
        m4.wf(),
        m4.distinct_values(),
        forall|k: Seq<char>| m4@.dom().contains(k) ==> valid_path(k),
    ensures
        ren@ == renames_of(m4@, *config),
        ren.wf(),
{
    let mut ren = PathMap::new();
    let n = m4.len();
    let mut i: usize = 0;
    while i < n
        invariant
            m4.wf(),
            m4.distinct_values(),
            ren.wf(),
            forall|k: Seq<char>| m4@.dom().contains(k) ==> valid_path(k),
            n == m4.seq().len(),
            i <= n,
            forall|j: int|
                0 <= j < i ==> (name_spec(m4.seq()[j].0, *config) != m4.seq()[j].1
                    ==> ren@.dom().contains(#[trigger] m4.seq()[j].1) && ren@[m4.seq()[j].1]
                    == name_spec(m4.seq()[j].0, *config)),
            forall|dd: Seq<char>|
                #[trigger] ren@.dom().contains(dd) ==> exists|j: int|
                    0 <= j < i && m4.seq()[j].1 == dd && name_spec(m4.seq()[j].0, *config) != dd
                        && ren@[dd] == name_spec(m4.seq()[j].0, *config),
        decreases n - i,
    {
        let kc = m4.key_at(i).clone();
        let dc = m4.val_at(i).clone();
        let nk = create_output_file_name(kc.clone(), config);
        let ghost before = ren@;
        if !(nk == dc) {
            proof {
                lemma_map_of_index(m4.seq());
                if ren@.dom().contains(dc@) {
                    let j = choose|j: int|
                        0 <= j < i && m4.seq()[j].1 == dc@ && name_spec(m4.seq()[j].0, *config)
                            != dc@ && ren@[dc@] == name_spec(m4.seq()[j].0, *config);
                    assert(m4@[m4.seq()[j].0] == m4.seq()[j].1);
                    assert(m4@[m4.seq()[i as int].0] == m4.seq()[i as int].1);
                    assert(m4.seq()[j].0 != m4.seq()[i as int].0);
                }
            }
            ren.push_entry(dc, nk);
        }
        proof {
            assert forall|dd: Seq<char>| #[trigger] ren@.dom().contains(dd) implies exists|j: int|
                0 <= j < i + 1 && m4.seq()[j].1 == dd && name_spec(m4.seq()[j].0, *config) != dd
                    && ren@[dd] == name_spec(m4.seq()[j].0, *config) by {
                if before.dom().contains(dd) {
                    let j = choose|j: int|
                        0 <= j < i && m4.seq()[j].1 == dd && name_spec(m4.seq()[j].0, *config)
                            != dd && before[dd] == name_spec(m4.seq()[j].0, *config);
                    assert(0 <= j < i + 1 && m4.seq()[j].1 == dd && name_spec(
                        m4.seq()[j].0,
                        *config,
                    ) != dd && ren@[dd] == name_spec(m4.seq()[j].0, *config));
                } else {
                    assert(m4.seq()[i as int].1 == dd && name_spec(m4.seq()[i as int].0, *config)
                        != dd && ren@[dd] == name_spec(m4.seq()[i as int].0, *config));
                }
            }
        }
        i = i + 1;
    }
    proof {
        lemma_map_of_index(m4.seq());
        lemma_map_of_dom(m4.seq());
        let rn = renames_of(m4@, *config);
        assert forall|dd: Seq<char>| #[trigger] rn.dom().contains(dd) implies ren@.dom().contains(
            dd,
        ) && ren@[dd] == rn[dd] by {
            let s0 = choose|s: Seq<char>|
                m4@.dom().contains(s) && m4@[s] == dd && name_spec(s, *config) != dd;
            assert(rn[dd] == name_spec(s0, *config));
            let j = choose|j: int| 0 <= j < m4.seq().len() && m4.seq()[j].0 == s0;
            assert(m4.seq()[j].1 == dd);
            let j2 = choose|j2: int|
                0 <= j2 < n && m4.seq()[j2].1 == dd && name_spec(m4.seq()[j2].0, *config) != dd
                    && ren@[dd] == name_spec(m4.seq()[j2].0, *config);
            assert(m4@[m4.seq()[j2].0] == dd);
            assert(m4.seq()[j2].0 == s0);
        }
        assert forall|dd: Seq<char>| #[trigger] ren@.dom().contains(dd) implies rn.dom().contains(
            dd,
        ) by {
            let j = choose|j: int|
                0 <= j < n && m4.seq()[j].1 == dd && name_spec(m4.seq()[j].0, *config) != dd
                    && ren@[dd] == name_spec(m4.seq()[j].0, *config);
            assert(m4@.dom().contains(m4.seq()[j].0) && m4@[m4.seq()[j].0] == dd && name_spec(
                m4.seq()[j].0,
                *config,
            ) != dd);
        }
        assert(ren@ =~= rn);
    }
    ren
}

/// Every source path with no surviving record entry must be encoded or
/// copied afresh.
fn step_to_process(source: &PathSet, m4: &PathMap) -> (out: PathSet)
    requires
        source.wf(),
        m4.wf(),
    ensures
        out@ == source@.difference(m4@.dom()),
        out.wf(),
{
    let mut out = PathSet::new();
    let n = source.len();
    let mut i: usize = 0;
    while i < n
        invariant
            source.wf(),
            m4.wf(),
            out.wf(),
            n == source.seq().len(),
            i <= n,
            out@ =~= source.seq().take(i as int).to_set().difference(m4@.dom()),
        decreases n - i,
    {
        let sc = source.at(i);
        proof {
            lemma_take_contains_step(source.seq(), i as int);
        }
        if !m4.contains_key(sc) {
            out.insert(sc.clone());
        }
        proof {
            assert(out@ =~= source.seq().take(i as int + 1).to_set().difference(m4@.dom()));
        }
        i = i + 1;
    }
    proof {
        assert(source.seq().take(n as int) =~= source.seq());
        assert(out@ =~= source@.difference(m4@.dom()));
    }
    out
}

/// Every destination file claimed by no surviving record entry must go.
fn step_to_delete(dest: &PathSet, m4: &PathMap) -> (out: PathSet)
    requires
        dest.wf(),
        m4.wf(),
    ensures
        out@ == dest@.difference(m4@.values()),
        out.wf(),
{
    let mut out = PathSet::new();
    let n = dest.len();
    let mut i: usize = 0;
    while i < n
        invariant
            dest.wf(),
            m4.wf(),
            out.wf(),
            n == dest.seq().len(),
            i <= n,
            out@ =~= dest.seq().take(i as int).to_set().difference(m4@.values()),
        decreases n - i,
    {
        let dc = dest.at(i);
        proof {
            lemma_take_contains_step(dest.seq(), i as int);
        }
        if !m4.contains_value(dc) {
            out.insert(dc.clone());
        }
        proof {
            assert(out@ =~= dest.seq().take(i as int + 1).to_set().difference(m4@.values()));
        }
        i = i + 1;
    }
    proof {
        assert(dest.seq().take(n as int) =~= dest.seq());
        assert(out@ =~= dest@.difference(m4@.values()));
    }
    out
}

/// Computes the action plan and the repaired record for one run.
///
/// `source` and `dest` are the files now present in the two trees; `record`
/// is the persisted mapping from the previous run. Every source path and
/// every record key must have a well-defined extension, and no two record
/// entries may claim the same output. The run fails only when two source
/// paths would get the same destination name; every other inconsistency is
/// repaired and reflected in the plan.
pub fn reconcile(source: &PathSet, dest: &PathSet, record: &PathMap, config: &Config) -> (r:
    Result<Plan, CollisionError>)
    requires
        source.wf(),
        dest.wf(),
        record.wf(),
        record.distinct_values(),
        forall|p: Seq<char>| source@.contains(p) ==> valid_path(p),
        forall|k: Seq<char>| record@.dom().contains(k) ==> valid_path(k),
    ensures
        r is Ok <==> injective_names(source@, *config),
        r is Ok ==> ({
            let m4 = repaired_record(record@, source@, dest@, *config);
            let plan = r->Ok_0;
            &&& plan.to_encode_or_copy@ == source@.difference(m4.dom())
            &&& plan.to_rename@ == renames_of(m4, *config)
            &&& plan.to_delete@ == dest@.difference(m4.values())
            &&& plan.new_record@ == final_map(source@, *config)
            &&& plan.to_encode_or_copy.wf()
            &&& plan.to_rename.wf()
            &&& plan.to_delete.wf()
            &&& plan.new_record.wf()
        }),
        r is Err ==> r->Err_0.describes(source@, *config),
{
    let names = compute_names(source, config);
    match find_name_clash(&names) {
        Some(pq) => {
            proof {
                let p = pq.0 as int;
                let q = pq.1 as int;
                assert(source.seq()[p] != source.seq()[q]);
                assert(source.seq().contains(source.seq()[p]));
                assert(source.seq().contains(source.seq()[q]));
                assert(names.deep_view()[p] == name_spec(source.seq()[p], *config));
                assert(names.deep_view()[q] == name_spec(source.seq()[q], *config));
                if injective_names(source@, *config) {
                    assert(name_spec(source.seq()[p], *config) != name_spec(
                        source.seq()[q],
                        *config,
                    ));
                    assert(false);
                }
            }
            Err(build_collision_error(source, &names, config))
        },
        None => {
            proof {
                assert forall|a: Seq<char>, b: Seq<char>|
                    source@.contains(a) && source@.contains(b) && a != b implies name_spec(
                    a,
                    *config,
                ) != name_spec(b, *config) by {
                    let sv = source.seq();
                    let ia = choose|t: int| 0 <= t < sv.len() && sv[t] == a;
                    let ib = choose|t: int| 0 <= t < sv.len() && sv[t] == b;
                    assert(names.deep_view()[ia] == name_spec(a, *config));
                    assert(names.deep_view()[ib] == name_spec(b, *config));
                    if ia < ib {
                        assert(names.deep_view()[ia] != names.deep_view()[ib]);
                    } else {
                        assert(names.deep_view()[ib] != names.deep_view()[ia]);
                    }
                }
                assert(injective_names(source@, *config));
            }
            let m2 = step_repair_removed(record, dest);
            proof {
                assert forall|k: Seq<char>| m2@.dom().contains(k) implies valid_path(k) by {
                    assert(record@.dom().contains(k));
                }
            }
            let m3 = step_repair_untracked(&m2, source, dest, config);
            proof {
                assert forall|k: Seq<char>| m3@.dom().contains(k) implies valid_path(k) by {
                    if adopts(m2@, source@, dest@, *config, k) {
                        assert(source@.contains(k));
                    } else {
                        assert(m2@.dom().contains(k));
                    }
                }
            }
            let m4 = step_repair_stale(&m3, config);
            proof {
                assert forall|k: Seq<char>| m4@.dom().contains(k) implies valid_path(k) by {
                    assert(m3@.dom().contains(k));
                }
                lemma_repaired_distinct_values(record@, source@, dest@, *config);
                assert(m4@ == repaired_record(record@, source@, dest@, *config));
            }
            let ren = step_renames(&m4, config);
            let proc = step_to_process(source, &m4);
            let del = step_to_delete(dest, &m4);
            let new_rec = create_final_encoded_map(source, config);
            Ok(
                Plan {
                    to_encode_or_copy: proc,
                    to_rename: ren,
                    to_delete: del,
                    new_record: new_rec,
                },
            )
        },
    }
}

/// Builds the canonical record: every source path mapped to the name the
/// current rule gives it. This is what a fully converged run persists.
pub fn create_final_encoded_map(input: &PathSet, config: &Config) -> (r: PathMap)
    requires
        input.wf(),
        forall|p: Seq<char>| input@.contains(p) ==> valid_path(p),
    ensures
        r@ == final_map(input@, *config),
        r.wf(),
{
    let mut r = PathMap::new();
    let n = input.len();
    let mut i: usize = 0;
    while i < n
        invariant
            input.wf(),
            forall|p: Seq<char>| input@.contains(p) ==> valid_path(p),
            r.wf(),
            n == input.seq().len(),
            i <= n,
            r@ =~= Map::new(
                |k: Seq<char>| input.seq().take(i as int).contains(k),
                |k: Seq<char>| name_spec(k, *config),
            ),
        decreases n - i,
    {
        let s = input.at(i).clone();
        let ns = create_output_file_name(s.clone(), config);
        proof {
            if r@.dom().contains(s@) {
                let j = choose|j: int|
                    0 <= j < i && input.seq().take(i as int)[j] == s@;
                assert(input.seq()[j] == input.seq()[i as int]);
            }
        }
        r.push_entry(s, ns);
        proof {
            assert forall|k: Seq<char>|
                input.seq().take(i as int + 1).contains(k) implies r@.dom().contains(k) by {
                let t = input.seq().take(i as int + 1);
                let j = choose|j: int| 0 <= j < t.len() && t[j] == k;
                if j < i {
                    assert(input.seq().take(i as int)[j] == k);
                }
            }
            assert forall|k: Seq<char>|
                r@.dom().contains(k) implies input.seq().take(i as int + 1).contains(k) by {
                if k != input.seq()[i as int] {
                    let j = choose|j: int| 0 <= j < i && input.seq().take(i as int)[j] == k;
                    assert(input.seq().take(i as int + 1)[j] == k);
                } else {
                    assert(input.seq().take(i as int + 1)[i as int] == k);
                }
            }
            assert(r@ =~= Map::new(
                |k: Seq<char>| input.seq().take(i as int + 1).contains(k),
                |k: Seq<char>| name_spec(k, *config),
            ));
        }
        i = i + 1;
    }
    proof {
        assert(input.seq().take(n as int) =~= input.seq());
        assert(r@ =~= final_map(input@, *config));
    }
    r
}

} // verus!
