//! The convergence guarantees of the reconciler, proved once and for all
//! over its specification.
//!
//! A state is *converged* for a configuration when the destination holds
//! exactly the named outputs of the current sources and the record is the
//! canonical map. The lemmas here say that reconciliation is idempotent on a
//! converged state, that a change of the naming rule is answered by renames
//! alone, and that it heals both a destination file removed out of band and
//! a record lost entirely.

use vstd::prelude::*;
use crate::config::Config;
use crate::naming::{encodable, name_spec};
use crate::paths::ext_of;
use crate::reconcile::{
    adopts, final_map, injective_names, renames_of, repair_removed, repair_stale, repair_untracked,
    repaired_record, stale_entry,
};

verus! {

/// The destination tree holds exactly the outputs of the sources in `keep`.
pub open spec fn dest_is_image_of(
    dst: Set<Seq<char>>,
    keep: Set<Seq<char>>,
    cfg: Config,
) -> bool {
    forall|d: Seq<char>|
        dst.contains(d) <==> exists|s: Seq<char>| keep.contains(s) && name_spec(s, cfg) == d
}

/// Every transcoded source's destination name carries the configured
/// extension. This holds of any ordinary configuration; it can fail only
/// when bracket stripping swallows the final dot of a name.
pub open spec fn names_keep_extension(src: Set<Seq<char>>, cfg: Config) -> bool {
    forall|s: Seq<char>|
        src.contains(s) && encodable(s, cfg) ==> ext_of(name_spec(s, cfg)) == cfg.enc()
}

/// On a converged state the three repairs change nothing: the repaired
/// record is the record itself.
proof fn lemma_repairs_fix_converged(
    src: Set<Seq<char>>,
    dst: Set<Seq<char>>,
    cfg: Config,
    keep: Set<Seq<char>>,
    rec: Map<Seq<char>, Seq<char>>,
)
    requires
        injective_names(src, cfg),
        keep.subset_of(src),
        dest_is_image_of(dst, keep, cfg),
        rec == Map::<Seq<char>, Seq<char>>::new(
            |s: Seq<char>| keep.contains(s),
            |s: Seq<char>| name_spec(s, cfg),
        ),
        names_keep_extension(src, cfg),
    ensures
        repaired_record(rec, src, dst, cfg) == rec,
{
    let m2 = repair_removed(rec, dst);
    assert forall|k: Seq<char>| rec.dom().contains(k) implies dst.contains(rec[k]) by {
        assert(keep.contains(k) && name_spec(k, cfg) == rec[k]);
    }
    assert(m2 =~= rec);
    let m3 = repair_untracked(m2, src, dst, cfg);
    assert forall|k: Seq<char>| !adopts(m2, src, dst, cfg, k) by {
        if src.contains(k) && dst.contains(name_spec(k, cfg)) {
            let s = choose|s: Seq<char>| keep.contains(s) && name_spec(s, cfg) == name_spec(k, cfg);
            assert(rec.dom().contains(s));
            assert(m2.dom().contains(s) && m2[s] == name_spec(k, cfg));
            assert(m2.values().contains(name_spec(k, cfg)));
        }
    }
    assert(m3 =~= m2);
    let m4 = repair_stale(m3, cfg);
    assert forall|k: Seq<char>| m3.dom().contains(k) implies !stale_entry(k, m3[k], cfg) by {
        assert(keep.contains(k));
        assert(m3[k] == name_spec(k, cfg));
    }
    assert(m4 =~= m3);
}

/// **Idempotence.** On a converged state — the destination holds exactly the
/// named outputs of the sources and the record is canonical — reconciliation
/// plans nothing: nothing to encode or copy, nothing to rename, nothing to
/// delete, and the repaired record is the record itself.
pub proof fn lemma_idempotence(
    src: Set<Seq<char>>,
    dst: Set<Seq<char>>,
    rec: Map<Seq<char>, Seq<char>>,
    cfg: Config,
)
    requires
        injective_names(src, cfg),
        dest_is_image_of(dst, src, cfg),
        rec == final_map(src, cfg),
        names_keep_extension(src, cfg),
    ensures
        repaired_record(rec, src, dst, cfg) == rec,
        src.difference(repaired_record(rec, src, dst, cfg).dom()) == Set::<Seq<char>>::empty(),
        renames_of(repaired_record(rec, src, dst, cfg), cfg) == Map::<Seq<char>, Seq<char>>::empty(),
        dst.difference(repaired_record(rec, src, dst, cfg).values()) == Set::<Seq<char>>::empty(),
{
    assert(rec == Map::<Seq<char>, Seq<char>>::new(
        |s: Seq<char>| src.contains(s),
        |s: Seq<char>| name_spec(s, cfg),
    ));
    lemma_repairs_fix_converged(src, dst, cfg, src, rec);
    let m4 = repaired_record(rec, src, dst, cfg);
    assert(src.difference(m4.dom()) =~= Set::<Seq<char>>::empty());
    assert forall|d: Seq<char>| !renames_of(m4, cfg).dom().contains(d) by {
        if exists|s: Seq<char>| m4.dom().contains(s) && m4[s] == d && name_spec(s, cfg) != d {
            let s = choose|s: Seq<char>|
                m4.dom().contains(s) && m4[s] == d && name_spec(s, cfg) != d;
            assert(m4[s] == name_spec(s, cfg));
        }
    }
    assert(renames_of(m4, cfg) =~= Map::<Seq<char>, Seq<char>>::empty());
    assert forall|d: Seq<char>| dst.contains(d) implies m4.values().contains(d) by {
        let s = choose|s: Seq<char>| src.contains(s) && name_spec(s, cfg) == d;
        assert(m4.dom().contains(s) && m4[s] == d);
    }
    assert(dst.difference(m4.values()) =~= Set::<Seq<char>>::empty());
}

/// **Convergence after a naming-rule change.** Starting from a state
/// converged under one configuration, running under a second one that keeps
/// the extensions to transcode and the encoded extension but may change the
/// bracket toggles plans no re-encode and no delete: exactly the renames
/// from each old name to the corresponding new name, for the entries whose
/// name changed.
pub proof fn lemma_rule_change_convergence(
    src: Set<Seq<char>>,
    dst: Set<Seq<char>>,
    rec: Map<Seq<char>, Seq<char>>,
    cfg1: Config,
    cfg2: Config,
)
    requires
        injective_names(src, cfg1),
        injective_names(src, cfg2),
        cfg1.exts() == cfg2.exts(),
        cfg1.enc() == cfg2.enc(),
        dest_is_image_of(dst, src, cfg1),
        rec == final_map(src, cfg1),
        names_keep_extension(src, cfg1),
    ensures
        repaired_record(rec, src, dst, cfg2) == rec,
        src.difference(repaired_record(rec, src, dst, cfg2).dom()) == Set::<Seq<char>>::empty(),
        dst.difference(repaired_record(rec, src, dst, cfg2).values()) == Set::<Seq<char>>::empty(),
        forall|d: Seq<char>|
            renames_of(repaired_record(rec, src, dst, cfg2), cfg2).dom().contains(d)
                <==> exists|s: Seq<char>|
                src.contains(s) && name_spec(s, cfg1) == d && name_spec(s, cfg2) != d,
        forall|s: Seq<char>|
            src.contains(s) && name_spec(s, cfg2) != name_spec(s, cfg1) ==> renames_of(
                repaired_record(rec, src, dst, cfg2),
                cfg2,
            )[name_spec(s, cfg1)] == name_spec(s, cfg2),
{
    let m2 = repair_removed(rec, dst);
    assert forall|k: Seq<char>| rec.dom().contains(k) implies dst.contains(rec[k]) by {
        assert(src.contains(k) && name_spec(k, cfg1) == rec[k]);
    }
    assert(m2 =~= rec);
    let m3 = repair_untracked(m2, src, dst, cfg2);
    assert forall|k: Seq<char>| !adopts(m2, src, dst, cfg2, k) by {
        if src.contains(k) && dst.contains(name_spec(k, cfg2)) {
            let s = choose|s: Seq<char>|
                src.contains(s) && name_spec(s, cfg1) == name_spec(k, cfg2);
            assert(rec[s] == name_spec(k, cfg2));
            assert(m2.dom().contains(s));
            assert(m2.values().contains(name_spec(k, cfg2)));
        }
    }
    assert(m3 =~= m2);
    let m4 = repair_stale(m3, cfg2);
    assert forall|k: Seq<char>| m3.dom().contains(k) implies !stale_entry(k, m3[k], cfg2) by {
        assert(src.contains(k));
        assert(m3[k] == name_spec(k, cfg1));
        if encodable(k, cfg2) {
            assert(encodable(k, cfg1));
            assert(ext_of(name_spec(k, cfg1)) == cfg1.enc());
        }
    }
    assert(m4 =~= m3);
    assert(src.difference(m4.dom()) =~= Set::<Seq<char>>::empty());
    assert forall|d: Seq<char>| dst.contains(d) implies m4.values().contains(d) by {
        let s = choose|s: Seq<char>| src.contains(s) && name_spec(s, cfg1) == d;
        assert(m4.dom().contains(s) && m4[s] == d);
    }
    assert(dst.difference(m4.values()) =~= Set::<Seq<char>>::empty());
    let rn = renames_of(m4, cfg2);
    assert forall|d: Seq<char>|
        rn.dom().contains(d) <==> exists|s: Seq<char>|
            src.contains(s) && name_spec(s, cfg1) == d && name_spec(s, cfg2) != d by {
        if rn.dom().contains(d) {
            let s = choose|s: Seq<char>|
                m4.dom().contains(s) && m4[s] == d && name_spec(s, cfg2) != d;
            assert(src.contains(s) && name_spec(s, cfg1) == d && name_spec(s, cfg2) != d);
        }
        if exists|s: Seq<char>|
            src.contains(s) && name_spec(s, cfg1) == d && name_spec(s, cfg2) != d {
            let s = choose|s: Seq<char>|
                src.contains(s) && name_spec(s, cfg1) == d && name_spec(s, cfg2) != d;
            assert(m4.dom().contains(s) && m4[s] == d && name_spec(s, cfg2) != d);
        }
    }
    assert forall|s: Seq<char>|
        src.contains(s) && name_spec(s, cfg2) != name_spec(s, cfg1) implies rn[name_spec(
        s,
        cfg1,
    )] == name_spec(s, cfg2) by {
        let d = name_spec(s, cfg1);
        assert(m4.dom().contains(s) && m4[s] == d && name_spec(s, cfg2) != d);
        let s0 = choose|s0: Seq<char>|
            m4.dom().contains(s0) && m4[s0] == d && name_spec(s0, cfg2) != d;
        assert(m4[s0] == name_spec(s0, cfg1));
        assert(s0 == s);
    }
}

/// **A rule change never re-encodes a plain copy.** Starting from a state
/// converged under one configuration, running under any other configuration
/// keeps an entry for every source whose extension the new configuration
/// does not transcode: such files are renamed at most, never processed
/// afresh.
pub proof fn lemma_rule_change_keeps_plain_copies(
    src: Set<Seq<char>>,
    dst: Set<Seq<char>>,
    rec: Map<Seq<char>, Seq<char>>,
    cfg1: Config,
    cfg2: Config,
)
    requires
        injective_names(src, cfg1),
        dest_is_image_of(dst, src, cfg1),
        rec == final_map(src, cfg1),
    ensures
        forall|s: Seq<char>|
            src.contains(s) && !encodable(s, cfg2) ==> repaired_record(
                rec,
                src,
                dst,
                cfg2,
            ).dom().contains(s),
{
    let m2 = repair_removed(rec, dst);
    assert forall|k: Seq<char>| rec.dom().contains(k) implies dst.contains(rec[k]) by {
        assert(src.contains(k) && name_spec(k, cfg1) == rec[k]);
    }
    assert(m2 =~= rec);
    let m3 = repair_untracked(m2, src, dst, cfg2);
    assert forall|s: Seq<char>| src.contains(s) && !encodable(s, cfg2) implies m3.dom().contains(
        s,
    ) && !stale_entry(s, m3[s], cfg2) by {
        assert(m2.dom().contains(s));
    }
}

/// **Self-healing after a manual deletion.** If one source's output is
/// removed from the destination out of band while everything else stays
/// converged, the next run plans exactly that source for re-encode or copy,
/// with nothing renamed and nothing deleted.
pub proof fn lemma_self_healing_deletion(
    src: Set<Seq<char>>,
    dst: Set<Seq<char>>,
    rec: Map<Seq<char>, Seq<char>>,
    cfg: Config,
    s0: Seq<char>,
)
    requires
        injective_names(src, cfg),
        src.contains(s0),
        dest_is_image_of(dst, src.remove(s0), cfg),
        rec == final_map(src, cfg),
        names_keep_extension(src, cfg),
    ensures
        src.difference(repaired_record(rec, src, dst, cfg).dom()) == Set::<Seq<char>>::empty()
            .insert(s0),
        renames_of(repaired_record(rec, src, dst, cfg), cfg) == Map::<Seq<char>, Seq<char>>::empty(),
        dst.difference(repaired_record(rec, src, dst, cfg).values()) == Set::<Seq<char>>::empty(),
{
    let keep = src.remove(s0);
    let krec = Map::<Seq<char>, Seq<char>>::new(
        |s: Seq<char>| keep.contains(s),
        |s: Seq<char>| name_spec(s, cfg),
    );
    let m2 = repair_removed(rec, dst);
    assert forall|k: Seq<char>| #[trigger] rec.dom().contains(k) implies (dst.contains(rec[k])
        <==> k != s0) by {
        if k != s0 {
            assert(keep.contains(k) && name_spec(k, cfg) == rec[k]);
        } else {
            if dst.contains(rec[s0]) {
                let s = choose|s: Seq<char>|
                    keep.contains(s) && name_spec(s, cfg) == name_spec(s0, cfg);
                assert(false);
            }
        }
    }
    assert(m2 =~= krec);
    // from here the state is converged for the remaining sources
    let m3 = repair_untracked(m2, src, dst, cfg);
    assert forall|k: Seq<char>| !adopts(m2, src, dst, cfg, k) by {
        if src.contains(k) && dst.contains(name_spec(k, cfg)) {
            let s = choose|s: Seq<char>| keep.contains(s) && name_spec(s, cfg) == name_spec(k, cfg);
            assert(krec[s] == name_spec(k, cfg));
            assert(m2.dom().contains(s));
            assert(m2.values().contains(name_spec(k, cfg)));
        }
    }
    assert(m3 =~= m2);
    let m4 = repair_stale(m3, cfg);
    assert forall|k: Seq<char>| m3.dom().contains(k) implies !stale_entry(k, m3[k], cfg) by {
        assert(keep.contains(k));
        assert(src.contains(k));
        assert(m3[k] == name_spec(k, cfg));
    }
    assert(m4 =~= m3);
    assert(src.difference(m4.dom()) =~= Set::<Seq<char>>::empty().insert(s0));
    assert forall|d: Seq<char>| !renames_of(m4, cfg).dom().contains(d) by {
        if exists|s: Seq<char>| m4.dom().contains(s) && m4[s] == d && name_spec(s, cfg) != d {
            let s = choose|s: Seq<char>|
                m4.dom().contains(s) && m4[s] == d && name_spec(s, cfg) != d;
            assert(m4[s] == name_spec(s, cfg));
        }
    }
    assert(renames_of(m4, cfg) =~= Map::<Seq<char>, Seq<char>>::empty());
    assert forall|d: Seq<char>| dst.contains(d) implies m4.values().contains(d) by {
        let s = choose|s: Seq<char>| keep.contains(s) && name_spec(s, cfg) == d;
        assert(m4.dom().contains(s) && m4[s] == d);
    }
    assert(dst.difference(m4.values()) =~= Set::<Seq<char>>::empty());
}

/// **Self-healing after record loss.** With the record gone but the
/// destination intact and consistent with the current rule, the rebuilt
/// record is exactly the canonical map and nothing is re-encoded, renamed or
/// deleted.
pub proof fn lemma_self_healing_record_loss(src: Set<Seq<char>>, dst: Set<Seq<char>>, cfg: Config)
    requires
        injective_names(src, cfg),
        dest_is_image_of(dst, src, cfg),
        names_keep_extension(src, cfg),
    ensures
        repaired_record(Map::<Seq<char>, Seq<char>>::empty(), src, dst, cfg) == final_map(src, cfg),
        src.difference(
            repaired_record(Map::<Seq<char>, Seq<char>>::empty(), src, dst, cfg).dom(),
        ) == Set::<Seq<char>>::empty(),
        renames_of(repaired_record(Map::<Seq<char>, Seq<char>>::empty(), src, dst, cfg), cfg)
            == Map::<Seq<char>, Seq<char>>::empty(),
        dst.difference(
            repaired_record(Map::<Seq<char>, Seq<char>>::empty(), src, dst, cfg).values(),
        ) == Set::<Seq<char>>::empty(),
{
    let rec = Map::<Seq<char>, Seq<char>>::empty();
    let m2 = repair_removed(rec, dst);
    assert(m2 =~= rec);
    let m3 = repair_untracked(m2, src, dst, cfg);
    assert forall|k: Seq<char>| src.contains(k) implies adopts(m2, src, dst, cfg, k) by {
        assert(dst.contains(name_spec(k, cfg)));
        if m2.values().contains(name_spec(k, cfg)) {
            let kk = choose|kk: Seq<char>|
                m2.dom().contains(kk) && m2[kk] == name_spec(k, cfg);
            assert(false);
        }
    }
    assert forall|k: Seq<char>| adopts(m2, src, dst, cfg, k) implies src.contains(k) by {}
    assert(m3 =~= final_map(src, cfg));
    let m4 = repair_stale(m3, cfg);
    assert forall|k: Seq<char>| m3.dom().contains(k) implies !stale_entry(k, m3[k], cfg) by {
        assert(src.contains(k));
        assert(m3[k] == name_spec(k, cfg));
    }
    assert(m4 =~= m3);
    assert(src.difference(m4.dom()) =~= Set::<Seq<char>>::empty());
    assert forall|d: Seq<char>| !renames_of(m4, cfg).dom().contains(d) by {
        if exists|s: Seq<char>| m4.dom().contains(s) && m4[s] == d && name_spec(s, cfg) != d {
            let s = choose|s: Seq<char>|
                m4.dom().contains(s) && m4[s] == d && name_spec(s, cfg) != d;
            assert(m4[s] == name_spec(s, cfg));
        }
    }
    assert(renames_of(m4, cfg) =~= Map::<Seq<char>, Seq<char>>::empty());
    assert forall|d: Seq<char>| dst.contains(d) implies m4.values().contains(d) by {
        let s = choose|s: Seq<char>| src.contains(s) && name_spec(s, cfg) == d;
        assert(m4.dom().contains(s) && m4[s] == d);
    }
    assert(dst.difference(m4.values()) =~= Set::<Seq<char>>::empty());
}

} // verus!
