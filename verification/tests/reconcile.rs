use encodesync::actions::{build_action_list, output_directories, parent_dir, Action};
use encodesync::config::Config;
use encodesync::path_map::PathMap;
use encodesync::path_set::PathSet;
use encodesync::rclone_path::RclonePath;
use encodesync::reconcile::{create_final_encoded_map, reconcile};

fn config(exts: Vec<&str>, enc: &str, round: bool, square: bool) -> Config {
    Config {
        input_directory: RclonePath::Local("in".to_string()),
        output_directory: RclonePath::Local("out".to_string()),
        temp_directory: None,
        extensions_to_encode: exts.into_iter().map(|e| e.to_string()).collect(),
        encoded_extension: enc.to_string(),
        copy_covers: None,
        ffmpeg_params: "".to_string(),
        remove_round_brackets: Some(round),
        remove_square_brackets: Some(square),
        remove_curly_brackets: None,
        remove_angle_brackets: None,
    }
}

fn set_of(paths: Vec<&str>) -> PathSet {
    PathSet::from_vec(paths.into_iter().map(|p| p.to_string()).collect())
}

fn map_of(pairs: Vec<(&str, &str)>) -> PathMap {
    let mut m = PathMap::new();
    for (k, v) in pairs {
        m.push_entry(k.to_string(), v.to_string());
    }
    m
}

#[test]
fn fresh_run_encodes_and_copies_everything() {
    let cfg = config(vec!["flac"], "ogg", false, false);
    let source = set_of(vec!["song.flac", "cover.jpg"]);
    let dest = set_of(vec![]);
    let record = map_of(vec![]);
    let plan = reconcile(&source, &dest, &record, &cfg).unwrap_or_else(|_| panic!("collision"));
    assert_eq!(2, plan.to_encode_or_copy.len());
    assert!(plan.to_encode_or_copy.contains(&"song.flac".to_string()));
    assert!(plan.to_encode_or_copy.contains(&"cover.jpg".to_string()));
    assert_eq!(0, plan.to_rename.len());
    assert_eq!(0, plan.to_delete.len());
    assert_eq!(2, plan.new_record.len());
    assert_eq!(
        Some(&"song.ogg".to_string()),
        plan.new_record.get(&"song.flac".to_string())
    );
    assert_eq!(
        Some(&"cover.jpg".to_string()),
        plan.new_record.get(&"cover.jpg".to_string())
    );

    // the transcoded file goes through the encoder, the other is byte-copied
    let acts = build_action_list(&plan, &cfg);
    assert_eq!(2, acts.len());
    let mut saw_encode = false;
    let mut saw_copy = false;
    for a in &acts {
        match a {
            Action::Encode(s, d) => {
                assert_eq!("song.flac", s);
                assert_eq!("song.ogg", d);
                saw_encode = true;
            }
            Action::Copy(s, d) => {
                assert_eq!("cover.jpg", s);
                assert_eq!("cover.jpg", d);
                saw_copy = true;
            }
            _ => panic!("unexpected action"),
        }
    }
    assert!(saw_encode && saw_copy);
}

#[test]
fn stale_extension_forces_reencode_and_delete() {
    let cfg = config(vec!["flac"], "ogg", false, false);
    let source = set_of(vec!["song.flac"]);
    let dest = set_of(vec!["song.mp3"]);
    let record = map_of(vec![("song.flac", "song.mp3")]);
    let plan = reconcile(&source, &dest, &record, &cfg).unwrap_or_else(|_| panic!("collision"));
    assert!(plan.to_encode_or_copy.contains(&"song.flac".to_string()));
    assert_eq!(1, plan.to_encode_or_copy.len());
    assert!(plan.to_delete.contains(&"song.mp3".to_string()));
    assert_eq!(1, plan.to_delete.len());
    assert_eq!(0, plan.to_rename.len());
}

#[test]
fn collision_is_reported_with_both_sources() {
    let cfg = config(vec!["flac"], "ogg", true, false);
    let source = set_of(vec!["A (Live).flac", "A.flac"]);
    let dest = set_of(vec![]);
    let record = map_of(vec![]);
    let err = match reconcile(&source, &dest, &record, &cfg) {
        Ok(_) => panic!("expected a collision"),
        Err(e) => e,
    };
    assert_eq!(1, err.groups.len());
    let (name, members) = &err.groups[0];
    assert_eq!("A.ogg", name);
    assert_eq!(2, members.len());
    assert!(members.contains(&"A (Live).flac".to_string()));
    assert!(members.contains(&"A.flac".to_string()));
}

#[test]
fn converged_state_plans_nothing() {
    let cfg = config(vec!["flac"], "ogg", false, false);
    let source = set_of(vec!["a.flac", "d/b.mp3"]);
    let dest = set_of(vec!["a.ogg", "d/b.mp3"]);
    let record = map_of(vec![("a.flac", "a.ogg"), ("d/b.mp3", "d/b.mp3")]);
    let plan = reconcile(&source, &dest, &record, &cfg).unwrap_or_else(|_| panic!("collision"));
    assert_eq!(0, plan.to_encode_or_copy.len());
    assert_eq!(0, plan.to_rename.len());
    assert_eq!(0, plan.to_delete.len());
    assert_eq!(2, plan.new_record.len());
}

#[test]
fn rule_change_is_answered_by_renames_alone() {
    // converged under "no bracket removal"; run with square removal enabled
    let cfg2 = config(vec!["flac"], "ogg", false, true);
    let source = set_of(vec!["x [1].flac", "y.flac"]);
    let dest = set_of(vec!["x [1].ogg", "y.ogg"]);
    let record = map_of(vec![("x [1].flac", "x [1].ogg"), ("y.flac", "y.ogg")]);
    let plan = reconcile(&source, &dest, &record, &cfg2).unwrap_or_else(|_| panic!("collision"));
    assert_eq!(0, plan.to_encode_or_copy.len());
    assert_eq!(0, plan.to_delete.len());
    assert_eq!(1, plan.to_rename.len());
    assert_eq!(
        Some(&"x.ogg".to_string()),
        plan.to_rename.get(&"x [1].ogg".to_string())
    );
}

#[test]
fn removed_destination_file_is_reencoded() {
    let cfg = config(vec!["flac"], "ogg", false, false);
    let source = set_of(vec!["a.flac", "b.flac"]);
    let dest = set_of(vec!["b.ogg"]);
    let record = map_of(vec![("a.flac", "a.ogg"), ("b.flac", "b.ogg")]);
    let plan = reconcile(&source, &dest, &record, &cfg).unwrap_or_else(|_| panic!("collision"));
    assert_eq!(1, plan.to_encode_or_copy.len());
    assert!(plan.to_encode_or_copy.contains(&"a.flac".to_string()));
    assert_eq!(0, plan.to_rename.len());
    assert_eq!(0, plan.to_delete.len());
}

#[test]
fn lost_record_is_rebuilt_without_reencoding() {
    let cfg = config(vec!["flac"], "ogg", false, false);
    let source = set_of(vec!["a.flac", "c.jpg"]);
    let dest = set_of(vec!["a.ogg", "c.jpg"]);
    let record = map_of(vec![]);
    let plan = reconcile(&source, &dest, &record, &cfg).unwrap_or_else(|_| panic!("collision"));
    assert_eq!(0, plan.to_encode_or_copy.len());
    assert_eq!(0, plan.to_rename.len());
    assert_eq!(0, plan.to_delete.len());
    assert_eq!(
        Some(&"a.ogg".to_string()),
        plan.new_record.get(&"a.flac".to_string())
    );
    assert_eq!(
        Some(&"c.jpg".to_string()),
        plan.new_record.get(&"c.jpg".to_string())
    );
}

#[test]
fn deletes_come_before_renames_and_encodes() {
    // one delete, one rename and one encode in a single run:
    // stale "old.mp3" goes, "x [1].ogg" is renamed, "new.flac" is encoded
    let cfg = config(vec!["flac"], "ogg", false, true);
    let source = set_of(vec!["old.flac", "x [1].flac", "new.flac"]);
    let dest = set_of(vec!["old.mp3", "x [1].ogg"]);
    let record = map_of(vec![("old.flac", "old.mp3"), ("x [1].flac", "x [1].ogg")]);
    let plan = reconcile(&source, &dest, &record, &cfg).unwrap_or_else(|_| panic!("collision"));
    let acts = build_action_list(&plan, &cfg);
    let phases: Vec<u32> = acts
        .iter()
        .map(|a| match a {
            Action::Delete(_) => 0,
            Action::Rename(_, _) => 1,
            Action::Copy(_, _) => 2,
            Action::Encode(_, _) => 2,
        })
        .collect();
    let mut sorted = phases.clone();
    sorted.sort();
    assert_eq!(sorted, phases);
    assert!(matches!(&acts[0], Action::Delete(d) if d == "old.mp3"));
    assert!(matches!(&acts[1], Action::Rename(o, n) if o == "x [1].ogg" && n == "x.ogg"));
    // both the stale source and the new one are re-encoded
    assert_eq!(4, acts.len());
}

#[test]
fn dropping_an_extension_from_the_list_never_reencodes() {
    // converged with flac transcoded to ogg; then flac leaves the list:
    // the recorded outputs are renamed to the plain names, nothing is
    // processed afresh
    let cfg2 = config(vec!["wav"], "opus", false, false);
    let source = set_of(vec!["a.flac", "b.mp3"]);
    let dest = set_of(vec!["a.ogg", "b.mp3"]);
    let record = map_of(vec![("a.flac", "a.ogg"), ("b.mp3", "b.mp3")]);
    let plan = reconcile(&source, &dest, &record, &cfg2).unwrap_or_else(|_| panic!("collision"));
    assert_eq!(0, plan.to_encode_or_copy.len());
    assert_eq!(0, plan.to_delete.len());
    assert_eq!(1, plan.to_rename.len());
    assert_eq!(
        Some(&"a.flac".to_string()),
        plan.to_rename.get(&"a.ogg".to_string())
    );
}

#[test]
fn adoption_overrides_a_stale_claim() {
    // the record claims an old output for a.flac, but an unrecorded file with
    // today's name is already there: adopt it, delete the old output
    let cfg = config(vec!["flac"], "ogg", false, false);
    let source = set_of(vec!["a.flac"]);
    let dest = set_of(vec!["a.ogg", "a.old.ogg"]);
    let record = map_of(vec![("a.flac", "a.old.ogg")]);
    let plan = reconcile(&source, &dest, &record, &cfg).unwrap_or_else(|_| panic!("collision"));
    assert_eq!(0, plan.to_encode_or_copy.len());
    assert_eq!(0, plan.to_rename.len());
    assert_eq!(1, plan.to_delete.len());
    assert!(plan.to_delete.contains(&"a.old.ogg".to_string()));
}

#[test]
fn orphan_output_is_deleted_on_the_second_run() {
    // the source file is gone but its entry and output remain: the first run
    // keeps the output (the entry still claims it) and rebuilds the record
    // without it; the second run deletes it
    let cfg = config(vec!["flac"], "ogg", false, false);
    let source = set_of(vec![]);
    let dest = set_of(vec!["a.ogg"]);
    let record = map_of(vec![("a.flac", "a.ogg")]);
    let plan = reconcile(&source, &dest, &record, &cfg).unwrap_or_else(|_| panic!("collision"));
    assert_eq!(0, plan.to_delete.len());
    assert_eq!(0, plan.new_record.len());

    let plan2 =
        reconcile(&source, &dest, &plan.new_record, &cfg).unwrap_or_else(|_| panic!("collision"));
    assert_eq!(1, plan2.to_delete.len());
    assert!(plan2.to_delete.contains(&"a.ogg".to_string()));
}

#[test]
fn final_record_maps_every_source_to_its_name() {
    let cfg = config(vec!["flac"], "ogg", false, false);
    let source = set_of(vec!["a.flac", "d/c.jpg"]);
    let record = create_final_encoded_map(&source, &cfg);
    assert_eq!(2, record.len());
    assert_eq!(Some(&"a.ogg".to_string()), record.get(&"a.flac".to_string()));
    assert_eq!(
        Some(&"d/c.jpg".to_string()),
        record.get(&"d/c.jpg".to_string())
    );
}

#[test]
fn output_directory_helpers() {
    assert_eq!("a/b".to_string(), parent_dir("a/b/c.ogg"));
    assert_eq!("".to_string(), parent_dir("c.ogg"));
    let set = set_of(vec!["a/b/c.ogg", "a/b/d.ogg", "e.ogg"]);
    let dirs = output_directories(&set);
    assert_eq!(2, dirs.len());
    assert!(dirs.contains(&"a/b".to_string()));
    assert!(dirs.contains(&"".to_string()));
}
