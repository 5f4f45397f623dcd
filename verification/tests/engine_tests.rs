use imgname::codec::CalendarTimestamp;
use imgname::engine::{
    another_file_with_stem_exists, contains_name, file_ext, file_stem,
    files_with_same_extension_are_equal, handle_file, move_file, relocatable_check,
    to_lowercase_ascii, DirEntry, Mode,
};

fn ts(year: u16, month: u8, day: u8, hour: u8, minute: u8, second: u8) -> CalendarTimestamp {
    CalendarTimestamp { year, month, day, hour, minute, second }
}

fn entry(name: &str, same_family: bool) -> DirEntry {
    DirEntry { name: String::from(name), same_family }
}

#[test]
fn stem_and_extension_split() {
    assert_eq!(file_stem("IMG_1234.CR2"), "IMG_1234");
    assert_eq!(file_ext("IMG_1234.CR2"), Some(String::from("CR2")));
    assert_eq!(file_stem("a.b.c"), "a.b");
    assert_eq!(file_ext("a.b.c"), Some(String::from("c")));
    assert_eq!(file_stem("noext"), "noext");
    assert_eq!(file_ext("noext"), None);
    assert_eq!(file_stem(".hidden"), ".hidden");
    assert_eq!(file_ext(".hidden"), None);
}

#[test]
fn lowercase_lowers_ascii_only() {
    assert_eq!(to_lowercase_ascii("CR2"), "cr2");
    assert_eq!(to_lowercase_ascii("jpg"), "jpg");
    assert_eq!(to_lowercase_ascii("Mp4-X"), "mp4-x");
}

#[test]
fn listing_collision_ignores_the_family() {
    let listing = vec![entry("AA100000.jpg", true), entry("BB100000.jpg", false)];
    assert!(!another_file_with_stem_exists(&listing, &String::from("AA100000")));
    assert!(another_file_with_stem_exists(&listing, &String::from("BB100000")));
    assert!(!another_file_with_stem_exists(&listing, &String::from("CC100000")));
}

#[test]
fn listing_collision_matches_the_stem_exactly() {
    let listing = vec![entry("AA1000001.jpg", false)];
    assert!(!another_file_with_stem_exists(&listing, &String::from("AA100000")));
}

#[test]
fn contains_name_finds_exact_names() {
    let names = vec![String::from("a.jpg"), String::from("b.jpg")];
    assert!(contains_name(&names, &String::from("a.jpg")));
    assert!(!contains_name(&names, &String::from("a.jp")));
}

#[test]
fn plain_rename_takes_the_token() {
    let t = ts(2024, 6, 11, 6, 32, 30);
    let src = vec![entry("IMG_1.jpg", true)];
    let plan = move_file(Mode::Rename, t, &String::from("IMG_1"), &src, None).unwrap();
    assert_eq!(plan.stem, "YFB23550");
    assert_eq!(plan.moves.len(), 1);
    assert_eq!(plan.moves[0].from, "IMG_1.jpg");
    assert_eq!(plan.moves[0].to, "YFB23550.jpg");
}

#[test]
fn rename_collision_escalates_one_second() {
    // The first token collides with a different file, so the engine retries
    // with the next second's encoding.
    let t = ts(2024, 6, 11, 6, 32, 30);
    let src = vec![entry("IMG_1.jpg", true)];
    let dst = vec![entry("YFB23550.jpg", false)];
    let plan = move_file(Mode::RenameMove, t, &String::from("IMG_1"), &src, Some(&dst)).unwrap();
    assert_eq!(plan.stem, "YFB23551");
    assert_eq!(plan.moves.len(), 1);
    assert_eq!(plan.moves[0].to, "YFB23551.jpg");
}

#[test]
fn rename_collision_skips_identical_family() {
    let t = ts(2024, 6, 11, 6, 32, 30);
    let src = vec![entry("IMG_1.jpg", true)];
    let dst = vec![entry("YFB23550.jpg", true)];
    let plan = move_file(Mode::RenameMove, t, &String::from("IMG_1"), &src, Some(&dst)).unwrap();
    assert_eq!(plan.stem, "YFB23550");
}

#[test]
fn move_collision_appends_counters() {
    let t = ts(2024, 6, 11, 6, 32, 30);
    let src = vec![entry("IMG_1234.jpg", true)];
    let dst = vec![entry("IMG_1234.jpg", false), entry("IMG_1234-1.jpg", false)];
    let plan = move_file(Mode::Move, t, &String::from("IMG_1234"), &src, Some(&dst)).unwrap();
    assert_eq!(plan.stem, "IMG_1234-2");
    assert_eq!(plan.moves.len(), 1);
    assert_eq!(plan.moves[0].to, "IMG_1234-2.jpg");
}

#[test]
fn family_moves_together() {
    // A RAW+JPEG sidecar pair relocates to one destination stem.
    let t = ts(2024, 6, 11, 6, 32, 30);
    let src = vec![entry("A.CR2", true), entry("A.JPG", true), entry("B.jpg", false)];
    let plan = move_file(Mode::RenameMove, t, &String::from("A"), &src, Some(&vec![])).unwrap();
    assert_eq!(plan.stem, "YFB23550");
    assert_eq!(plan.moves.len(), 2);
    let mut tos: Vec<String> = plan.moves.iter().map(|m| m.to.clone()).collect();
    tos.sort();
    assert_eq!(tos, vec![String::from("YFB23550.cr2"), String::from("YFB23550.jpg")]);
}

#[test]
fn rerun_plans_nothing() {
    // The family already bears the token, lowercased extension included, and
    // already stands in its date directory: the second run is a no-op.
    let t = ts(2024, 6, 11, 6, 32, 30);
    let req = handle_file(Mode::RenameMove, t, 0, &String::from("2024-06-11"));
    assert_eq!(req.dest_subdir, None);
    let src = vec![entry("YFB23550.jpg", true), entry("YFB23550.cr2", true)];
    let plan = move_file(Mode::RenameMove, req.ts, &String::from("YFB23550"), &src, None).unwrap();
    assert_eq!(plan.stem, "YFB23550");
    assert_eq!(plan.moves.len(), 0);
}

#[test]
fn planned_targets_never_hit_a_different_file() {
    // Every planned destination name stays clear of every non-identical
    // entry listed in the destination.
    let t = ts(2024, 6, 11, 6, 32, 30);
    let src = vec![entry("A.CR2", true), entry("A.JPG", true)];
    let dst = vec![
        entry("YFB23550.jpg", false),
        entry("YFB23551.cr2", false),
        entry("unrelated.txt", false),
    ];
    let plan = move_file(Mode::RenameMove, t, &String::from("A"), &src, Some(&dst)).unwrap();
    assert_eq!(plan.stem, "YFB23552");
    for m in plan.moves.iter() {
        for e in dst.iter() {
            if !e.same_family {
                assert_ne!(m.to, e.name);
            }
        }
    }
}

#[test]
fn handle_file_names_the_date_directory() {
    let t = ts(2024, 6, 11, 6, 32, 30);
    let req = handle_file(Mode::RenameMove, t, 0, &String::from("photos"));
    assert_eq!(req.ts, t);
    assert_eq!(req.dest_subdir, Some(String::from("2024-06-11")));
    let req = handle_file(Mode::Rename, t, 0, &String::from("photos"));
    assert_eq!(req.dest_subdir, None);
}

#[test]
fn handle_file_applies_the_offset_before_naming() {
    let t = ts(2024, 6, 11, 5, 10, 20);
    let req = handle_file(Mode::Move, t, -10, &String::from("photos"));
    assert_eq!(req.ts, ts(2024, 6, 10, 19, 10, 20));
    assert_eq!(req.dest_subdir, Some(String::from("2024-06-10")));
}

#[test]
fn relocatable_guards_the_token_years() {
    assert!(relocatable_check(Mode::Rename, ts(2024, 6, 11, 6, 32, 30)));
    assert!(!relocatable_check(Mode::Rename, ts(1999, 6, 11, 6, 32, 30)));
    assert!(!relocatable_check(Mode::Rename, ts(2026, 6, 11, 6, 32, 30)));
    assert!(relocatable_check(Mode::Move, ts(1999, 6, 11, 6, 32, 30)));
    assert!(!relocatable_check(Mode::Move, ts(2024, 0, 11, 6, 32, 30)));
}

#[test]
fn identity_check_fails_without_counterparts() {
    // The counterpart names are missing from the listings, so no disk probe
    // is made and the families are not identical.
    let src_names = vec![String::from("A.CR2")];
    let other_names = vec![String::from("A.JPG")];
    let r = files_with_same_extension_are_equal(
        &String::from("src"),
        &String::from("A.CR2"),
        &src_names,
        &String::from("dst"),
        &String::from("A.JPG"),
        &other_names,
    );
    assert!(!r);
}

#[test]
fn identity_check_probes_missing_files_as_distinct() {
    // Both counterpart names are listed, so the disk is probed; the files do
    // not exist, the probe errs, and erring counts as not identical — a
    // collision to escalate past, never to overwrite.
    let names = vec![String::from("ghost_zq13.tmp")];
    let r = files_with_same_extension_are_equal(
        &String::from("imgname_no_such_dir_zq13"),
        &String::from("ghost_zq13.tmp"),
        &names,
        &String::from("imgname_no_such_dir_zq13"),
        &String::from("ghost_zq13.tmp"),
        &names,
    );
    assert!(!r);
}
