use std::collections::hash_map::DefaultHasher;
use std::collections::HashMap;
use std::hash::{Hash, Hasher};

use bundle_link::archive::{ArchiveFault, ArchiveMember};
use bundle_link::dedupe::{
    compose_args, compose_outcome, compose_spawn_error, dedupe_archive_members, deduped_archive_name,
    find_candidate, member_file_name, member_hash, names_object, no_objects_error, no_parent_error,
    spill_dir_name, DedupeAction, DedupeRun, DedupeWork, DedupedArchive, SeenArchiveMember,
};
use bundle_link::tool::ToolArgument;

fn member(name: &str, bytes: &[u8]) -> ArchiveMember {
    ArchiveMember { name: name.to_string(), bytes: bytes.to_vec() }
}

/// Runs to the end on files in memory; a file named in `unreadable` cannot be
/// read back.
fn run(
    members: Vec<ArchiveMember>,
    unreadable: &[&str],
) -> Option<Vec<(String, Vec<u8>)>> {
    let mut files: HashMap<String, Vec<u8>> = HashMap::new();
    let mut state = DedupeRun::new(members);
    let mut stored: Option<Vec<u8>> = None;
    loop {
        let (next, action) = state.step(stored);
        state = next;
        stored = None;
        match action {
            DedupeWork::ReadBack(file) => {
                if !unreadable.contains(&file.as_str()) {
                    stored = files.get(&file).cloned();
                }
            }
            DedupeWork::Write(file, bytes) => {
                assert_eq!(files.insert(file, bytes), None);
            }
            DedupeWork::Compose(composed) => {
                return Some(composed.into_iter().map(|f| (f.clone(), files[&f].clone())).collect());
            }
            DedupeWork::NoObjects => return None,
        }
    }
}

fn kept(file: &str, bytes: &[u8]) -> (String, Vec<u8>) {
    (file.to_string(), bytes.to_vec())
}

#[test]
fn hash_is_the_default_hash_of_the_bytes() {
    for bytes in [&b""[..], &b"a"[..], &b"ab"[..], &[0u8; 100][..]] {
        let mut hasher = DefaultHasher::new();
        bytes.hash(&mut hasher);
        assert_eq!(member_hash(bytes), hasher.finish());
    }
    assert_eq!(member_hash(b"same"), member_hash(b"same"));
    assert_ne!(member_hash(b"one"), member_hash(b"two"));
}

#[test]
fn indexes_are_no_objects() {
    assert!(!names_object(""));
    assert!(!names_object("/"));
    assert!(!names_object("__.SYMDEF"));
    assert!(!names_object("__.SYMDEF SORTED"));
    assert!(!names_object("__.SYMDEF_64"));
    assert!(names_object("__.SYMDE"));
    assert!(names_object("a.o"));
    assert!(names_object("/SYM64"));
}

#[test]
fn files_are_numbered() {
    assert_eq!(member_file_name(0, "a.o"), "000000_a.o");
    assert_eq!(member_file_name(12, "dir/a:b.o"), "000012_dir_a_b.o");
    assert_eq!(member_file_name(1234567, ""), "1234567_");
    assert_ne!(member_file_name(1, "a"), member_file_name(2, "a"));
    assert_ne!(member_file_name(1, "000002_a"), member_file_name(2, "a"));
}

#[test]
fn candidates_agree_in_name_length_and_hash() {
    let seen = vec![
        SeenArchiveMember { name: "a".to_string(), len: 3, hash: 7, path: "0".to_string() },
        SeenArchiveMember { name: "b".to_string(), len: 3, hash: 7, path: "1".to_string() },
        SeenArchiveMember { name: "a".to_string(), len: 4, hash: 7, path: "2".to_string() },
        SeenArchiveMember { name: "a".to_string(), len: 3, hash: 8, path: "3".to_string() },
        SeenArchiveMember { name: "a".to_string(), len: 3, hash: 7, path: "4".to_string() },
    ];
    let a = "a".to_string();
    assert_eq!(find_candidate(&seen, 0, &a, 3, 7), Some(0));
    assert_eq!(find_candidate(&seen, 1, &a, 3, 7), Some(4));
    assert_eq!(find_candidate(&seen, 0, &a, 3, 8), Some(3));
    assert_eq!(find_candidate(&seen, 0, &a, 5, 7), None);
    assert_eq!(find_candidate(&seen, 9, &a, 3, 7), None);
}

#[test]
fn byte_identical_members_are_dropped() {
    let members = vec![
        member("__.SYMDEF", b"index"),
        member("hb.o", b"harfbuzz"),
        member("a.o", b"code"),
        member("hb.o", b"harfbuzz"),
        member("hb.o", b"harfbuzz"),
    ];
    assert_eq!(
        run(members, &[]),
        Some(vec![kept("000000_hb.o", b"harfbuzz"), kept("000001_a.o", b"code")])
    );
}

#[test]
fn different_members_of_one_name_are_kept() {
    let members = vec![
        member("util.o", b"one"),
        member("util.o", b"two"),
        member("util.o", b"three"),
        member("util.o", b"two"),
        member("other.o", b"one"),
    ];
    assert_eq!(
        run(members, &[]),
        Some(vec![
            kept("000000_util.o", b"one"),
            kept("000001_util.o", b"two"),
            kept("000002_util.o", b"three"),
            kept("000003_other.o", b"one"),
        ])
    );
}

#[test]
fn names_that_collide_as_files_stay_apart() {
    let members = vec![member("a/b.o", b"x"), member("a_b.o", b"x"), member("a:b.o", b"x")];
    assert_eq!(
        run(members, &[]),
        Some(vec![
            kept("000000_a_b.o", b"x"),
            kept("000001_a_b.o", b"x"),
            kept("000002_a_b.o", b"x"),
        ])
    );
}

#[test]
fn a_member_whose_counterpart_cannot_be_read_is_kept() {
    let members = vec![member("a.o", b"x"), member("a.o", b"x"), member("a.o", b"x")];
    assert_eq!(
        run(members, &["000000_a.o"]),
        Some(vec![kept("000000_a.o", b"x"), kept("000001_a.o", b"x")])
    );
}

#[test]
fn a_run_ends_whatever_is_answered() {
    let mut state = DedupeRun::new(vec![
        member("a.o", b"x"),
        member("a.o", b"x"),
        member("a.o", b"x"),
    ]);
    let mut writes = 0;
    let mut reads = 0;
    loop {
        let (next, action) = state.step(Some(b"something else".to_vec()));
        state = next;
        match action {
            DedupeWork::ReadBack(_) => reads += 1,
            DedupeWork::Write(_, bytes) => {
                assert_eq!(bytes, b"x");
                writes += 1;
            }
            DedupeWork::Compose(files) => {
                assert_eq!(files, vec!["000000_a.o", "000001_a.o", "000002_a.o"]);
                break;
            }
            DedupeWork::NoObjects => panic!("objects were lost"),
        }
    }
    assert_eq!((reads, writes), (3, 3));
}

#[test]
fn deduplicating_twice_changes_nothing() {
    let once = run(vec![member("a.o", b"x"), member("b.o", b"x"), member("a.o", b"x")], &[]);
    let again = run(vec![member("a.o", b"x"), member("b.o", b"x")], &[]);
    assert_eq!(once, again);
}

#[test]
fn members_held_twice_over_are_kept_once() {
    let twice = run(
        vec![
            member("a.o", b"x"),
            member("a.o", b"y"),
            member("b.o", b"x"),
            member("a.o", b"x"),
            member("a.o", b"y"),
            member("b.o", b"x"),
        ],
        &[],
    );
    let once = run(vec![member("a.o", b"x"), member("a.o", b"y"), member("b.o", b"x")], &[]);
    assert_eq!(twice, once);
}

#[test]
fn no_objects_are_reported() {
    assert_eq!(run(vec![], &[]), None);
    assert_eq!(run(vec![member("", b"x"), member("__.SYMDEF", b"y")], &[]), None);
    assert_eq!(
        no_objects_error("dir/lib.a"),
        "archive dedupe found no object members in dir/lib.a - archive may be empty or corrupt"
    );
}

#[test]
fn steps_are_taken_one_by_one() {
    let run = DedupeRun::new(vec![member("a.o", b"x"), member("a.o", b"x"), member("/", b"")]);
    let (run, action) = run.step(None);
    let first: DedupeAction = DedupeWork::Write("000000_a.o".to_string(), b"x".to_vec());
    assert_eq!(action, first);
    let (run, action) = run.step(None);
    assert_eq!(action, DedupeWork::ReadBack("000000_a.o".to_string()));
    let (run, action) = run.step(Some(b"x".to_vec()));
    assert_eq!(action, DedupeWork::Compose(vec!["000000_a.o".to_string()]));
    let (_, action) = run.step(None);
    assert_eq!(action, DedupeWork::Compose(vec!["000000_a.o".to_string()]));
}

#[test]
fn a_run_starts_from_an_archive() {
    let mut data = b"!<arch>\n".to_vec();
    for _ in 0..2 {
        let header = format!("{:<16}{:<32}{:<10}`\n", "a.o/", "0", 2);
        data.extend_from_slice(header.as_bytes());
        data.extend_from_slice(b"xy");
    }
    let run = match dedupe_archive_members(&data) {
        Ok(run) => run,
        Err(e) => panic!("{:?}", e),
    };
    let (run, action) = run.step(None);
    assert_eq!(action, DedupeWork::Write("000000_a.o".to_string(), b"xy".to_vec()));
    let (run, action) = run.step(None);
    assert_eq!(action, DedupeWork::ReadBack("000000_a.o".to_string()));
    let (_, action) = run.step(Some(b"xy".to_vec()));
    assert_eq!(action, DedupeWork::Compose(vec!["000000_a.o".to_string()]));

    match dedupe_archive_members(b"no archive") {
        Ok(_) => panic!("no fault found"),
        Err(e) => assert_eq!(e, ArchiveFault::NotAnArchive),
    }
}

#[test]
fn spill_names_hold_stem_and_process() {
    assert_eq!(spill_dir_name(Some("libplug"), 4242), "libplug.dedup-4242");
    assert_eq!(spill_dir_name(None, 1), "staticlib.dedup-1");
    assert_eq!(deduped_archive_name(Some("libplug"), 4242), "libplug.dedup-4242.a");
    assert_ne!(spill_dir_name(Some("a"), 11), spill_dir_name(Some("a"), 1));
}

#[test]
fn spill_names_differ_between_processes() {
    for stem in [Some("libplug"), Some("a.dedup-1"), Some(""), None] {
        assert_ne!(spill_dir_name(stem, 1), spill_dir_name(stem, 11));
        assert_ne!(deduped_archive_name(stem, 1), deduped_archive_name(stem, 11));
        assert_ne!(spill_dir_name(stem, 1), deduped_archive_name(stem, 1));
    }
    assert_eq!(deduped_archive_name(None, 7), "staticlib.dedup-7.a");
    assert_ne!(spill_dir_name(Some("a"), 1), spill_dir_name(Some("a.dedup-1"), 1));
    assert_eq!(spill_dir_name(Some("staticlib"), 7), spill_dir_name(None, 7));
}

#[test]
fn the_deduped_archive_knows_its_path() {
    let archive = DedupedArchive { archive_path: "x.a".to_string(), temp_dir: "x".to_string() };
    assert_eq!(archive.path(), "x.a");
}

#[test]
fn ar_composes_in_one_pass() {
    assert_eq!(
        compose_args(&vec!["000000_a.o".to_string(), "000001_b.o".to_string()]),
        vec![
            ToolArgument::Text("-rcs".to_string()),
            ToolArgument::Archive,
            ToolArgument::Member("000000_a.o".to_string()),
            ToolArgument::Member("000001_b.o".to_string()),
        ]
    );
}

#[test]
fn ar_failures_are_reported() {
    assert_eq!(compose_outcome(true, "x.a", b"warning"), Ok(()));
    assert_eq!(
        compose_outcome(false, "x.a", b"ar: no space\xff"),
        Err("ar -rcs failed for x.a:\nar: no space\u{fffd}".to_string())
    );
    assert_eq!(compose_spawn_error("not found"), "invoking ar -rcs for archive dedupe: not found");
    assert_eq!(no_parent_error("lib.a"), "staticlib path has no parent directory: lib.a");
}
