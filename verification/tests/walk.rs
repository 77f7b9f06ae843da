use text_mirror::walk::{
    join_path_str, transform, DirEntry, EntryKind, Mirror, PlanStep, Printer, WalkError,
};

fn named(name: &str, kind: Option<EntryKind>) -> DirEntry {
    DirEntry::Named { name: name.to_string(), kind }
}

#[test]
fn join_adds_a_slash() {
    assert_eq!(join_path_str("root", "sub"), "root/sub");
    assert_eq!(join_path_str("", "x"), "/x");
}

#[test]
fn subdirectory_is_entered_before_its_files_are_planned() {
    // Source tree root/{f1.txt, sub/f2.txt}: the destination subdirectory
    // step stands in the root's plan, so it is carried out before the file
    // inside it can even be planned, let alone written.
    let mut walker = Mirror::new("root".to_string(), "out".to_string());
    let (src, dst) = walker.next_dir().expect("the root task");
    assert_eq!((src.as_str(), dst.as_str()), ("root", "out"));

    let listing = vec![named("f1.txt", Some(EntryKind::File)), named("sub", Some(EntryKind::Dir))];
    let plan = walker.plan_dir(&src, &dst, Some(listing));
    assert!(plan.failure.is_none());
    assert_eq!(plan.steps.len(), 2);
    match &plan.steps[0] {
        PlanStep::CopyFile { src, dst } => {
            assert_eq!(src, "root/f1.txt");
            // The write target is the destination directory path itself.
            assert_eq!(dst, "out");
        }
        PlanStep::EnterDir { .. } => panic!("the file comes first"),
    }
    match &plan.steps[1] {
        PlanStep::EnterDir { src, dst } => {
            assert_eq!(src, "root/sub");
            assert_eq!(dst, "out/sub");
        }
        PlanStep::CopyFile { .. } => panic!("the subdirectory comes second"),
    }

    let (src2, dst2) = walker.next_dir().expect("the subdirectory task");
    assert_eq!((src2.as_str(), dst2.as_str()), ("root/sub", "out/sub"));
    let plan2 = walker.plan_dir(&src2, &dst2, Some(vec![named("f2.txt", Some(EntryKind::File))]));
    assert!(plan2.failure.is_none());
    match &plan2.steps[0] {
        PlanStep::CopyFile { src, dst } => {
            assert_eq!(src, "root/sub/f2.txt");
            assert_eq!(dst, "out/sub");
        }
        PlanStep::EnterDir { .. } => panic!("a file was listed"),
    }
    assert!(walker.next_dir().is_none());
}

#[test]
fn broken_entry_is_skipped_but_siblings_survive() {
    let mut walker = Mirror::new("s".to_string(), "d".to_string());
    let (src, dst) = walker.next_dir().unwrap();
    let listing = vec![
        named("a", Some(EntryKind::File)),
        DirEntry::Broken,
        named("b", Some(EntryKind::File)),
    ];
    let plan = walker.plan_dir(&src, &dst, Some(listing));
    assert!(plan.failure.is_none());
    assert_eq!(plan.steps.len(), 2);
}

#[test]
fn unreadable_directory_is_fatal() {
    let mut walker = Mirror::new("s".to_string(), "d".to_string());
    let (src, dst) = walker.next_dir().unwrap();
    let plan = walker.plan_dir(&src, &dst, None);
    assert_eq!(plan.failure, Some(WalkError::DirectoryRead));
    assert!(plan.steps.is_empty());
}

#[test]
fn unknown_entry_kind_cuts_the_plan_short() {
    let mut walker = Mirror::new("s".to_string(), "d".to_string());
    let (src, dst) = walker.next_dir().unwrap();
    let listing = vec![
        named("a", Some(EntryKind::File)),
        named("mystery", None),
        named("b", Some(EntryKind::File)),
    ];
    let plan = walker.plan_dir(&src, &dst, Some(listing));
    assert_eq!(plan.failure, Some(WalkError::EntryType));
    assert_eq!(plan.steps.len(), 1);
}

#[test]
fn other_entry_kinds_are_passed_over() {
    let mut walker = Mirror::new("s".to_string(), "d".to_string());
    let (src, dst) = walker.next_dir().unwrap();
    let plan = walker.plan_dir(&src, &dst, Some(vec![named("pipe", Some(EntryKind::Other))]));
    assert!(plan.failure.is_none());
    assert!(plan.steps.is_empty());
}

#[test]
fn transform_applies_pairs_to_utf8_bytes() {
    let pairs = vec![("a".to_string(), "b".to_string())];
    let out = transform(pairs, &b"banana".to_vec());
    assert_eq!(out, b"bbnbnb".to_vec());
}

#[test]
fn transform_keeps_utf16_encoding() {
    // "π" in little-endian UTF-16, replaced by "pi", written back as UTF-16.
    let pairs = vec![("π".to_string(), "pi".to_string())];
    let out = transform(pairs, &vec![0xC0, 0x03]);
    assert_eq!(out, vec![0x70, 0x00, 0x69, 0x00]);
}

#[test]
fn transform_without_pairs_is_the_identity() {
    let utf8: Vec<u8> = "héllo".as_bytes().to_vec();
    assert_eq!(transform(Vec::new(), &utf8), utf8);
    let utf16: Vec<u8> = vec![0xC0, 0x03, 0x34, 0xD8, 0x1E, 0xDD];
    assert_eq!(transform(Vec::new(), &utf16), utf16);
}

#[test]
fn error_captions() {
    assert_eq!(WalkError::DirectoryRead.message(), "Could not read directory");
    assert_eq!(WalkError::EntryType.message(), "Could not determine entry type");
    assert_eq!(WalkError::FileDecode.message(), "Could not read file");
    assert_eq!(WalkError::FileWrite.message(), "Could not write file");
}

#[test]
fn print_walk_visits_and_recurses() {
    let mut walker = Printer::new("root".to_string());
    let dir = walker.next_dir().expect("the root task");
    let listing = vec![named("f.txt", Some(EntryKind::File)), named("sub", Some(EntryKind::Dir))];
    let plan = walker.plan_dir(&dir, Some(listing));
    assert!(plan.failure.is_none());
    assert_eq!(
        plan.visits,
        vec![
            ("root/f.txt".to_string(), EntryKind::File),
            ("root/sub".to_string(), EntryKind::Dir),
        ]
    );
    assert_eq!(walker.next_dir(), Some("root/sub".to_string()));
    assert_eq!(walker.next_dir(), None);
}

#[test]
fn print_walk_skips_broken_entries() {
    // A broken entry is passed over; the walk goes on with the rest.
    let mut walker = Printer::new("r".to_string());
    let dir = walker.next_dir().unwrap();
    let listing = vec![
        named("a", Some(EntryKind::File)),
        DirEntry::Broken,
        named("b", Some(EntryKind::Other)),
    ];
    let plan = walker.plan_dir(&dir, Some(listing));
    assert!(plan.failure.is_none());
    assert_eq!(plan.visits.len(), 2);
}

#[test]
fn print_walk_failures() {
    let mut walker = Printer::new("r".to_string());
    let dir = walker.next_dir().unwrap();
    let plan = walker.plan_dir(&dir, None);
    assert_eq!(plan.failure, Some(WalkError::DirectoryRead));
    assert!(plan.visits.is_empty());

    let mut walker = Printer::new("r".to_string());
    let dir = walker.next_dir().unwrap();
    let plan = walker.plan_dir(&dir, Some(vec![named("x", None)]));
    assert_eq!(plan.failure, Some(WalkError::EntryType));
    assert!(plan.visits.is_empty());
}
