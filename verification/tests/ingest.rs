use downloads_history::ingest::{
    move_next, move_start, unix_seconds, ConflictSearch, DirSet, FileRecord, MoveNext, MoveStep,
};

#[test]
fn conflict_search_tries_own_name_then_numbers() {
    let mut s = ConflictSearch::new("photo.jpg");
    assert_eq!(s.current_attempt(), 0);
    assert_eq!(s.candidate(), "photo.jpg");
    s.advance();
    assert_eq!(s.candidate(), "photo (1).jpg");
    s.advance();
    assert_eq!(s.current_attempt(), 2);
    assert_eq!(s.candidate(), "photo (2).jpg");

    let mut s = ConflictSearch::new("README");
    s.advance();
    assert_eq!(s.candidate(), "README (1)");

    let mut s = ConflictSearch::new(".profile");
    s.advance();
    assert_eq!(s.candidate(), ".profile (1)");
}

#[test]
fn conflict_search_finds_first_free_name() {
    let taken = ["a.txt", "a (1).txt", "a (2).txt"];
    let mut s = ConflictSearch::new("a.txt");
    let chosen = loop {
        let c = s.candidate();
        if s.settle(taken.contains(&c.as_str())) {
            break c;
        }
    };
    assert_eq!(chosen, "a (3).txt");
    assert_eq!(s.current_attempt(), 3);

    let mut free = ConflictSearch::new("b.txt");
    assert!(free.settle(false));
    assert_eq!(free.current_attempt(), 0);
    assert_eq!(free.candidate(), "b.txt");
}

#[test]
fn dir_set_keeps_each_directory_once() {
    let mut d = DirSet::new();
    assert!(!d.note_parent("/in", "/in"));
    assert!(!d.note_parent("/in/", "/in"));
    assert!(d.note_parent("/in/a", "/in"));
    assert!(!d.note_parent("/in//a/", "/in"));
    assert!(d.note_parent("/in/a/b", "/in"));
    assert!(d.note_parent("/in/c", "/in"));
    assert_eq!(d.len(), 3);
    assert_eq!(d.get(0), "/in/a");
    assert_eq!(d.get(2), "/in/c");
}

#[test]
fn deepest_directories_come_first() {
    let mut d = DirSet::new();
    for p in ["/in/a", "/in/a/b/c", "/in/x", "/in/a/b", "/in/y/z"] {
        assert!(d.note_parent(p, "/in"));
    }
    let order = d.deepest_first();
    let names: Vec<&str> = order.iter().map(|&i| d.get(i)).collect();
    assert_eq!(names, vec!["/in/a/b/c", "/in/a/b", "/in/y/z", "/in/a", "/in/x"]);
    assert!(DirSet::new().deepest_first().is_empty());
}

#[test]
fn move_steps() {
    assert_eq!(move_start(true), MoveStep::CreateParent);
    assert_eq!(move_start(false), MoveStep::Rename);
    assert_eq!(move_next(MoveStep::CreateParent, true), MoveNext::Run(MoveStep::Rename));
    assert_eq!(move_next(MoveStep::CreateParent, false), MoveNext::Failed);
    assert_eq!(move_next(MoveStep::Rename, true), MoveNext::Done);
    assert_eq!(move_next(MoveStep::Rename, false), MoveNext::Run(MoveStep::CopyAcross));
    assert_eq!(move_next(MoveStep::CopyAcross, true), MoveNext::Run(MoveStep::RemoveSource));
    assert_eq!(move_next(MoveStep::CopyAcross, false), MoveNext::Failed);
    assert_eq!(move_next(MoveStep::RemoveSource, true), MoveNext::Done);
    assert_eq!(move_next(MoveStep::RemoveSource, false), MoveNext::Failed);
}

fn run(has_parent: bool, outcomes: [bool; 4]) -> (MoveNext, Vec<MoveStep>) {
    let mut steps = Vec::new();
    let mut step = move_start(has_parent);
    loop {
        steps.push(step);
        let ok = match step {
            MoveStep::CreateParent => outcomes[0],
            MoveStep::Rename => outcomes[1],
            MoveStep::CopyAcross => outcomes[2],
            MoveStep::RemoveSource => outcomes[3],
        };
        match move_next(step, ok) {
            MoveNext::Run(s) => step = s,
            other => return (other, steps),
        }
    }
}

#[test]
fn move_outcome_over_all_cases() {
    for bits in 0..32u32 {
        let has_parent = bits & 16 != 0;
        let o = [bits & 1 != 0, bits & 2 != 0, bits & 4 != 0, bits & 8 != 0];
        let (end, steps) = run(has_parent, o);
        let expect_done = (!has_parent || o[0]) && (o[1] || (o[2] && o[3]));
        assert_eq!(end, if expect_done { MoveNext::Done } else { MoveNext::Failed });
        assert!(steps.len() <= 4);
        if let Some(i) = steps.iter().position(|s| *s == MoveStep::RemoveSource) {
            assert_eq!(steps[i - 1], MoveStep::CopyAcross);
        }
    }
}

#[test]
fn seconds_since_epoch() {
    assert_eq!(unix_seconds(None), 0);
    assert_eq!(unix_seconds(Some(1_700_000_000)), 1_700_000_000);
    assert_eq!(unix_seconds(Some(u64::MAX)), -1);
}

#[test]
fn file_record_fields() {
    let r = FileRecord::new(
        "/arch/2024-03/a.txt".to_string(),
        "a.txt".to_string(),
        1234,
        1709251200,
        "ab".repeat(32),
    );
    assert_eq!(r.path, "/arch/2024-03/a.txt");
    assert_eq!(r.filename, "a.txt");
    assert_eq!(r.size_bytes, 1234);
    assert_eq!(r.mtime_unix, 1709251200);
    assert_eq!(r.sha256.len(), 64);
    let big = FileRecord::new(String::new(), String::new(), u64::MAX, 0, String::new());
    assert_eq!(big.size_bytes, -1);
}
