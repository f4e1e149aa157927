use indexer::directory_indexer::{FoundEntry, IndexError, Indexer, WalkEvent};

fn file_event(name: &str, content: &str) -> WalkEvent {
    WalkEvent::Found(FoundEntry {
        is_file: true,
        file_name: String::from(name),
        file_path: format!("/repo/{}", name),
        content: Some(String::from(content)),
    })
}

fn dir_event(name: &str) -> WalkEvent {
    WalkEvent::Found(FoundEntry {
        is_file: false,
        file_name: String::from(name),
        file_path: format!("/repo/{}", name),
        content: None,
    })
}

#[test]
fn scenario_three_files_and_one_generated() {
    // batch size 2; a.go, b.go, c.go are eligible, x.pb.go is not
    let mut idx = Indexer::new(2);
    let events = vec![
        file_event("a.go", "package a"),
        file_event("b.go", "package b"),
        file_event("x.pb.go", "generated"),
        file_event("c.go", "package c"),
    ];
    let out = idx.index_directory(&events);
    assert!(out.error.is_none());
    assert_eq!(out.flushes.len(), 2);
    assert_eq!(out.flushes[0].len(), 2);
    assert_eq!(out.flushes[0][0].file_content, "package a");
    assert_eq!(out.flushes[0][0].file_path, "/repo/a.go");
    assert_eq!(out.flushes[0][1].file_content, "package b");
    assert_eq!(out.flushes[1].len(), 1);
    assert_eq!(out.flushes[1][0].file_content, "package c");
    let total: usize = out.flushes.iter().map(|b| b.len()).sum();
    assert_eq!(total, 3);
}

#[test]
fn every_eligible_file_exactly_once() {
    let mut idx = Indexer::new(3);
    let names = ["one.go", "two.go", "three.go", "four.go", "five.go"];
    let mut events = Vec::new();
    for n in names.iter() {
        events.push(file_event(n, &format!("content of {}", n)));
    }
    let out = idx.index_directory(&events);
    assert!(out.error.is_none());
    let mut seen = Vec::new();
    for batch in out.flushes.iter() {
        for entry in batch.iter() {
            seen.push(entry.file_content.clone());
        }
    }
    let expected: Vec<String> = names.iter().map(|n| format!("content of {}", n)).collect();
    assert_eq!(seen, expected);
}

#[test]
fn no_eligible_files_means_no_flushes() {
    let mut idx = Indexer::new(2);
    let events = vec![
        dir_event("src"),
        file_event("readme.md", "# title"),
        file_event("gen.pb.go", "generated"),
        file_event("lib.rs", "fn main() {}"),
    ];
    let out = idx.index_directory(&events);
    assert!(out.error.is_none());
    assert_eq!(out.flushes.len(), 0);
}

#[test]
fn empty_walk_reports_success() {
    let mut idx = Indexer::new(4);
    let out = idx.index_directory(&Vec::new());
    assert!(out.error.is_none());
    assert_eq!(out.flushes.len(), 0);
}

#[test]
fn flush_count_is_ceiling_of_files_over_capacity() {
    // 5 files, capacity 2: ceil(5 / 2) = 3 flushes, the last with 5 mod 2 = 1
    let mut idx = Indexer::new(2);
    let mut events = Vec::new();
    for i in 0..5 {
        events.push(file_event(&format!("f{}.go", i), &format!("body {}", i)));
    }
    let out = idx.index_directory(&events);
    assert!(out.error.is_none());
    assert_eq!(out.flushes.len(), 3);
    assert_eq!(out.flushes[0].len(), 2);
    assert_eq!(out.flushes[1].len(), 2);
    assert_eq!(out.flushes[2].len(), 1);
}

#[test]
fn exact_multiple_fills_every_batch() {
    // 4 files, capacity 2: 2 flushes, the last holds exactly the capacity
    let mut idx = Indexer::new(2);
    let mut events = Vec::new();
    for i in 0..4 {
        events.push(file_event(&format!("g{}.go", i), "x"));
    }
    let out = idx.index_directory(&events);
    assert!(out.error.is_none());
    assert_eq!(out.flushes.len(), 2);
    assert_eq!(out.flushes[1].len(), 2);
}

#[test]
fn traversal_error_aborts_the_run() {
    // the walk fails after one full batch: the flush stands, nothing after
    // the failure is processed, and the caller sees the failure
    let mut idx = Indexer::new(1);
    let events = vec![
        file_event("a.go", "package a"),
        WalkEvent::WalkFailed,
        file_event("c.go", "package c"),
    ];
    let out = idx.index_directory(&events);
    assert_eq!(out.error, Some(IndexError::Traversal));
    assert_eq!(out.flushes.len(), 1);
    assert_eq!(out.flushes[0][0].file_content, "package a");
}

#[test]
fn traversal_error_discards_the_partial_batch() {
    let mut idx = Indexer::new(2);
    let events = vec![file_event("a.go", "package a"), WalkEvent::WalkFailed];
    let out = idx.index_directory(&events);
    assert_eq!(out.error, Some(IndexError::Traversal));
    assert_eq!(out.flushes.len(), 0);
}

#[test]
fn unreadable_eligible_file_is_fatal() {
    let mut idx = Indexer::new(2);
    let events = vec![
        WalkEvent::Found(FoundEntry {
            is_file: true,
            file_name: String::from("broken.go"),
            file_path: String::from("/repo/broken.go"),
            content: None,
        }),
        file_event("after.go", "never reached"),
    ];
    let out = idx.index_directory(&events);
    assert_eq!(out.error, Some(IndexError::ContentRead));
    assert_eq!(out.flushes.len(), 0);
}

#[test]
fn unreadable_ineligible_file_is_skipped() {
    let mut idx = Indexer::new(2);
    let events = vec![
        WalkEvent::Found(FoundEntry {
            is_file: true,
            file_name: String::from("image.png"),
            file_path: String::from("/repo/image.png"),
            content: None,
        }),
        file_event("ok.go", "package ok"),
    ];
    let out = idx.index_directory(&events);
    assert!(out.error.is_none());
    assert_eq!(out.flushes.len(), 1);
    assert_eq!(out.flushes[0][0].file_content, "package ok");
}

#[test]
fn accumulator_flushes_exactly_at_capacity() {
    let mut idx = Indexer::new(2);
    assert_eq!(idx.batch_size(), 2);
    let first = idx.push_entry(String::from("c1"), String::from("p1"));
    assert!(first.is_none());
    let second = idx.push_entry(String::from("c2"), String::from("p2"));
    let batch = second.expect("the batch reached capacity");
    assert_eq!(batch.len(), 2);
    assert_eq!(batch[0].file_content, "c1");
    assert_eq!(batch[1].file_content, "c2");
    let rest = idx.take_remainder();
    assert!(rest.is_none());
}

#[test]
fn remainder_holds_the_leftover_entries() {
    let mut idx = Indexer::new(3);
    idx.push_entry(String::from("c1"), String::from("p1"));
    idx.push_entry(String::from("c2"), String::from("p2"));
    let rest = idx.take_remainder().expect("two entries were pending");
    assert_eq!(rest.len(), 2);
    assert_eq!(rest[1].file_path, "p2");
    assert!(idx.take_remainder().is_none());
}
