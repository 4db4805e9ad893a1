use deadlock_detector::detector::{DeadlockReport, GraphMaker};
use deadlock_detector::project::FileVector;
use deadlock_detector::report::bug_report_json;

#[test]
fn a_lock_taken_in_main_and_in_a_spawned_thread_is_reported() {
    let code = "fn main() {\n    lock();\n    thread::spawn(move || {\n        lock();\n    });\n}\n";
    let mut fv = FileVector::new();
    fv.add_file(b"src/main.rs".to_vec(), code.as_bytes().to_vec()).unwrap();
    fv.find_main();
    let events = fv.start().unwrap();
    let mut graph = GraphMaker::new();
    let mut reports = Vec::new();
    for event in events {
        reports.extend(graph.receive(event));
    }
    assert_eq!(reports.len(), 1);
    let positions = match &reports[0] {
        DeadlockReport::LockCycle { lock_name, positions } => {
            assert_eq!(lock_name, &b"lock".to_vec());
            positions.clone()
        },
        other => panic!("unexpected report {:?}", other),
    };
    assert_eq!(positions, vec![(b"src/main.rs".to_vec(), 2)]);
    let bugs: Vec<(String, usize)> =
        positions.iter().map(|(f, l)| (String::from_utf8(f.clone()).unwrap(), *l)).collect();
    assert_eq!(
        bug_report_json(&bugs),
        Some("{\n  \"bug_infos\": [\n    {\n      \"file_name\": \"src/main.rs\",\n      \"line_number\": 2\n    }\n  ]\n}".to_string())
    );
}

#[test]
fn one_acquisition_per_thread_in_separate_blocks_is_quiet() {
    let code = "fn main() {\n    thread::spawn(move || {\n        lock();\n    });\n    thread::spawn(move || {\n        lock();\n    });\n}\n";
    let mut fv = FileVector::new();
    fv.add_file(b"src/main.rs".to_vec(), code.as_bytes().to_vec()).unwrap();
    fv.find_main();
    let events = fv.start().unwrap();
    assert_eq!(events.len(), 2);
    let mut graph = GraphMaker::new();
    for event in events {
        assert!(graph.receive(event).is_empty());
    }
    assert_eq!(graph.node_count(), 1);
    assert_eq!(graph.edge_count(), 0);
}
