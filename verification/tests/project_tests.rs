use deadlock_detector::detector::LockEvent;
use deadlock_detector::items::AnalysisError;
use deadlock_detector::project::{is_dir_or_rs, is_rust, FileVector, LibType};

fn file_vector(files: &[(&str, &str)]) -> FileVector {
    let mut fv = FileVector::new();
    for (path, code) in files {
        fv.add_file(path.as_bytes().to_vec(), code.as_bytes().to_vec()).unwrap();
    }
    fv
}

fn summary(events: &[LockEvent]) -> Vec<(i32, String, String, String, String, usize)> {
    events
        .iter()
        .map(|e| {
            (
                e.tid,
                String::from_utf8(e.lock_name.clone()).unwrap(),
                String::from_utf8(e.block.clone()).unwrap(),
                String::from_utf8(e.primitive.clone()).unwrap(),
                String::from_utf8(e.file_name.clone()).unwrap(),
                e.line_num,
            )
        })
        .collect()
}

fn ev(tid: i32, lock: &str, block: &str, file: &str, line: usize) -> (i32, String, String, String, String, usize) {
    (tid, lock.to_string(), block.to_string(), "lock".to_string(), file.to_string(), line)
}

#[test]
fn walk_filter_keeps_directories_and_rust_files() {
    assert!(is_dir_or_rs(&Some(b"main.rs".to_vec()), false));
    assert!(is_dir_or_rs(&Some(b"src".to_vec()), true));
    assert!(!is_dir_or_rs(&Some(b"notes.txt".to_vec()), false));
    assert!(!is_dir_or_rs(&Some(b".git".to_vec()), true));
    assert!(!is_dir_or_rs(&Some(b".hidden.rs".to_vec()), false));
    assert!(is_dir_or_rs(&None, true));
    assert!(!is_dir_or_rs(&None, false));
}

#[test]
fn rust_files_end_in_rs() {
    assert!(is_rust(b"src/lib.rs"));
    assert!(!is_rust(b"src/lib.rsx"));
    assert!(!is_rust(b"Cargo.toml"));
}

#[test]
fn main_and_spawned_thread_locks() {
    let code = "fn main() {\n    lock();\n    thread::spawn(move || {\n        lock();\n    });\n}\n";
    let mut fv = file_vector(&[("proj/src/main.rs", code)]);
    fv.find_main();
    let events = fv.start().unwrap();
    assert_eq!(
        summary(&events),
        vec![ev(0, "lock", "0", "proj/src/main.rs", 2), ev(1, "lock", "0-1", "proj/src/main.rs", 4)]
    );
}

#[test]
fn locks_inside_a_spawned_thread_are_not_counted_twice() {
    let code = "fn main() {\n    thread::spawn(move || {\n        lock();\n        lock();\n    });\n    lock();\n}\n";
    let mut fv = file_vector(&[("src/main.rs", code)]);
    fv.find_main();
    let events = fv.start().unwrap();
    assert_eq!(
        summary(&events),
        vec![ev(1, "lock", "0-1", "src/main.rs", 3), ev(1, "lock", "0-1", "src/main.rs", 4), ev(0, "lock", "0", "src/main.rs", 6)]
    );
}

#[test]
fn calls_into_a_library_are_followed() {
    let main = "fn main() {\n    mylib::take();\n}\n";
    let lib = "pub fn take() {\n    lock();\n}\n";
    let toml = "[package]\nname = \"proj\"\nversion = \"0.1.0\"\n\n[lib]\nname = \"mylib\"\npath = \"src/lib.rs\"\n";
    let mut fv = file_vector(&[("proj/src/lib.rs", lib), ("proj/src/main.rs", main)]);
    fv.read_toml(b"proj/Cargo.toml", toml.as_bytes());
    assert!(matches!(fv.lib_name(0), LibType::Name(n) if n == b"mylib"));
    assert!(matches!(fv.lib_name(1), LibType::MT));
    fv.find_main();
    assert_eq!(fv.path(0), &b"proj/src/main.rs".to_vec());
    let events = fv.start().unwrap();
    assert_eq!(summary(&events), vec![ev(0, "lock", "0-1", "proj/src/lib.rs", 2)]);
}

#[test]
fn a_bin_section_names_the_main_file() {
    let toml = "[[bin]]\nname = \"tool\"\npath = \"src/tool.rs\"\n";
    let mut fv = file_vector(&[
        ("proj/src/main.rs", "fn main() {}\n"),
        ("proj/src/tool.rs", "fn main() {\n    lock();\n}\n"),
    ]);
    fv.read_toml(b"proj/Cargo.toml", toml.as_bytes());
    assert!(matches!(fv.lib_name(1), LibType::Main(p) if p == b"proj/src/tool.rs"));
    fv.find_main();
    assert_eq!(fv.path(0), &b"proj/src/tool.rs".to_vec());
    assert_eq!(fv.path(1), &b"proj/src/main.rs".to_vec());
    let events = fv.start().unwrap();
    assert_eq!(summary(&events), vec![ev(0, "lock", "0", "proj/src/tool.rs", 2)]);
}

#[test]
fn a_manifest_line_without_quotes_is_refused() {
    assert!(!FileVector::manifest_quoted_exec(b"proj/Cargo.toml", b"[lib]\nname = mylib\n"));
    assert!(!FileVector::manifest_quoted_exec(b"proj/Cargo.toml", b"[lib]\npath = src/lib.rs\n"));
    // without a manifest directory a path line is not read
    assert!(FileVector::manifest_quoted_exec(b"manifest", b"[lib]\npath = src/lib.rs\n"));
    assert!(FileVector::manifest_quoted_exec(b"proj/Cargo.toml", b"[lib]\nname = \"a\"\npath = \"src/lib.rs\"\n"));
    assert!(FileVector::manifest_quoted_exec(b"proj/Cargo.toml", b""));
}

#[test]
fn no_main_file() {
    let fv = file_vector(&[("proj/src/lib.rs", "fn f() {}\n")]);
    assert!(!fv.has_main_file());
    let mut empty = FileVector::new();
    assert!(!empty.has_main_file());
    assert!(matches!(empty.start(), Err(AnalysisError::NoMainFile)));
    let main = file_vector(&[("proj/src/lib.rs", "fn f() {}\n"), ("proj/src/main.rs", "fn main() {}\n")]);
    assert!(main.has_main_file());
}

#[test]
fn main_file_without_main() {
    let mut fv = file_vector(&[("src/main.rs", "fn other() {\n    lock();\n}\n")]);
    fv.find_main();
    assert!(matches!(fv.start(), Err(AnalysisError::NoMainBlock)));
}

#[test]
fn a_let_without_value_is_refused() {
    let mut fv = file_vector(&[("src/main.rs", "fn main() {\n    let x;\n}\n")]);
    fv.find_main();
    assert!(matches!(fv.start(), Err(AnalysisError::MissingNode)));
}

#[test]
fn endless_recursion_through_a_library_stops() {
    let lib = "pub fn f() {\n    mylib::f();\n}\n";
    let main = "fn main() {\n    mylib::f();\n}\n";
    let toml = "[lib]\nname = \"mylib\"\npath = \"src/lib.rs\"\n";
    let mut fv = file_vector(&[("p/src/main.rs", main), ("p/src/lib.rs", lib)]);
    fv.read_toml(b"p/Cargo.toml", toml.as_bytes());
    fv.find_main();
    assert!(matches!(fv.start(), Err(AnalysisError::TooDeep)));
}

#[test]
fn method_calls_follow_the_type_of_the_receiver() {
    let main = "fn main() {\n    let xx = ab::make();\n    xx.ncr();\n}\n";
    let lib = "pub fn make() -> ab::T {\n    T {}\n}\npub fn ncr() {\n    lock();\n}\n";
    let toml = "[lib]\nname = \"ab\"\npath = \"src/lib.rs\"\n";
    let mut fv = file_vector(&[("p/src/main.rs", main), ("p/src/lib.rs", lib)]);
    fv.read_toml(b"p/Cargo.toml", toml.as_bytes());
    fv.find_main();
    let events = fv.start().unwrap();
    assert_eq!(summary(&events), vec![ev(0, "lock", "0-2", "p/src/lib.rs", 5)]);
}

#[test]
fn threads_spawned_in_a_library_get_new_ids() {
    let main = "fn main() {\n    lib1::run();\n    lock();\n}\n";
    let lib = "pub fn run() {\n    thread::spawn(move || {\n        lock();\n    });\n    thread::spawn(move || {\n        lock();\n    });\n}\n";
    let toml = "[lib]\nname = \"lib1\"\npath = \"src/lib.rs\"\n";
    let mut fv = file_vector(&[("q/src/main.rs", main), ("q/src/lib.rs", lib)]);
    fv.read_toml(b"q/Cargo.toml", toml.as_bytes());
    fv.find_main();
    let events = fv.start().unwrap();
    assert_eq!(
        summary(&events),
        vec![
            ev(1, "lock", "0-1-2", "q/src/lib.rs", 3),
            ev(2, "lock", "0-1-3", "q/src/lib.rs", 6),
            ev(0, "lock", "0", "q/src/main.rs", 3),
        ]
    );
}

#[test]
fn a_comment_before_the_body_of_main() {
    let code = "fn main() // entry\n{\n    lock();\n}\n";
    let mut fv = file_vector(&[("src/main.rs", code)]);
    fv.find_main();
    let events = fv.start().unwrap();
    assert_eq!(summary(&events), vec![ev(0, "lock", "0", "src/main.rs", 3)]);
}

#[test]
fn a_comment_before_the_return_type() {
    let main = "fn main() {\n    let xx = ab::make();\n    xx.ncr();\n}\n";
    let lib = "pub fn make() /* c */ -> ab::T {\n    T {}\n}\npub fn ncr() {\n    lock();\n}\n";
    let toml = "[lib]\nname = \"ab\"\npath = \"src/lib.rs\"\n";
    let mut fv = file_vector(&[("p/src/main.rs", main), ("p/src/lib.rs", lib)]);
    fv.read_toml(b"p/Cargo.toml", toml.as_bytes());
    fv.find_main();
    let events = fv.start().unwrap();
    assert_eq!(summary(&events), vec![ev(0, "lock", "0-2", "p/src/lib.rs", 5)]);
}

#[test]
fn a_call_that_matches_nothing_in_a_library_changes_nothing() {
    let main = "fn main() {\n    mylib::missing();\n    mylib::Thing::missing();\n    lock();\n}\n";
    let lib = "pub fn take() {\n    lock();\n}\nimpl Thing {\n    fn other() {\n        lock();\n    }\n}\n";
    let toml = "[lib]\nname = \"mylib\"\npath = \"src/lib.rs\"\n";
    let mut fv = file_vector(&[("proj/src/lib.rs", lib), ("proj/src/main.rs", main)]);
    fv.read_toml(b"proj/Cargo.toml", toml.as_bytes());
    fv.find_main();
    let events = fv.start().unwrap();
    assert_eq!(summary(&events), vec![ev(0, "lock", "0", "proj/src/main.rs", 4)]);
}
