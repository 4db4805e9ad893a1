use deadlock_detector::symbol_table::symbolTable;

fn entry(name: &str, id: i32, ty: &str) -> (Vec<u8>, i32, Vec<u8>) {
    (name.as_bytes().to_vec(), id, ty.as_bytes().to_vec())
}

#[test]
fn new_table_is_empty() {
    let table = symbolTable::new();
    assert!(table.symbolVec.is_empty());
    assert_eq!(table.get(b"x"), entry("", -1, ""));
}

#[test]
fn append_numbers_symbols_in_order() {
    let mut table = symbolTable::new();
    let mut id: i32 = 0;
    table.append(b"t1".to_vec(), b"Chan".to_vec(), &mut id);
    table.append(b"t2".to_vec(), b"Chan".to_vec(), &mut id);
    assert_eq!(id, 2);
    assert_eq!(table.get(b"t1"), entry("t1", 1, "Chan"));
    assert_eq!(table.get(b"t2"), entry("t2", 2, "Chan"));
    assert_eq!(table.clone_symbols(), vec![entry("t1", 1, "Chan"), entry("t2", 2, "Chan")]);
}

#[test]
fn append_arc_aliases_the_target() {
    // t3 is an `Arc` clone of t1: it reads as t1's id and type.
    let mut table = symbolTable::new();
    let mut id: i32 = 0;
    table.append(b"t1".to_vec(), b"Chan".to_vec(), &mut id);
    table.append(b"t2".to_vec(), b"Chan".to_vec(), &mut id);
    table.appendArc(b"t3".to_vec(), b"t1".to_vec());
    assert_eq!(table.get(b"t3"), entry("t3", 1, "Chan"));
    assert_eq!(id, 2);
}

#[test]
fn append_arc_of_an_unknown_target_changes_nothing() {
    let mut table = symbolTable::new();
    let mut id: i32 = 0;
    table.append(b"a".to_vec(), b"T".to_vec(), &mut id);
    table.appendArc(b"b".to_vec(), b"zzz".to_vec());
    assert_eq!(table.clone_symbols(), vec![entry("a", 1, "T")]);
    assert_eq!(table.get(b"b"), entry("", -1, ""));
}

#[test]
fn append_again_renumbers_the_first_symbol() {
    let mut table = symbolTable::new();
    let mut id: i32 = 10;
    table.append(b"x".to_vec(), b"A".to_vec(), &mut id);
    table.append(b"x".to_vec(), b"B".to_vec(), &mut id);
    // the first x took id 12 and type B; a second x with id 13 was added
    assert_eq!(id, 13);
    assert_eq!(table.clone_symbols(), vec![entry("x", 12, "B"), entry("x", 13, "B")]);
    assert_eq!(table.get(b"x"), entry("x", 12, "B"));
}

#[test]
fn get_after_append_gives_the_new_id_and_type() {
    let mut table = symbolTable::new();
    let mut id: i32 = 0;
    table.append(b"p".to_vec(), b"lib::P".to_vec(), &mut id);
    table.append(b"q".to_vec(), b"".to_vec(), &mut id);
    table.append(b"p".to_vec(), b"lib::Q".to_vec(), &mut id);
    assert_eq!(table.get(b"p"), entry("p", id - 1, "lib::Q"));
}
