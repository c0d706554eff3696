use wsb_tree::task_id::TaskId;

#[test]
fn conversion() {
    let task_id = TaskId::new(vec![1, 1]);
    assert_eq!(task_id.as_vec(), &vec![1, 1]);
    assert_eq!(task_id.to_text(), "1.1");
    assert_eq!(TaskId::new(vec![1, 2, 3, 4]).to_text(), "1.2.3.4");
}

#[test]
fn parse() {
    let empty_vec: Vec<u32> = vec![];
    assert_eq!(TaskId::parse("").unwrap().as_vec(), &empty_vec);
    assert_eq!(TaskId::parse("1.1").unwrap().as_vec(), &vec![1, 1]);
    assert_eq!(TaskId::parse("4.523.123").unwrap().as_vec(), &vec![4, 523, 123]);
    assert!(TaskId::parse(".1.1").is_err());
    assert!(TaskId::parse("1.1.").is_err());
}

#[test]
fn parent_id() {
    assert_eq!(TaskId::parse("1.1").unwrap().parent().unwrap().as_vec(), &vec![1]);
    assert_eq!(
        TaskId::parse("1.1.234.12").unwrap().parent().unwrap().as_vec(),
        &vec![1, 1, 234]
    );
    assert_eq!(
        TaskId::parse("2.534.234.12.243.123").unwrap().parent().unwrap().as_vec(),
        &vec![2, 534, 234, 12, 243]
    );
}

#[test]
fn parse_rejects_bad_segments() {
    assert!(TaskId::parse("0").is_err());
    assert!(TaskId::parse("1..2").is_err());
    assert!(TaskId::parse("a.b").is_err());
    assert!(TaskId::parse("4294967296").is_err());
    assert_eq!(TaskId::parse("007").unwrap().as_vec(), &vec![7]);
}

#[test]
fn text_round_trip() {
    for id in [vec![1u32], vec![2, 1, 3], vec![4, 523, 123], vec![]] {
        let task_id = TaskId::new(id.clone());
        let text = task_id.to_text();
        assert_eq!(TaskId::parse(&text).unwrap().as_vec(), &id);
    }
}

#[test]
fn siblings_by_arithmetic() {
    let id = TaskId::parse("2.3").unwrap();
    assert_eq!(id.next_sibling().unwrap().as_vec(), &vec![2, 4]);
    assert_eq!(id.prev_sibling().unwrap().as_vec(), &vec![2, 2]);
    assert!(TaskId::parse("2.1").unwrap().prev_sibling().is_err());
    assert!(TaskId::get_root_id().next_sibling().is_err());
}
