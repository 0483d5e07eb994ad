use opendocument::members::Members;

#[test]
fn members_start_empty() {
    let members = Members::new();
    assert_eq!(members.len(), 0);
    assert!(members.get("a").is_none());
    assert!(!members.contains("a"));
}

#[test]
fn members_are_held_in_name_order() {
    let mut members = Members::new();
    for name in ["mimetype", "META-INF/manifest.xml", "Pictures/b.png", "Pictures/a.png", "é", "z"] {
        members.insert(name.to_string(), name.as_bytes().to_vec());
    }
    let order: Vec<&str> = members.as_slice().iter().map(|(n, _)| n.as_str()).collect();
    assert_eq!(
        order,
        vec!["META-INF/manifest.xml", "Pictures/a.png", "Pictures/b.png", "mimetype", "z", "é"]
    );
    assert_eq!(members.len(), 6);
}

#[test]
fn insert_replaces_an_equal_name() {
    let mut members = Members::new();
    members.insert("a".to_string(), vec![1]);
    members.insert("ab".to_string(), vec![2]);
    members.insert("a".to_string(), vec![3]);
    assert_eq!(members.len(), 2);
    assert_eq!(members.get("a"), Some(&vec![3]));
    assert_eq!(members.get("ab"), Some(&vec![2]));
}

#[test]
fn remove_takes_out_one_name() {
    let mut members = Members::new();
    members.insert("a".to_string(), vec![1]);
    members.insert("b".to_string(), vec![2]);
    assert_eq!(members.remove("a"), Some(vec![1]));
    assert_eq!(members.remove("a"), None);
    assert_eq!(members.len(), 1);
    assert!(members.contains("b"));
    assert!(!members.contains("a"));
}

#[test]
fn duplicate_is_an_equal_copy() {
    let mut members = Members::new();
    members.insert("b".to_string(), vec![2]);
    members.insert("a".to_string(), vec![1]);
    let copy = members.duplicate();
    members.insert("c".to_string(), vec![3]);
    assert_eq!(copy.as_slice(), &[("a".to_string(), vec![1]), ("b".to_string(), vec![2])]);
    assert_eq!(members.len(), 3);
}
