use edge::util::new_point;

#[test]
fn service_test_new_point() {
    let id = new_point();
    let id1 = new_point();
    assert_ne!(id, id1);
}

#[test]
fn graph_test_new_point() {
    println!("{}", new_point());
}

#[test]
fn a_point_is_a_hyphenated_identifier_in_lower_case() {
    let id = new_point();
    assert_eq!(id.len(), 36);
    for (i, c) in id.chars().enumerate() {
        if i == 8 || i == 13 || i == 18 || i == 23 {
            assert_eq!(c, '-');
        } else {
            assert!(c.is_ascii_digit() || ('a'..='f').contains(&c));
        }
    }
}
