use edge::tree::{merge, Json, Member};

fn list(items: &[&str]) -> Json {
    Json::list(&items.iter().map(|s| s.to_string()).collect())
}

fn object(members: Vec<(&str, Json)>) -> Json {
    Json::Object(
        members.into_iter().map(|(k, v)| Member { key: k.to_string(), value: v }).collect(),
    )
}

fn show(j: &Json) -> String {
    match j {
        Json::Text(s) => format!("{:?}", s),
        Json::Array(v) => format!("[{}]", v.iter().map(show).collect::<Vec<_>>().join(",")),
        Json::Object(m) => format!(
            "{{{}}}",
            m.iter().map(|m| format!("{}:{}", m.key, show(&m.value))).collect::<Vec<_>>().join(",")
        ),
    }
}

#[test]
fn a_list_is_merged_as_one_more_element() {
    let mut cur = Json::object();
    merge(&mut cur, &object(vec![("echo", list(&["u"]))]));
    assert_eq!(show(&cur), r#"{echo:[["u"]]}"#);
    merge(&mut cur, &object(vec![("echo", list(&["v"]))]));
    assert_eq!(show(&cur), r#"{echo:[["u"],["v"]]}"#);
    merge(&mut cur, &object(vec![("echo", list(&[]))]));
    assert_eq!(show(&cur), r#"{echo:[["u"],["v"],[]]}"#);
}

#[test]
fn objects_are_merged_member_by_member() {
    let mut cur = Json::object();
    let first = object(vec![("a", object(vec![("x", list(&["1"]))])), ("b", list(&["2"]))]);
    let second = object(vec![("b", list(&["3"])), ("a", object(vec![("x", list(&["4"])), ("y", list(&[]))]))]);
    merge(&mut cur, &first);
    merge(&mut cur, &second);
    assert_eq!(show(&cur), r#"{a:{x:[["1"],["4"]],y:[[]]},b:[["2"],["3"]]}"#);
}

#[test]
fn merging_nothing_changes_nothing() {
    let mut cur = object(vec![("a", list(&["1"]))]);
    merge(&mut cur, &Json::object());
    assert_eq!(show(&cur), r#"{a:["1"]}"#);
    merge(&mut cur, &list(&["x"]));
    assert_eq!(show(&cur), r#"{a:["1"]}"#);
    merge(&mut cur, &Json::Text("x".to_string()));
    assert_eq!(show(&cur), r#"{a:["1"]}"#);
    let mut text = Json::Text("t".to_string());
    merge(&mut text, &Json::object());
    assert_eq!(show(&text), r#""t""#);
}

#[test]
fn what_does_not_fit_is_left_or_made_to_fit() {
    let mut cur = object(vec![("a", Json::Text("t".to_string())), ("b", list(&["1"]))]);
    merge(&mut cur, &object(vec![("a", list(&["x"]))]));
    assert_eq!(show(&cur), r#"{a:"t",b:["1"]}"#);
    merge(&mut cur, &object(vec![("b", object(vec![("k", list(&["v"]))]))]));
    assert_eq!(show(&cur), r#"{a:"t",b:{k:[["v"]]}}"#);
    merge(&mut cur, &object(vec![("c", Json::Text("t".to_string()))]));
    assert_eq!(show(&cur), r#"{a:"t",b:{k:[["v"]]},c:{}}"#);
    let mut text = Json::Text("t".to_string());
    merge(&mut text, &object(vec![("a", list(&["x"]))]));
    assert_eq!(show(&text), r#"{a:[["x"]]}"#);
}

#[test]
fn a_key_holds_one_value() {
    let mut o = Json::object();
    o.insert("a", list(&["1"]));
    o.insert("b", list(&["2"]));
    o.insert("a", list(&["3"]));
    assert_eq!(show(&o), r#"{a:["3"],b:["2"]}"#);
    assert_eq!(o.len(), 2);
    assert_eq!(show(o.get("b").unwrap()), r#"["2"]"#);
    assert!(o.get("c").is_none());
    assert!(o.at(0).is_none());
    assert!(o.as_str().is_none());
    let l = list(&["x", "y"]);
    assert_eq!(l.len(), 2);
    assert_eq!(l.at(1).unwrap().as_str(), Some("y"));
    assert!(l.at(2).is_none());
    assert!(l.get("x").is_none());
    assert_eq!(l.at(0).unwrap().len(), 0);
    assert_eq!(show(&l.copy()), show(&l));
    assert_eq!(show(&o.copy()), show(&o));
    let mut t = Json::Text("t".to_string());
    t.insert("k", list(&[]));
    assert_eq!(show(&t), "{k:[]}");
}
