use edge::auth::Auth;
use edge::err::ErrorKind;
use edge::mem_table::Edge;
use edge::path::{Path, Step};
use edge::sql::{
    delete_all, delete_fibre, forward, gen_auth_con, gen_sql_stm, insert_edges, select_fibre,
    select_path,
};

fn step(arrow: &str, code: &str) -> Step {
    Step { arrow: arrow.to_string(), code: code.to_string() }
}

fn edge(source: &str, code: &str, target: &str) -> Edge {
    Edge {
        source: source.to_string(),
        code: code.to_string(),
        target: target.to_string(),
        is_temp: false,
    }
}

#[test]
fn test_gen_sql() {
    let sql = gen_sql_stm(
        &Auth::printer("root"),
        &Step { arrow: "->".to_string(), code: "code".to_string() },
        &vec![Step { arrow: "->".to_string(), code: "code".to_string() }],
    )
    .unwrap();
    println!("{sql}");
    assert_eq!(
        sql,
        "SELECT v1.root\n\
         FROM (SELECT target AS root, id FROM edge WHERE source=? AND code=? AND pen = 'root') v0\n\
         JOIN (SELECT target AS root, source, id FROM edge WHERE code=? AND pen = 'root') v1 ON v1.source = v0.root\n\
         ORDER BY v1.id"
    );
}

#[test]
fn the_owner_of_everything_reads_without_a_condition() {
    let sql = gen_sql_stm(&Auth::root(), &step("->", "a"), &vec![]).unwrap();
    assert_eq!(
        sql,
        "SELECT v0.root\n\
         FROM (SELECT target AS root, id FROM edge WHERE source=? AND code=?) v0\n\
         ORDER BY v0.id"
    );
    assert_eq!(gen_auth_con(&Auth::root()).unwrap(), "");
    assert_eq!(gen_auth_con(&Auth::writer("blue", "w")).unwrap(), " AND paper = 'blue'");
    assert_eq!(gen_auth_con(&Auth::printer("w")).unwrap(), " AND pen = 'w'");
}

#[test]
fn backward_hops_select_sources_and_join_on_targets() {
    let sql = gen_sql_stm(
        &Auth::writer("blue", "w"),
        &step("<-", "a"),
        &vec![step("->", "b"), step("<-", "c")],
    )
    .unwrap();
    assert_eq!(
        sql,
        "SELECT v2.root\n\
         FROM (SELECT source AS root, id FROM edge WHERE target=? AND code=? AND paper = 'blue') v0\n\
         JOIN (SELECT target AS root, source, id FROM edge WHERE code=? AND paper = 'blue') v1 ON v1.source = v0.root\n\
         JOIN (SELECT source AS root, target, id FROM edge WHERE code=? AND paper = 'blue') v2 ON v2.target = v1.root\n\
         ORDER BY v2.id"
    );
    assert!(forward(&step("->", "a")));
    assert!(!forward(&step("<-", "a")));
    assert!(!forward(&step("", "a")));
}

#[test]
fn levels_are_numbered_in_decimal() {
    let step_v: Vec<Step> = (0..11).map(|_| step("->", "n")).collect();
    let sql = gen_sql_stm(&Auth::root(), &step("->", "n"), &step_v).unwrap();
    assert!(sql.starts_with("SELECT v11.root\nFROM "));
    assert!(sql.contains(") v10 ON v10.source = v9.root\n"));
    assert!(sql.contains(") v11 ON v11.source = v10.root\n"));
    assert!(sql.ends_with("\nORDER BY v11.id"));
    assert_eq!(sql.matches("\nJOIN ").count(), 11);
    assert_eq!(sql.matches('?').count(), 13);
}

#[test]
fn a_name_that_is_no_identifier_is_never_written_into_a_statement() {
    let bad = Auth::writer("p' OR '1'='1", "w");
    assert!(!bad.is_valid());
    assert_eq!(
        gen_sql_stm(&bad, &step("->", "a"), &vec![]).unwrap_err().kind(),
        ErrorKind::Unauthorized
    );
    assert_eq!(gen_auth_con(&bad).unwrap_err().kind(), ErrorKind::Unauthorized);
    assert_eq!(
        gen_auth_con(&Auth::printer("x' or '1'='1")).unwrap_err().kind(),
        ErrorKind::Unauthorized
    );
    assert_eq!(select_fibre(&bad, true, "s", "c").unwrap_err().kind(), ErrorKind::Unauthorized);
    assert_eq!(delete_fibre(&bad, true, "s", "c").unwrap_err().kind(), ErrorKind::Unauthorized);
    assert_eq!(
        select_path(&bad, &Path::from_str("s->c")).unwrap_err().kind(),
        ErrorKind::Unauthorized
    );
    assert!(select_path(&bad, &Path::from_str("s")).unwrap().is_none());
    assert!(Auth::writer("Paper_1", "pen-2").is_valid());
    assert!(Auth::writer("", "").is_valid());
    assert!(!Auth::printer("pen 2").is_valid());
    assert!(!Auth::writer("p", "w;").is_valid());
    assert!(Auth::root().is_valid());
}

#[test]
fn a_path_is_bound_root_first() {
    let statement =
        select_path(&Auth::root(), &Path::from_str("root->a<-b")).unwrap().unwrap();
    assert_eq!(statement.bind_v, vec!["root", "a", "b"]);
    assert_eq!(
        statement.sql,
        "SELECT v1.root\n\
         FROM (SELECT target AS root, id FROM edge WHERE source=? AND code=?) v0\n\
         JOIN (SELECT source AS root, target, id FROM edge WHERE code=?) v1 ON v1.target = v0.root\n\
         ORDER BY v1.id"
    );
    assert!(select_path(&Auth::root(), &Path::from_str("root")).unwrap().is_none());
    assert!(select_path(&Auth::root(), &Path::from_str("")).unwrap().is_none());
}

#[test]
fn a_fibre_is_read_and_deleted_by_node_and_code() {
    let auth = Auth::writer("blue", "w");
    let read = select_fibre(&auth, false, "t", "c").unwrap();
    assert_eq!(
        read.sql,
        "SELECT v0.root\n\
         FROM (SELECT source AS root, id FROM edge WHERE target=? AND code=? AND paper = 'blue') v0\n\
         ORDER BY v0.id"
    );
    assert_eq!(read.bind_v, vec!["t", "c"]);
    let gone = delete_fibre(&auth, true, "s", "c").unwrap();
    assert_eq!(gone.sql, "DELETE FROM edge WHERE source=? AND code=? AND paper = 'blue'");
    assert_eq!(gone.bind_v, vec!["s", "c"]);
    let gone = delete_fibre(&Auth::root(), false, "t", "c").unwrap();
    assert_eq!(gone.sql, "DELETE FROM edge WHERE target=? AND code=?");
    assert_eq!(gone.bind_v, vec!["t", "c"]);
}

#[test]
fn clearing_is_by_paper_for_a_writer_and_by_pen_for_a_printer() {
    let all = delete_all(&Auth::root());
    assert_eq!(all.sql, "DELETE FROM edge");
    assert!(all.bind_v.is_empty());
    let mine = delete_all(&Auth::writer("blue", "w"));
    assert_eq!(mine.sql, "DELETE FROM edge WHERE paper = ?");
    assert_eq!(mine.bind_v, vec!["blue"]);
    let mine = delete_all(&Auth::printer("w"));
    assert_eq!(mine.sql, "DELETE FROM edge WHERE pen = ?");
    assert_eq!(mine.bind_v, vec!["w"]);
}

#[test]
fn an_insert_holds_a_row_for_each_edge_with_paper_and_pen() {
    assert!(insert_edges(&Auth::root(), &vec![]).is_none());
    let one = insert_edges(&Auth::writer("blue", "w"), &vec![edge("a", "b", "c")]).unwrap();
    assert_eq!(one.sql, "INSERT INTO edge (source,code,target,paper,pen) VALUES (?,?,?,?,?)");
    assert_eq!(one.bind_v, vec!["a", "b", "c", "blue", "w"]);
    let two =
        insert_edges(&Auth::printer("w"), &vec![edge("a", "b", "c"), edge("d", "e", "f")]).unwrap();
    assert_eq!(
        two.sql,
        "INSERT INTO edge (source,code,target,paper,pen) VALUES (?,?,?,?,?),(?,?,?,?,?)"
    );
    assert_eq!(two.bind_v, vec!["a", "b", "c", "w", "w", "d", "e", "f", "w", "w"]);
    let root = insert_edges(&Auth::root(), &vec![edge("a", "b", "c")]).unwrap();
    assert_eq!(root.bind_v, vec!["a", "b", "c", "root", "root"]);
}

#[test]
fn two_papers_are_kept_apart_and_the_owner_of_everything_sees_both() {
    let first = Auth::writer("Blue", "w1");
    let second = Auth::writer("Red", "w2");
    let x = vec![edge("A", "b", "x")];
    assert_eq!(insert_edges(&first, &x).unwrap().bind_v, vec!["A", "b", "x", "Blue", "w1"]);
    assert_eq!(insert_edges(&second, &x).unwrap().bind_v, vec!["A", "b", "x", "Red", "w2"]);
    let own = select_fibre(&first, true, "A", "b").unwrap();
    assert!(own.sql.contains("WHERE source=? AND code=? AND paper = 'Blue')"));
    assert!(!own.sql.contains("Red"));
    let all = select_fibre(&Auth::root(), true, "A", "b").unwrap();
    assert!(all.sql.contains("WHERE source=? AND code=?)"));
    assert!(!all.sql.contains("paper"));
    assert!(!all.sql.contains("pen"));
    assert_eq!(first.paper(), "Blue");
    assert_eq!(first.pen(), "w1");
    assert_eq!(Auth::printer("w").paper(), "w");
    assert_eq!(Auth::printer("w").pen(), "w");
    assert!(Auth::root().is_root());
    assert!(!first.is_root());
}
