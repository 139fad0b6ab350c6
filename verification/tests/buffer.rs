use edge::auth::Auth;
use edge::buffer::{DataManager, Lookup};

fn strings(items: &[&str]) -> Vec<String> {
    items.iter().map(|s| s.to_string()).collect()
}

fn hit(lookup: Lookup) -> Vec<String> {
    match lookup {
        Lookup::Hit(item_v) => item_v,
        Lookup::Miss(statement) => panic!("asks the store: {}", statement.sql),
    }
}

fn miss(lookup: Lookup) -> (String, Vec<String>) {
    match lookup {
        Lookup::Hit(item_v) => panic!("answers from the table: {:?}", item_v),
        Lookup::Miss(statement) => (statement.sql, statement.bind_v),
    }
}

#[test]
fn a_manager_wants_identifiers_for_paper_and_pen() {
    assert!(DataManager::new(Auth::writer("p 1", "w")).is_none());
    assert!(DataManager::new(Auth::printer("w'")).is_none());
    let dm = DataManager::new(Auth::writer("blue", "w")).unwrap();
    assert!(dm.divide(Auth::printer("x;")).is_none());
    let other = dm.divide(Auth::printer("x")).unwrap();
    assert_eq!(other.get_auth().pen(), "x");
    assert_eq!(dm.get_auth().paper(), "blue");
}

#[test]
fn the_first_read_of_a_fibre_asks_the_store_and_later_ones_do_not() {
    let mut dm = DataManager::new(Auth::writer("blue", "w")).unwrap();
    let (sql, bind_v) = miss(dm.get_v(true, "root", "name"));
    assert_eq!(
        sql,
        "SELECT v0.root\n\
         FROM (SELECT target AS root, id FROM edge WHERE source=? AND code=? AND paper = 'blue') v0\n\
         ORDER BY v0.id"
    );
    assert_eq!(bind_v, vec!["root", "name"]);
    assert!(dm.cached().is_empty());
    dm.seed(true, "root", "name", &strings(&["a", "b"]));
    assert_eq!(hit(dm.get_v(true, "root", "name")), strings(&["a", "b"]));
    dm.seed(true, "root", "name", &strings(&["a", "b"]));
    assert_eq!(hit(dm.get_v(true, "root", "name")), strings(&["a", "b"]));
    assert_eq!(dm.cached(), strings(&["root->name"]));
    dm.seed(false, "t", "c", &strings(&[]));
    dm.set_v(true, "s", "c", &strings(&[]));
    dm.set_v(true, "$s", "c", &strings(&[]));
    assert_eq!(dm.cached(), strings(&["root->name", "t<-c", "s->c"]));
    assert_eq!(dm.commit().len(), 1);
    dm.settle();
    assert!(dm.cached().is_empty());
    dm.seed(true, "root", "name", &strings(&["a", "b"]));
    assert!(dm.commit().is_empty());
    let (sql, bind_v) = miss(dm.get_v(false, "root", "name"));
    assert!(sql.contains("WHERE target=? AND code=?"));
    assert_eq!(bind_v, vec!["root", "name"]);
}

#[test]
fn a_temporary_fibre_never_asks_the_store() {
    let mut dm = DataManager::new(Auth::root()).unwrap();
    assert!(hit(dm.get_v(true, "$r", "x")).is_empty());
    assert!(hit(dm.get_v(true, "r", "$x")).is_empty());
    assert!(hit(dm.get_v(false, "$r", "x")).is_empty());
    dm.append_v(true, "r", "$x", &strings(&["a"]));
    dm.set_v(false, "$t", "y", &strings(&["s"]));
    assert_eq!(hit(dm.get_v(true, "r", "$x")), strings(&["a"]));
    assert_eq!(hit(dm.get_v(false, "$t", "y")), strings(&["s"]));
    assert!(dm.commit().is_empty());
    dm.settle();
    assert_eq!(hit(dm.get_v(true, "r", "$x")), strings(&["a"]));
}

#[test]
fn appending_asks_nothing_and_comes_behind_what_is_read_later() {
    let mut dm = DataManager::new(Auth::root()).unwrap();
    dm.append_v(true, "root", "name", &strings(&["c"]));
    dm.append_v(false, "d", "name", &strings(&["root"]));
    let (_, bind_v) = miss(dm.get_v(true, "root", "name"));
    assert_eq!(bind_v, vec!["root", "name"]);
    dm.seed(true, "root", "name", &strings(&["a", "b"]));
    assert_eq!(hit(dm.get_v(true, "root", "name")), strings(&["a", "b", "c", "d"]));
    miss(dm.get_v(false, "a", "name"));
    dm.seed(false, "a", "name", &strings(&["root", "other"]));
    assert_eq!(hit(dm.get_v(false, "a", "name")), strings(&["root", "other"]));
    assert_eq!(hit(dm.get_v(true, "root", "name")), strings(&["a", "b", "c", "d"]));
    let plan = dm.commit();
    assert_eq!(plan.len(), 1);
    assert_eq!(
        plan[0].sql,
        "INSERT INTO edge (source,code,target,paper,pen) VALUES (?,?,?,?,?),(?,?,?,?,?)"
    );
    assert_eq!(
        plan[0].bind_v,
        vec!["root", "name", "c", "root", "root", "root", "name", "d", "root", "root"]
    );
}

#[test]
fn rows_that_the_session_has_deleted_are_not_taken_in() {
    let mut dm = DataManager::new(Auth::root()).unwrap();
    dm.set_v(false, "b", "name", &strings(&["new"]));
    miss(dm.get_v(true, "root", "name"));
    dm.seed(true, "root", "name", &strings(&["a", "b", "c", "b"]));
    assert_eq!(hit(dm.get_v(true, "root", "name")), strings(&["a", "c"]));
    miss(dm.get_v(true, "new", "name"));
    dm.seed(true, "new", "name", &strings(&["old"]));
    assert_eq!(hit(dm.get_v(true, "new", "name")), strings(&["old", "b"]));
    miss(dm.get_v(true, "other", "name"));
    dm.seed(true, "other", "name", &strings(&["a", "b"]));
    dm.set_v(false, "a", "name", &strings(&[]));
    assert_eq!(hit(dm.get_v(true, "root", "name")), strings(&["c"]));
    assert!(hit(dm.get_v(true, "other", "name")).is_empty());
    assert_eq!(dm.commit().len(), 3);
}

#[test]
fn setting_deletes_at_commit_before_it_inserts() {
    let mut dm = DataManager::new(Auth::writer("blue", "w")).unwrap();
    dm.set_v(true, "root", "name", &strings(&["a"]));
    dm.set_v(true, "root", "name", &strings(&["b", "$tmp"]));
    dm.set_v(false, "t", "c", &strings(&["s"]));
    assert_eq!(hit(dm.get_v(true, "root", "name")), strings(&["b", "$tmp"]));
    assert_eq!(hit(dm.get_v(false, "t", "c")), strings(&["s"]));
    let plan = dm.commit();
    assert_eq!(plan.len(), 3);
    assert_eq!(plan[0].sql, "DELETE FROM edge WHERE source=? AND code=? AND paper = 'blue'");
    assert_eq!(plan[0].bind_v, vec!["root", "name"]);
    assert_eq!(plan[1].sql, "DELETE FROM edge WHERE target=? AND code=? AND paper = 'blue'");
    assert_eq!(plan[1].bind_v, vec!["t", "c"]);
    assert_eq!(
        plan[2].sql,
        "INSERT INTO edge (source,code,target,paper,pen) VALUES (?,?,?,?,?),(?,?,?,?,?)"
    );
    assert_eq!(
        plan[2].bind_v,
        vec!["root", "name", "b", "blue", "w", "s", "c", "t", "blue", "w"]
    );
    let again = dm.commit();
    assert_eq!(again.len(), 3);
    dm.settle();
    assert!(dm.commit().is_empty());
    let (_, bind_v) = miss(dm.get_v(true, "root", "name"));
    assert_eq!(bind_v, vec!["root", "name"]);
}

#[test]
fn what_a_writer_commits_carries_its_paper_and_its_pen() {
    let mut dm = DataManager::new(Auth::writer("P", "W")).unwrap();
    dm.set_v(true, "a", "b", &strings(&["x", "y", "z"]));
    let plan = dm.commit();
    let insert = plan.last().unwrap();
    assert_eq!(insert.bind_v.len(), 15);
    for row in insert.bind_v.chunks(5) {
        assert_eq!(row[3], "P");
        assert_eq!(row[4], "W");
    }
}

#[test]
fn clearing_empties_the_table_and_the_store() {
    let mut dm = DataManager::new(Auth::printer("w")).unwrap();
    dm.seed(true, "root", "name", &strings(&["a"]));
    dm.set_v(true, "root", "other", &strings(&["b"]));
    dm.set_v(true, "$r", "local", &strings(&["c"]));
    dm.clear();
    assert!(hit(dm.get_v(true, "root", "name")).is_empty());
    assert!(hit(dm.get_v(true, "root", "other")).is_empty());
    assert!(hit(dm.get_v(true, "never", "read")).is_empty());
    assert_eq!(hit(dm.get_v(true, "$r", "local")), strings(&["c"]));
    dm.set_v(true, "root", "name", &strings(&["d"]));
    let plan = dm.commit();
    assert_eq!(plan.len(), 2);
    assert_eq!(plan[0].sql, "DELETE FROM edge WHERE pen = ?");
    assert_eq!(plan[0].bind_v, vec!["w"]);
    assert_eq!(plan[1].bind_v, vec!["root", "name", "d", "w", "w"]);
    dm.settle();
    assert!(dm.commit().is_empty());
    miss(dm.get_v(true, "never", "read"));
}
