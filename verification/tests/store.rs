use std::cell::RefCell;
use std::rc::Rc;

use edge::auth::Auth;
use edge::buffer::DataManager;
use edge::data::AsDataManager;
use edge::engine::EdgeEngine;
use edge::err::{Error, ErrorKind};
use edge::function::ArithOp;
use edge::path::Path;
use edge::resolver::{asign, get_all_by_path};
use edge::sql::{select_path, Statement};
use edge::tree::ScriptTree;

#[derive(Clone, Debug, PartialEq)]
struct Row {
    source: String,
    code: String,
    target: String,
    paper: String,
    pen: String,
    id: u64,
}

#[derive(Default)]
struct Store {
    row_v: Vec<Row>,
    next_id: u64,
    statements: usize,
    down: bool,
}

fn quoted(text: &str, column: &str) -> Option<String> {
    let mark = format!(" AND {column} = '");
    let start = text.find(&mark)? + mark.len();
    let end = text[start..].find('\'')? + start;
    Some(text[start..end].to_string())
}

fn sees(level: &str, row: &Row) -> bool {
    quoted(level, "paper").map_or(true, |paper| row.paper == paper)
        && quoted(level, "pen").map_or(true, |pen| row.pen == pen)
}

impl Store {
    fn put(&mut self, source: &str, code: &str, target: &str, paper: &str, pen: &str) {
        self.next_id += 1;
        self.row_v.push(Row {
            source: source.to_string(),
            code: code.to_string(),
            target: target.to_string(),
            paper: paper.to_string(),
            pen: pen.to_string(),
            id: self.next_id,
        });
    }

    fn select(&self, statement: &Statement) -> Vec<String> {
        let level_v: Vec<&str> = statement.sql.split("\nJOIN ").collect();
        let mut reached: Vec<(String, u64)> = vec![(statement.bind_v[0].clone(), 0)];
        for (i, level) in level_v.iter().enumerate() {
            let forward = level.contains("SELECT target AS root");
            let code = &statement.bind_v[i + 1];
            let mut next = Vec::new();
            for (node, _) in &reached {
                for row in &self.row_v {
                    let (from, to) =
                        if forward { (&row.source, &row.target) } else { (&row.target, &row.source) };
                    if from == node && &row.code == code && sees(level, row) {
                        next.push((to.clone(), row.id));
                    }
                }
            }
            reached = next;
        }
        reached.sort_by_key(|(_, id)| *id);
        reached.into_iter().map(|(node, _)| node).collect()
    }

    fn change(&mut self, statement: &Statement) {
        let sql = statement.sql.as_str();
        let bind_v = &statement.bind_v;
        if sql.starts_with("INSERT INTO edge (source,code,target,paper,pen) VALUES ") {
            for row in bind_v.chunks(5) {
                self.put(&row[0], &row[1], &row[2], &row[3], &row[4]);
            }
        } else if sql == "DELETE FROM edge" {
            self.row_v.clear();
        } else if sql == "DELETE FROM edge WHERE paper = ?" {
            self.row_v.retain(|row| row.paper != bind_v[0]);
        } else if sql == "DELETE FROM edge WHERE pen = ?" {
            self.row_v.retain(|row| row.pen != bind_v[0]);
        } else if sql.starts_with("DELETE FROM edge WHERE source=? AND code=?") {
            self.row_v
                .retain(|row| !(row.source == bind_v[0] && row.code == bind_v[1] && sees(sql, row)));
        } else if sql.starts_with("DELETE FROM edge WHERE target=? AND code=?") {
            self.row_v
                .retain(|row| !(row.target == bind_v[0] && row.code == bind_v[1] && sees(sql, row)));
        } else {
            panic!("no statement of the engine: {sql}");
        }
    }
}

fn away() -> Error {
    Error::new(ErrorKind::BadConnection, "the store is away".to_string())
}

struct Session {
    store: Rc<RefCell<Store>>,
    buffer: DataManager,
}

impl Session {
    fn new(store: &Rc<RefCell<Store>>, auth: Auth) -> Session {
        Session { store: store.clone(), buffer: DataManager::new(auth).unwrap() }
    }

    fn read(&mut self, forward: bool, node: &str, code: &str) -> Result<Vec<String>, Error> {
        let store = &self.store;
        self.buffer.read_through(
            &|statement: &Statement| {
                let mut store = store.borrow_mut();
                if store.down {
                    return Err(away());
                }
                store.statements += 1;
                Ok(store.select(statement))
            },
            forward,
            node,
            code,
        )
    }

    fn append(&mut self, forward: bool, node: &str, code: &str, item_v: &Vec<String>) {
        self.buffer.append_v(forward, node, code, item_v);
    }
}

impl AsDataManager for Session {
    fn get_target(&mut self, source: &str, code: &str) -> Result<String, Error> {
        Ok(self.read(true, source, code)?.pop().unwrap_or_default())
    }

    fn get_source(&mut self, code: &str, target: &str) -> Result<String, Error> {
        Ok(self.read(false, target, code)?.pop().unwrap_or_default())
    }

    fn get_target_v(&mut self, source: &str, code: &str) -> Result<Vec<String>, Error> {
        self.read(true, source, code)
    }

    fn get_source_v(&mut self, code: &str, target: &str) -> Result<Vec<String>, Error> {
        self.read(false, target, code)
    }

    fn append_target_v(
        &mut self,
        source: &str,
        code: &str,
        target_v: &Vec<String>,
    ) -> Result<(), Error> {
        self.append(true, source, code, target_v);
        Ok(())
    }

    fn append_source_v(
        &mut self,
        source_v: &Vec<String>,
        code: &str,
        target: &str,
    ) -> Result<(), Error> {
        self.append(false, target, code, source_v);
        Ok(())
    }

    fn set_target_v(
        &mut self,
        source: &str,
        code: &str,
        target_v: &Vec<String>,
    ) -> Result<(), Error> {
        self.buffer.set_v(true, source, code, target_v);
        Ok(())
    }

    fn set_source_v(
        &mut self,
        source_v: &Vec<String>,
        code: &str,
        target: &str,
    ) -> Result<(), Error> {
        self.buffer.set_v(false, target, code, source_v);
        Ok(())
    }

    fn clear(&mut self) -> Result<(), Error> {
        self.buffer.clear();
        Ok(())
    }

    fn commit(&mut self) -> Result<(), Error> {
        let store = &self.store;
        self.buffer.commit_through(&|plan: &Vec<Statement>| {
            let mut store = store.borrow_mut();
            if store.down {
                return Err(away());
            }
            for statement in plan {
                store.statements += 1;
                store.change(statement);
            }
            Ok(())
        })
    }
}

fn arith(op: ArithOp, left: &String, right: &String) -> Option<String> {
    let a = left.parse::<f64>().ok()?;
    let b = right.parse::<f64>().ok()?;
    Some(match op {
        ArithOp::Add => (a + b).to_string(),
        ArithOp::Minus => (a - b).to_string(),
        ArithOp::Mul => (a * b).to_string(),
        ArithOp::Div => (a / b).to_string(),
        ArithOp::Rest => (a % b).to_string(),
        ArithOp::Equal => (a == b).to_string(),
        ArithOp::Greater => (a > b).to_string(),
        ArithOp::Smaller => (a < b).to_string(),
    })
}

fn strings(items: &[&str]) -> Vec<String> {
    items.iter().map(|s| s.to_string()).collect()
}

fn get(dm: &mut Session, path: &str) -> Vec<String> {
    get_all_by_path(dm, &Path::from_str(path)).unwrap()
}

fn run(store: &Rc<RefCell<Store>>, auth: Auth, script: &str) -> Vec<String> {
    let mut edge_engine = EdgeEngine::new(Session::new(store, auth), arith);
    let tree = ScriptTree { script: script.to_string(), name: "out".to_string(), next_v: vec![] };
    let rs = edge_engine.execute(&tree).unwrap();
    edge_engine.commit().unwrap();
    let out = rs.get("out").unwrap();
    (0..out.len()).map(|i| out.at(i).unwrap().as_str().unwrap().to_string()).collect()
}

#[test]
fn two_writers_in_two_papers_and_the_one_who_sees_all() {
    let store = Rc::new(RefCell::new(Store::default()));
    run(&store, Auth::writer("Blue", "ann"), "A->b = = x _");
    run(&store, Auth::writer("Red", "bob"), "A->b = = x _");
    assert_eq!(run(&store, Auth::root(), "$->$output = = A->b _"), strings(&["x", "x"]));
    assert_eq!(run(&store, Auth::writer("Blue", "cat"), "$->$output = = A->b _"), strings(&["x"]));
    assert_eq!(run(&store, Auth::printer("bob"), "$->$output = = A->b _"), strings(&["x"]));
    assert!(run(&store, Auth::printer("cat"), "$->$output = = A->b _").is_empty());
    let row_v = store.borrow().row_v.clone();
    assert_eq!(row_v.len(), 2);
    assert_eq!((row_v[0].paper.as_str(), row_v[0].pen.as_str()), ("Blue", "ann"));
    assert_eq!((row_v[1].paper.as_str(), row_v[1].pen.as_str()), ("Red", "bob"));
}

#[test]
fn what_a_session_commits_is_stamped_with_its_paper_and_pen() {
    let store = Rc::new(RefCell::new(Store::default()));
    run(&store, Auth::writer("Blue", "ann"), "root->n = new 3 x\nroot->m += = y _");
    run(&store, Auth::printer("bob"), "root->n += = z _");
    run(&store, Auth::root(), "root->n += = w _");
    let row_v = store.borrow().row_v.clone();
    assert_eq!(row_v.len(), 6);
    for row in &row_v[0..4] {
        assert_eq!((row.paper.as_str(), row.pen.as_str()), ("Blue", "ann"));
    }
    assert_eq!((row_v[4].paper.as_str(), row_v[4].pen.as_str()), ("bob", "bob"));
    assert_eq!((row_v[5].paper.as_str(), row_v[5].pen.as_str()), ("root", "root"));
    assert_eq!(row_v[3].target, "y");
    assert_eq!(row_v[5].target, "w");
}

#[test]
fn a_read_gives_what_the_query_gives() {
    let store = Rc::new(RefCell::new(Store::default()));
    {
        let mut s = store.borrow_mut();
        s.put("root", "a", "x", "Blue", "ann");
        s.put("root", "a", "y", "Red", "bob");
        s.put("root", "a", "z", "Blue", "bob");
        s.put("x", "b", "p", "Blue", "ann");
        s.put("z", "b", "q", "Blue", "ann");
        s.put("q", "c", "z", "Blue", "ann");
    }
    for auth in [Auth::root(), Auth::writer("Blue", "w"), Auth::printer("bob")] {
        for path in ["root->a", "z<-a", "z<-c->c", "root->a->b", "q<-b<-a", "none->a"] {
            let direct = select_path(&auth, &Path::from_str(path)).unwrap().unwrap();
            let expected = store.borrow().select(&direct);
            let mut dm = Session::new(&store, auth.clone());
            assert_eq!(get(&mut dm, path), expected);
            assert_eq!(get(&mut dm, path), expected);
        }
    }
    let mut dm = Session::new(&store, Auth::writer("Blue", "w"));
    assert_eq!(get(&mut dm, "root->a"), strings(&["x", "z"]));
    assert_eq!(get(&mut dm, "root->a->b"), strings(&["p", "q"]));
    assert_eq!(dm.get_target("root", "a").unwrap(), "z");
    assert_eq!(dm.get_source("a", "y").unwrap(), "");
}

#[test]
fn a_walk_goes_endpoint_by_endpoint_and_a_join_by_the_age_of_the_last_edge() {
    let store = Rc::new(RefCell::new(Store::default()));
    {
        let mut s = store.borrow_mut();
        s.put("root", "a", "x", "w", "w");
        s.put("root", "a", "y", "w", "w");
        s.put("y", "b", "p", "w", "w");
        s.put("x", "b", "q", "w", "w");
    }
    let path = Path::from_str("root->a->b");
    let direct = select_path(&Auth::root(), &path).unwrap().unwrap();
    assert_eq!(store.borrow().select(&direct), strings(&["p", "q"]));
    let mut dm = Session::new(&store, Auth::root());
    assert_eq!(get_all_by_path(&mut dm, &path).unwrap(), strings(&["q", "p"]));
}

#[test]
fn a_fibre_is_read_from_the_store_once() {
    let store = Rc::new(RefCell::new(Store::default()));
    store.borrow_mut().put("root", "a", "x", "w", "w");
    let mut dm = Session::new(&store, Auth::root());
    assert_eq!(get(&mut dm, "root->a"), strings(&["x"]));
    assert_eq!(store.borrow().statements, 1);
    store.borrow_mut().put("root", "a", "later", "w", "w");
    assert_eq!(get(&mut dm, "root->a"), strings(&["x"]));
    asign(&mut dm, "root->a", "+=", &strings(&["y"])).unwrap();
    assert_eq!(get(&mut dm, "root->a"), strings(&["x", "y"]));
    assert_eq!(store.borrow().statements, 1);
    assert_eq!(dm.buffer.cached(), strings(&["root->a"]));
}

#[test]
fn a_row_is_the_same_from_either_end() {
    let store = Rc::new(RefCell::new(Store::default()));
    {
        let mut s = store.borrow_mut();
        s.put("w", "paper", "p", "root", "root");
        s.put("w", "paper", "q", "root", "root");
        s.put("v", "paper", "p", "root", "root");
    }
    let mut dm = Session::new(&store, Auth::root());
    assert_eq!(get(&mut dm, "w->paper"), strings(&["p", "q"]));
    assert_eq!(get(&mut dm, "p<-paper"), strings(&["w", "v"]));
    assert_eq!(get(&mut dm, "w->paper"), strings(&["p", "q"]));
    assert_eq!(get(&mut dm, "p<-paper->paper"), strings(&["p", "q", "p"]));
    asign(&mut dm, "p<-paper", "=", &strings(&["u"])).unwrap();
    assert_eq!(get(&mut dm, "w->paper"), strings(&["q"]));
    assert_eq!(get(&mut dm, "v->paper"), Vec::<String>::new());
    assert_eq!(get(&mut dm, "u->paper"), strings(&["p"]));
    assert_eq!(get(&mut dm, "p<-paper"), strings(&["u"]));
    dm.commit().unwrap();
    assert_eq!(get(&mut dm, "w->paper"), strings(&["q"]));
    assert_eq!(get(&mut dm, "p<-paper"), strings(&["u"]));
    let mut other = Session::new(&store, Auth::root());
    assert_eq!(get(&mut other, "p<-paper"), strings(&["u"]));
    assert_eq!(get(&mut other, "q<-paper"), strings(&["w"]));
}

#[test]
fn what_is_appended_before_a_fibre_is_read_comes_behind_what_the_store_holds() {
    let store = Rc::new(RefCell::new(Store::default()));
    store.borrow_mut().put("root", "a", "x", "root", "root");
    let mut dm = Session::new(&store, Auth::root());
    asign(&mut dm, "root->a", "+=", &strings(&["a"])).unwrap();
    asign(&mut dm, "b<-a", "+=", &strings(&["root"])).unwrap();
    assert_eq!(store.borrow().statements, 0);
    assert_eq!(get(&mut dm, "root->a"), strings(&["x", "a", "b"]));
    assert_eq!(store.borrow().statements, 1);
    dm.commit().unwrap();
    let mut other = Session::new(&store, Auth::root());
    assert_eq!(get(&mut other, "root->a"), strings(&["x", "a", "b"]));
}

#[test]
fn appending_comes_behind_what_the_store_holds() {
    let store = Rc::new(RefCell::new(Store::default()));
    store.borrow_mut().put("root", "a", "x", "root", "root");
    let mut dm = Session::new(&store, Auth::root());
    asign(&mut dm, "root->a", "+=", &strings(&["a"])).unwrap();
    asign(&mut dm, "root->a", "+=", &strings(&["b"])).unwrap();
    assert_eq!(get(&mut dm, "root->a"), strings(&["x", "a", "b"]));
    dm.commit().unwrap();
    assert_eq!(get(&mut dm, "root->a"), strings(&["x", "a", "b"]));
    let mut other = Session::new(&store, Auth::root());
    assert_eq!(get(&mut other, "root->a"), strings(&["x", "a", "b"]));
}

#[test]
fn setting_twice_leaves_the_store_with_one_copy() {
    let store = Rc::new(RefCell::new(Store::default()));
    store.borrow_mut().put("root", "a", "old", "root", "root");
    let mut dm = Session::new(&store, Auth::root());
    let x = strings(&["a", "b"]);
    asign(&mut dm, "root->a", "=", &x).unwrap();
    asign(&mut dm, "root->a", "=", &x).unwrap();
    assert_eq!(get(&mut dm, "root->a"), x);
    assert_eq!(store.borrow().statements, 0);
    dm.commit().unwrap();
    assert_eq!(store.borrow().statements, 2);
    assert_eq!(get(&mut dm, "root->a"), x);
    let targets: Vec<String> = store.borrow().row_v.iter().map(|r| r.target.clone()).collect();
    assert_eq!(targets, x);
}

#[test]
fn what_is_temporary_never_reaches_the_store() {
    let store = Rc::new(RefCell::new(Store::default()));
    store.borrow_mut().put("root", "a", "x", "root", "root");
    let before = store.borrow().row_v.clone();
    let out = run(
        &store,
        Auth::root(),
        "$->$left = new 3 2\n$->$right = new 3 5\n$->$sum = + $->$left $->$right\n$->$output = count $->$sum _",
    );
    assert_eq!(out, strings(&["3"]));
    assert_eq!(store.borrow().row_v, before);
    assert_eq!(store.borrow().statements, 0);
    let mut dm = Session::new(&store, Auth::root());
    asign(&mut dm, "root->$note", "=", &strings(&["n"])).unwrap();
    asign(&mut dm, "$r->a", "+=", &strings(&["n"])).unwrap();
    asign(&mut dm, "root->a", "+=", &strings(&["$n"])).unwrap();
    assert_eq!(get(&mut dm, "root->a"), strings(&["x", "$n"]));
    dm.commit().unwrap();
    assert_eq!(store.borrow().row_v, before);
    assert_eq!(get(&mut dm, "root->$note"), strings(&["n"]));
    assert_eq!(get(&mut dm, "$r->a"), strings(&["n"]));
    assert_eq!(get(&mut dm, "root->a"), strings(&["x", "$n"]));
    let mut other = Session::new(&store, Auth::root());
    assert_eq!(get(&mut other, "root->a"), strings(&["x"]));
    assert!(get(&mut other, "root->$note").is_empty());
}

#[test]
fn a_store_that_fails_loses_nothing() {
    let store = Rc::new(RefCell::new(Store::default()));
    store.borrow_mut().put("root", "a", "x", "root", "root");
    let mut dm = Session::new(&store, Auth::root());
    asign(&mut dm, "root->b", "=", &strings(&["y"])).unwrap();
    store.borrow_mut().down = true;
    assert_eq!(dm.commit().unwrap_err().kind(), ErrorKind::BadConnection);
    assert_eq!(dm.get_target_v("root", "a").unwrap_err().kind(), ErrorKind::BadConnection);
    asign(&mut dm, "root->a", "+=", &strings(&["z"])).unwrap();
    assert_eq!(get(&mut dm, "root->b"), strings(&["y"]));
    assert_eq!(store.borrow().row_v.len(), 1);
    store.borrow_mut().down = false;
    assert_eq!(get(&mut dm, "root->a"), strings(&["x", "z"]));
    dm.commit().unwrap();
    assert_eq!(store.borrow().row_v.len(), 3);
    assert_eq!(store.borrow().row_v[1].target, "y");
    assert_eq!(store.borrow().row_v[2].target, "z");
    dm.commit().unwrap();
    assert_eq!(store.borrow().row_v.len(), 3);
}

#[test]
fn clearing_removes_what_the_session_may_write_and_no_more() {
    let store = Rc::new(RefCell::new(Store::default()));
    {
        let mut s = store.borrow_mut();
        s.put("root", "a", "x", "Blue", "ann");
        s.put("root", "a", "y", "Red", "ann");
        s.put("root", "a", "z", "Blue", "bob");
    }
    let mut dm = Session::new(&store, Auth::writer("Blue", "ann"));
    assert_eq!(get(&mut dm, "root->a"), strings(&["x", "z"]));
    dm.clear().unwrap();
    assert!(get(&mut dm, "root->a").is_empty());
    asign(&mut dm, "root->a", "+=", &strings(&["new"])).unwrap();
    assert_eq!(store.borrow().row_v.len(), 3);
    dm.commit().unwrap();
    let left: Vec<(String, String)> =
        store.borrow().row_v.iter().map(|r| (r.target.clone(), r.paper.clone())).collect();
    assert_eq!(
        left,
        vec![("y".to_string(), "Red".to_string()), ("new".to_string(), "Blue".to_string())]
    );
    let mut printer = Session::new(&store, Auth::printer("ann"));
    printer.clear().unwrap();
    printer.commit().unwrap();
    assert!(store.borrow().row_v.is_empty());
}
