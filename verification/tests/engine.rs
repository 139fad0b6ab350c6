use edge::auth::Auth;
use edge::data::{AsDataManager, MemDataManager};
use edge::engine::{get_one, invoke_inc, invoke_inc_v, unwrap_value, EdgeEngine};
use edge::err::ErrorKind;
use edge::function::ArithOp;
use edge::inc::Inc;
use edge::parser::parse_script;
use edge::path::Path;
use edge::resolver::{asign, get_all_by_path};
use edge::tree::ScriptTree;

fn arith(op: ArithOp, left: &String, right: &String) -> Option<String> {
    let a = left.parse::<f64>().ok()?;
    let b = right.parse::<f64>().ok()?;
    Some(match op {
        ArithOp::Add => (a + b).to_string(),
        ArithOp::Minus => (a - b).to_string(),
        ArithOp::Mul => (a * b).to_string(),
        ArithOp::Div => (a / b).to_string(),
        ArithOp::Rest => (a % b).to_string(),
        ArithOp::Equal => (a == b).to_string(),
        ArithOp::Greater => (a > b).to_string(),
        ArithOp::Smaller => (a < b).to_string(),
    })
}

fn strings(items: &[&str]) -> Vec<String> {
    items.iter().map(|s| s.to_string()).collect()
}

fn leaf(script: &str, name: &str) -> ScriptTree {
    ScriptTree { script: script.to_string(), name: name.to_string(), next_v: vec![] }
}

fn fork_tree() -> (String, String, ScriptTree) {
    let root = format!(
        "$->$left = new 100 100
$->$right = new 100 100
$->$output = + $->$left $->$right"
    );
    let then = format!("$->$output = rand $->$input _");
    let tree = ScriptTree {
        script: root.clone(),
        name: root.clone(),
        next_v: vec![ScriptTree { script: then.clone(), name: then.clone(), next_v: vec![] }],
    };
    (root, then, tree)
}

#[test]
fn mod_test() {
    let dm = MemDataManager::new(Auth::root());
    let (root, then, script_tree) = fork_tree();
    let mut edge_engine = EdgeEngine::new(dm, arith);
    let rs = edge_engine.execute(&script_tree).unwrap();
    edge_engine.commit().unwrap();
    let rs = rs.get(&root).unwrap().get(&then).unwrap();
    assert_eq!(rs.len(), 100);
    assert_eq!(rs.at(0).unwrap().len(), 200);
}

#[test]
fn engine_test() {
    let dm = MemDataManager::new(Auth::printer("root"));
    let (root, then, script_tree) = fork_tree();
    let mut edge_engine = EdgeEngine::new(dm, arith);
    let rs = edge_engine.execute(&script_tree).unwrap();
    edge_engine.commit().unwrap();
    let rs = rs.get(&root).unwrap().get(&then).unwrap();
    assert_eq!(rs.len(), 100);
    assert_eq!(rs.at(0).unwrap().len(), 200);
    let first = rs.at(0).unwrap().at(0).unwrap().as_str().unwrap();
    assert_eq!(first.len(), 32);
    assert!(first.chars().all(|c| c.is_ascii_digit() || ('a'..='f').contains(&c)));
}

#[test]
fn connector_test() {
    let dm = MemDataManager::new(Auth::printer("root"));
    let mut edge_engine = EdgeEngine::new(dm, arith);
    let name = "test";
    let ip = "0.0.0.0";
    let port = "8080";
    let path = "/test";
    let script = [
        &format!("$->$server_exists = inner root->web_server {name}<-name"),
        "$->$web_server = if $->$server_exists ?",
        &format!("$->$web_server->name = = {name} _"),
        &format!("$->$web_server->ip = = {ip} _"),
        &format!("$->$web_server->port = = {port} _"),
        &format!("$->$web_server->path = = {path} _"),
        "root->web_server += left $->$web_server $->$server_exists",
    ]
    .join("\n");
    edge_engine
        .execute(&ScriptTree { script, name: format!("info"), next_v: vec![] })
        .unwrap();
    edge_engine.commit().unwrap();
    let rs = get_all_by_path(edge_engine.dm(), &Path::from_str("root->web_server")).unwrap();
    assert!(!rs.is_empty());
    assert_eq!(rs.len(), 1);
    let server = rs[0].clone();
    let names =
        get_all_by_path(edge_engine.dm(), &Path::from_str(&format!("{server}->name"))).unwrap();
    assert_eq!(names, strings(&["test"]));
    let ports =
        get_all_by_path(edge_engine.dm(), &Path::from_str(&format!("{server}->port"))).unwrap();
    assert_eq!(ports, strings(&["8080"]));
}

#[test]
fn arithmetic_scenario() {
    let dm = MemDataManager::new(Auth::root());
    let mut edge_engine = EdgeEngine::new(dm, arith);
    let script =
        "$->$left = new 100 100\n$->$right = new 100 100\n$->$output = + $->$left $->$right";
    let rs = edge_engine.execute(&leaf(script, "sum")).unwrap();
    let out = rs.get("sum").unwrap();
    assert_eq!(out.len(), 100);
    for i in 0..100 {
        assert_eq!(out.at(i).unwrap().as_str(), Some("200"));
    }
}

#[test]
fn identity_scenario() {
    let mut dm = MemDataManager::new(Auth::root());
    dm.set_target_v("root", "name", &strings(&["edge"])).unwrap();
    let mut edge_engine = EdgeEngine::new(dm, arith);
    let rs = edge_engine.execute(&leaf("$->$output = = root->name _", "r")).unwrap();
    let out = rs.get("r").unwrap();
    assert_eq!(out.len(), 1);
    assert_eq!(out.at(0).unwrap().as_str(), Some("edge"));
}

#[test]
fn inner_and_left_scenario() {
    let mut dm = MemDataManager::new(Auth::root());
    dm.set_target_v("root", "a", &strings(&["1", "2", "3"])).unwrap();
    dm.set_target_v("root", "b", &strings(&["2", "3", "4"])).unwrap();
    let mut edge_engine = EdgeEngine::new(dm, arith);
    let rs = edge_engine.execute(&leaf("$->$output = inner root->a root->b", "r")).unwrap();
    let out = rs.get("r").unwrap();
    assert_eq!(out.len(), 2);
    assert_eq!(out.at(0).unwrap().as_str(), Some("2"));
    assert_eq!(out.at(1).unwrap().as_str(), Some("3"));
    let rs = edge_engine.execute(&leaf("$->$output = left root->a root->b", "r")).unwrap();
    let out = rs.get("r").unwrap();
    assert_eq!(out.len(), 1);
    assert_eq!(out.at(0).unwrap().as_str(), Some("1"));
}

fn define_function(dm: &mut MemDataManager, name: &str, function: &str) {
    let handle = format!("{name}-body");
    dm.append_target_v(name, "inc", &strings(&[&handle])).unwrap();
    dm.set_target_v(&handle, "output", &strings(&["$->$output"])).unwrap();
    dm.set_target_v(&handle, "operator", &strings(&["="])).unwrap();
    dm.set_target_v(&handle, "function", &strings(&[function])).unwrap();
    dm.set_target_v(&handle, "input", &strings(&["$->$input"])).unwrap();
    dm.set_target_v(&handle, "input1", &strings(&["$->$input1"])).unwrap();
}

#[test]
fn user_function_scenario() {
    let mut dm = MemDataManager::new(Auth::root());
    define_function(&mut dm, "F", "+");
    let mut edge_engine = EdgeEngine::new(dm, arith);
    let rs = edge_engine.execute(&leaf("$->$output = F \"3\" \"4\"", "r")).unwrap();
    let out = rs.get("r").unwrap();
    assert_eq!(out.len(), 1);
    assert_eq!(out.at(0).unwrap().as_str(), Some("7"));
}

#[test]
fn script_tree_scenario() {
    let mut dm = MemDataManager::new(Auth::root());
    dm.set_target_v("root", "x", &strings(&["u", "v"])).unwrap();
    let mut edge_engine = EdgeEngine::new(dm, arith);
    let tree = ScriptTree {
        script: "$->$output = = root->x _".to_string(),
        name: "r".to_string(),
        next_v: vec![leaf("$->$output = = $->$input _", "echo")],
    };
    let rs = edge_engine.execute(&tree).unwrap();
    assert_eq!(rs.len(), 1);
    let r = rs.get("r").unwrap();
    assert_eq!(r.len(), 1);
    let echo = r.get("echo").unwrap();
    assert_eq!(echo.len(), 2);
    assert_eq!(echo.at(0).unwrap().len(), 1);
    assert_eq!(echo.at(0).unwrap().at(0).unwrap().as_str(), Some("u"));
    assert_eq!(echo.at(1).unwrap().len(), 1);
    assert_eq!(echo.at(1).unwrap().at(0).unwrap().as_str(), Some("v"));
}

#[test]
fn a_node_without_results_reports_an_empty_object() {
    let dm = MemDataManager::new(Auth::root());
    let mut edge_engine = EdgeEngine::new(dm, arith);
    let tree = ScriptTree {
        script: "$->$output = = root->nothing _".to_string(),
        name: "r".to_string(),
        next_v: vec![leaf("$->$output = = $->$input _", "echo")],
    };
    let rs = edge_engine.execute(&tree).unwrap();
    let r = rs.get("r").unwrap();
    assert_eq!(r.len(), 0);
    assert!(r.get("echo").is_none());
    assert!(r.at(0).is_none());
}

#[test]
fn a_line_that_is_not_five_tokens_is_refused_before_anything_is_written() {
    let dm = MemDataManager::new(Auth::root());
    let mut edge_engine = EdgeEngine::new(dm, arith);
    let e = edge_engine.execute(&leaf("root->a = = b", "r")).unwrap_err();
    assert_eq!(e.kind(), ErrorKind::InvalidScript);
    let seen = edge_engine.dm().get_target_v("root", "a").unwrap();
    assert!(seen.is_empty());
}

#[test]
fn an_unknown_function_is_an_error_of_resolution() {
    let dm = MemDataManager::new(Auth::root());
    let mut edge_engine = EdgeEngine::new(dm, arith);
    let e = edge_engine.execute(&leaf("root->a = nothing b _", "r")).unwrap_err();
    assert_eq!(e.kind(), ErrorKind::Resolution);
    assert_eq!(e.to_string(), "Resolution: unknown function");
}

#[test]
fn an_operator_that_resolves_to_nothing_is_an_error_of_resolution() {
    let dm = MemDataManager::new(Auth::root());
    let mut edge_engine = EdgeEngine::new(dm, arith);
    let e = edge_engine.execute(&leaf("root->a root->op = b _", "r")).unwrap_err();
    assert_eq!(e.kind(), ErrorKind::Resolution);
    assert_eq!(e.msg(), "Not found");
}

#[test]
fn new_with_two_counts_is_refused() {
    let mut dm = MemDataManager::new(Auth::root());
    dm.set_target_v("root", "n", &strings(&["1", "2"])).unwrap();
    let mut edge_engine = EdgeEngine::new(dm, arith);
    let e = edge_engine.execute(&leaf("root->a = new root->n x", "r")).unwrap_err();
    assert_eq!(e.kind(), ErrorKind::InvalidArgs);
}

#[test]
fn a_function_that_calls_itself_runs_out_of_depth() {
    let mut dm = MemDataManager::new(Auth::root());
    define_function(&mut dm, "again", "again");
    let mut edge_engine = EdgeEngine::with_depth(dm, arith, 5);
    let e = edge_engine.execute(&leaf("$->$output = again a b", "r")).unwrap_err();
    assert_eq!(e.kind(), ErrorKind::Other);
}

#[test]
fn a_user_function_needs_one_level_of_depth() {
    let mut dm = MemDataManager::new(Auth::root());
    define_function(&mut dm, "F", "+");
    let inc = Inc {
        output: "root->sum".to_string(),
        operator: "=".to_string(),
        function: "F".to_string(),
        input: "1".to_string(),
        input1: "2".to_string(),
    };
    let e = invoke_inc(&mut dm, &arith, "", &inc, 0).unwrap_err();
    assert_eq!(e.kind(), ErrorKind::Other);
    invoke_inc(&mut dm, &arith, "", &inc, 1).unwrap();
    assert_eq!(dm.get_target_v("root", "sum").unwrap(), strings(&["3"]));
}

#[test]
fn an_instruction_appends_unless_its_operator_is_the_equals_sign() {
    let mut dm = MemDataManager::new(Auth::root());
    let inc_v = parse_script("root->a += append x y\nroot->a += = z _\n$->$output = = root->a _")
        .unwrap();
    let rs = invoke_inc_v(&mut dm, &arith, "$here", &inc_v, 1).unwrap();
    assert_eq!(rs, strings(&["x", "y", "z"]));
    let inc_v = parse_script("root->a = = w _\n$->$output = count root->a _").unwrap();
    let rs = invoke_inc_v(&mut dm, &arith, "$here", &inc_v, 1).unwrap();
    assert_eq!(rs, strings(&["1"]));
}

#[test]
fn values_are_substituted() {
    assert_eq!(unwrap_value("$r", "$"), "$r");
    assert_eq!(unwrap_value("$r", "_"), "");
    assert_eq!(unwrap_value("$r", "$->$input"), "$r->$input");
    assert_eq!(unwrap_value("$r", "$<-$input"), "$r<-$input");
    assert_eq!(unwrap_value("$r", "\"a b\""), "\"a b\"");
    assert_eq!(unwrap_value("$r", "root->a"), "root->a");
    assert_eq!(unwrap_value("$r", "$x"), "$x");
    let fresh = unwrap_value("$r", "?");
    assert_eq!(fresh.len(), 36);
    assert_ne!(fresh, unwrap_value("$r", "?"));
}

#[test]
fn get_one_wants_exactly_one_endpoint() {
    let mut dm = MemDataManager::new(Auth::root());
    dm.set_target_v("root", "one", &strings(&["a"])).unwrap();
    dm.set_target_v("root", "two", &strings(&["a", "b"])).unwrap();
    assert_eq!(get_one(&mut dm, "$r", "root->one").unwrap(), "a");
    assert_eq!(get_one(&mut dm, "$r", "$").unwrap(), "$r");
    assert_eq!(get_one(&mut dm, "$r", "root->two").unwrap_err().kind(), ErrorKind::Resolution);
    assert_eq!(get_one(&mut dm, "$r", "root->none").unwrap_err().kind(), ErrorKind::Resolution);
    assert_eq!(get_one(&mut dm, "$r", "_").unwrap_err().kind(), ErrorKind::Resolution);
    assert_eq!(get_one(&mut dm, "$r", "?").unwrap().len(), 36);
}

#[test]
fn assigning_to_a_path_without_hops_changes_nothing() {
    let mut dm = MemDataManager::new(Auth::root());
    asign(&mut dm, "root", "=", &strings(&["a"])).unwrap();
    asign(&mut dm, "", "=", &strings(&["a"])).unwrap();
    assert!(dm.get_target_v("root", "").unwrap().is_empty());
    assert!(dm.get_source_v("", "a").unwrap().is_empty());
}

#[test]
fn assigning_backward_writes_sources() {
    let mut dm = MemDataManager::new(Auth::root());
    asign(&mut dm, "child<-parent", "=", &strings(&["p", "q"])).unwrap();
    assert_eq!(dm.get_target_v("p", "parent").unwrap(), strings(&["child"]));
    assert_eq!(dm.get_source_v("parent", "child").unwrap(), strings(&["p", "q"]));
    assert_eq!(dm.get_source("parent", "child").unwrap(), "q");
    assert_eq!(dm.get_source("parent", "nobody").unwrap(), "");
    asign(&mut dm, "child<-parent", "+=", &strings(&["r"])).unwrap();
    assert_eq!(
        get_all_by_path(&mut dm, &Path::from_str("child<-parent")).unwrap(),
        strings(&["p", "q", "r"])
    );
}

#[test]
fn a_path_of_two_hops_walks_every_endpoint_in_order() {
    let mut dm = MemDataManager::new(Auth::root());
    dm.set_target_v("root", "a", &strings(&["x", "y"])).unwrap();
    dm.set_target_v("y", "b", &strings(&["p"])).unwrap();
    dm.set_target_v("x", "b", &strings(&["q", "r"])).unwrap();
    let rs = get_all_by_path(&mut dm, &Path::from_str("root->a->b")).unwrap();
    assert_eq!(rs, strings(&["q", "r", "p"]));
    asign(&mut dm, "root->a->c", "=", &strings(&["z"])).unwrap();
    assert_eq!(dm.get_target_v("x", "c").unwrap(), strings(&["z"]));
    assert_eq!(dm.get_target_v("y", "c").unwrap(), strings(&["z"]));
    assert_eq!(
        get_all_by_path(&mut dm, &Path::from_str("root->a->c")).unwrap(),
        strings(&["z", "z"])
    );
}

#[test]
fn an_empty_root_leads_nowhere() {
    let mut dm = MemDataManager::new(Auth::root());
    dm.set_target_v("", "a", &strings(&["x"])).unwrap();
    assert!(get_all_by_path(&mut dm, &Path::from_str("->a")).unwrap().is_empty());
    assert!(get_all_by_path(&mut dm, &Path::from_str("")).unwrap().is_empty());
    assert_eq!(get_all_by_path(&mut dm, &Path::from_str("root")).unwrap(), strings(&["root"]));
    assert_eq!(get_all_by_path(&mut dm, &Path::from_str("\"a->b\"")).unwrap(), strings(&["a->b"]));
}

#[test]
fn a_built_in_that_refuses_its_arguments_writes_nothing() {
    let mut dm = MemDataManager::new(Auth::root());
    dm.set_target_v("root", "out", &strings(&["kept"])).unwrap();
    let inc = Inc {
        output: "root->out".to_string(),
        operator: "=".to_string(),
        function: "new".to_string(),
        input: "".to_string(),
        input1: "x".to_string(),
    };
    let e = invoke_inc(&mut dm, &arith, "", &inc, 3).unwrap_err();
    assert_eq!(e.kind(), ErrorKind::InvalidArgs);
    assert_eq!(dm.get_target_v("root", "out").unwrap(), strings(&["kept"]));
}

#[test]
fn an_unknown_function_writes_nothing() {
    let mut dm = MemDataManager::new(Auth::root());
    dm.set_target_v("root", "out", &strings(&["kept"])).unwrap();
    let inc = Inc {
        output: "root->out".to_string(),
        operator: "=".to_string(),
        function: "nothing".to_string(),
        input: "a".to_string(),
        input1: "b".to_string(),
    };
    let e = invoke_inc(&mut dm, &arith, "", &inc, 3).unwrap_err();
    assert_eq!(e.kind(), ErrorKind::Resolution);
    assert_eq!(dm.get_target_v("root", "out").unwrap(), strings(&["kept"]));
    assert!(dm.get_target_v("nothing", "inc").unwrap().is_empty());
}

#[test]
fn a_script_runs_as_far_as_the_line_that_fails() {
    let mut dm = MemDataManager::new(Auth::root());
    let inc_v =
        parse_script("root->a = = x _\nroot->b = new two x\nroot->c = = z _").unwrap();
    let e = invoke_inc_v(&mut dm, &arith, "$here", &inc_v, 1).unwrap_err();
    assert_eq!(e.kind(), ErrorKind::InvalidArgs);
    assert_eq!(dm.get_target_v("root", "a").unwrap(), strings(&["x"]));
    assert!(dm.get_target_v("root", "b").unwrap().is_empty());
    assert!(dm.get_target_v("root", "c").unwrap().is_empty());
}

#[test]
fn an_empty_script_reports_an_empty_list() {
    let dm = MemDataManager::new(Auth::root());
    let mut edge_engine = EdgeEngine::new(dm, arith);
    let rs = edge_engine.execute(&leaf("", "r")).unwrap();
    assert_eq!(rs.get("r").unwrap().len(), 0);
    let rs = edge_engine.execute(&leaf("\n\n", "r")).unwrap();
    assert_eq!(rs.get("r").unwrap().len(), 0);
}
