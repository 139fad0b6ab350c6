use edge::auth::Auth;
use edge::data::{AsDataManager, MemDataManager};
use edge::function;
use edge::path::Path;
use edge::resolver::{asign, get_all_by_path};

fn strings(items: &[&str]) -> Vec<String> {
    items.iter().map(|s| s.to_string()).collect()
}

fn get(dm: &mut MemDataManager, path: &str) -> Vec<String> {
    get_all_by_path(dm, &Path::from_str(path)).unwrap()
}

#[test]
fn setting_twice_is_setting_once() {
    let mut dm = MemDataManager::new(Auth::root());
    let x = strings(&["a", "", "b", "a"]);
    asign(&mut dm, "root->name", "=", &strings(&["old"])).unwrap();
    asign(&mut dm, "root->name", "=", &x).unwrap();
    let once = dm.get_target_v("root", "name").unwrap();
    asign(&mut dm, "root->name", "=", &x).unwrap();
    assert_eq!(dm.get_target_v("root", "name").unwrap(), once);
    assert_eq!(get(&mut dm, "root->name"), function::set(&x));
    assert_eq!(get(&mut dm, "root->name"), strings(&["a", "b", "a"]));
    asign(&mut dm, "t<-c", "=", &x).unwrap();
    asign(&mut dm, "t<-c", "=", &x).unwrap();
    assert_eq!(get(&mut dm, "t<-c"), strings(&["a", "b", "a"]));
}

#[test]
fn what_is_appended_later_comes_later() {
    let mut dm = MemDataManager::new(Auth::root());
    asign(&mut dm, "root->name", "=", &strings(&["x", "y"])).unwrap();
    asign(&mut dm, "root->name", "+=", &strings(&["a"])).unwrap();
    asign(&mut dm, "other->name", "+=", &strings(&["z"])).unwrap();
    asign(&mut dm, "root->name", "+=", &strings(&["b"])).unwrap();
    assert_eq!(get(&mut dm, "root->name"), strings(&["x", "y", "a", "b"]));
    asign(&mut dm, "root->name", "+=", &strings(&[""])).unwrap();
    asign(&mut dm, "root->name", "+=", &strings(&["a"])).unwrap();
    assert_eq!(get(&mut dm, "root->name"), strings(&["x", "y", "a", "b", "a"]));
    assert_eq!(dm.get_target_v("root", "name").unwrap(), strings(&["x", "y", "a", "b", "", "a"]));
    assert_eq!(dm.get_target("root", "name").unwrap(), "a");
    assert_eq!(dm.get_target("root", "none").unwrap(), "");
}

#[test]
fn clearing_leaves_what_is_temporary() {
    let mut dm = MemDataManager::new(Auth::writer("p", "w"));
    asign(&mut dm, "root->name", "=", &strings(&["x"])).unwrap();
    asign(&mut dm, "$r->$input", "=", &strings(&["y"])).unwrap();
    asign(&mut dm, "root->$local", "=", &strings(&["z"])).unwrap();
    dm.commit().unwrap();
    assert_eq!(get(&mut dm, "root->name"), strings(&["x"]));
    dm.clear().unwrap();
    assert!(get(&mut dm, "root->name").is_empty());
    assert_eq!(get(&mut dm, "$r->$input"), strings(&["y"]));
    assert_eq!(get(&mut dm, "root->$local"), strings(&["z"]));
    assert_eq!(dm.get_auth().paper(), "p");
    let mut other = dm.divide(Auth::root());
    assert!(get(&mut other, "$r->$input").is_empty());
    assert!(other.get_auth().is_root());
}
