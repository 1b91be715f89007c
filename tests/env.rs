use risp::env::Env;
use risp::parser::Object;

#[test]
fn get_walks_out_and_set_stays_local() {
    let mut root = Env::new();
    root.set("a", Object::Integer(1));
    root.set("b", Object::Integer(2));
    let mut child = Env::extend(root);
    assert_eq!(child.get("a"), Some(Object::Integer(1)));
    child.set("a", Object::Integer(10));
    assert_eq!(child.get("a"), Some(Object::Integer(10)));
    assert_eq!(child.get("b"), Some(Object::Integer(2)));
    assert_eq!(child.get("c"), None);
    child.pop_scope();
    assert_eq!(child.get("a"), Some(Object::Integer(1)));
}

#[test]
fn set_replaces_a_binding() {
    let mut env = Env::new();
    env.set("x", Object::Integer(1));
    env.set("x", Object::Bool(true));
    assert_eq!(env.get("x"), Some(Object::Bool(true)));
}
