use requestr::ParamMap;
use requestr::params_to_map;

fn b(s: &str) -> Vec<u8> {
    s.as_bytes().to_vec()
}

#[test]
fn param_map_get_after_insert() {
    let mut m = ParamMap::new();
    assert_eq!(m.len(), 0);
    m.insert(b("name"), b("Ada"));
    assert_eq!(m.len(), 1);
    assert_eq!(m.get(&b("name")), Some(&b("Ada")));
    assert_eq!(m.get(&b("other")), None);
}

#[test]
fn param_map_insert_replaces_value_keeps_order() {
    let mut m = ParamMap::new();
    m.insert(b("a"), b("1"));
    m.insert(b("b"), b("2"));
    m.insert(b("a"), b("3"));
    assert_eq!(m.len(), 2);
    assert_eq!(m.get(&b("a")), Some(&b("3")));
    assert_eq!(m.get(&b("b")), Some(&b("2")));
    assert_eq!(m.keys(), vec![b("a"), b("b")]);
}

#[test]
fn params_to_map_splits_at_first_equals() {
    let args = vec![b("a=1"), b("title=My title"), b("url=http://x/?q=1")];
    let m = params_to_map(&args);
    assert_eq!(m.get(&b("a")), Some(&b("1")));
    assert_eq!(m.get(&b("title")), Some(&b("My title")));
    assert_eq!(m.get(&b("url")), Some(&b("http://x/?q=1")));
}

#[test]
fn params_to_map_skips_arguments_without_equals() {
    let args = vec![b("a=1"), b("noequals"), b("b=2")];
    let m = params_to_map(&args);
    assert_eq!(m.len(), 2);
    assert_eq!(m.get(&b("noequals")), None);
    assert_eq!(m.get(&b("a")), Some(&b("1")));
    assert_eq!(m.get(&b("b")), Some(&b("2")));
}

#[test]
fn params_to_map_later_binding_wins() {
    let args = vec![b("a=1"), b("b=2"), b("a=9")];
    let m = params_to_map(&args);
    assert_eq!(m.len(), 2);
    assert_eq!(m.get(&b("a")), Some(&b("9")));
    assert_eq!(m.keys(), vec![b("a"), b("b")]);
}

#[test]
fn params_to_map_empty_key_and_value() {
    let args = vec![b("c="), b("=d")];
    let m = params_to_map(&args);
    assert_eq!(m.get(&b("c")), Some(&b("")));
    assert_eq!(m.get(&b("")), Some(&b("d")));
}
