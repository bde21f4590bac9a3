use requestr::ParamMap;
use requestr::RequestrError;
use requestr::Template;
use requestr::unused_parameters;
use requestr::validate_parameter;

fn b(s: &str) -> Vec<u8> {
    s.as_bytes().to_vec()
}

fn map_of(pairs: &[(&str, &str)]) -> ParamMap {
    let mut m = ParamMap::new();
    for (k, v) in pairs {
        m.insert(b(k), b(v));
    }
    m
}

#[test]
fn validate_success_no_missing_no_unused() {
    let t = Template::new(&b("Hello, {{name}}!"));
    let m = map_of(&[("name", "Ada")]);
    assert!(validate_parameter(&t, &m).is_ok());
    assert!(unused_parameters(&t, &m).is_empty());
}

#[test]
fn validate_reports_missing_names() {
    let t = Template::new(&b("{{a}}-{{b}}-{{a}}"));
    let m = map_of(&[("a", "x")]);
    match validate_parameter(&t, &m) {
        Err(RequestrError::MissingParameter(missing)) => {
            assert_eq!(missing, vec![b("b")]);
        }
        _ => panic!("expected a missing-parameter failure"),
    }
    assert_eq!(t.render(&m), b("x-{{b}}-x"));
}

#[test]
fn validate_empty_name_set_always_succeeds() {
    let t = Template::new(&b("static text"));
    assert!(validate_parameter(&t, &ParamMap::new()).is_ok());
    let m = map_of(&[("any", "thing")]);
    assert!(validate_parameter(&t, &m).is_ok());
}

#[test]
fn validate_unused_is_advisory_only() {
    let t = Template::new(&b("{{a}}"));
    let m = map_of(&[("a", "1"), ("extra", "2")]);
    assert!(validate_parameter(&t, &m).is_ok());
    assert_eq!(unused_parameters(&t, &m), vec![b("extra")]);
}

#[test]
fn validate_missing_in_first_seen_order() {
    let t = Template::new(&b("{{z}} {{y}} {{x}} {{z}}"));
    let m = map_of(&[("y", "ok")]);
    match validate_parameter(&t, &m) {
        Err(RequestrError::MissingParameter(missing)) => {
            assert_eq!(missing, vec![b("z"), b("x")]);
        }
        _ => panic!("expected a missing-parameter failure"),
    }
}

#[test]
fn validate_is_deterministic() {
    let t = Template::new(&b("{{a}} {{b}} {{c}}"));
    let m = map_of(&[("b", "1")]);
    let first = match validate_parameter(&t, &m) {
        Err(RequestrError::MissingParameter(missing)) => missing,
        _ => panic!("expected a missing-parameter failure"),
    };
    let second = match validate_parameter(&t, &m) {
        Err(RequestrError::MissingParameter(missing)) => missing,
        _ => panic!("expected a missing-parameter failure"),
    };
    assert_eq!(first, second);
    assert_eq!(first, vec![b("a"), b("c")]);
}

#[test]
fn validated_render_leaves_no_placeholder_unresolved() {
    let t = Template::new(&b("{{greeting}}, {{name}}! {{greeting}} again."));
    let m = map_of(&[("greeting", "Hi"), ("name", "Ada")]);
    assert!(validate_parameter(&t, &m).is_ok());
    assert_eq!(t.render(&m), b("Hi, Ada! Hi again."));
}
