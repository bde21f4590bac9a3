use requestr::ParamMap;
use requestr::Template;

fn b(s: &str) -> Vec<u8> {
    s.as_bytes().to_vec()
}

fn map_of(pairs: &[(&str, &str)]) -> ParamMap {
    let mut m = ParamMap::new();
    for (k, v) in pairs {
        m.insert(b(k), b(v));
    }
    m
}

#[test]
fn render_single_placeholder() {
    let t = Template::new(&b("Hello, {{name}}!"));
    let m = map_of(&[("name", "Ada")]);
    assert_eq!(t.render(&m), b("Hello, Ada!"));
}

#[test]
fn render_doc_example() {
    let t = Template::new(&b("Hi, my name is {{name}} and I'm a {{lang}} developer."));
    let m = map_of(&[("name", "Michael"), ("lang", "Rust")]);
    assert_eq!(t.render(&m), b("Hi, my name is Michael and I'm a Rust developer."));
    let m2 = map_of(&[("name", "Vader"), ("lang", "Dart")]);
    assert_eq!(t.render(&m2), b("Hi, my name is Vader and I'm a Dart developer."));
}

#[test]
fn render_repeated_name_partial_binding() {
    let t = Template::new(&b("{{a}}-{{b}}-{{a}}"));
    let m = map_of(&[("a", "x")]);
    assert_eq!(t.render(&m), b("x-{{b}}-x"));
}

#[test]
fn render_static_text_unchanged() {
    let t = Template::new(&b("static text"));
    let m = map_of(&[("anything", "at all")]);
    assert_eq!(t.render(&m), b("static text"));
    assert_eq!(t.matches.len(), 0);
    assert_eq!(t.names.len(), 0);
}

#[test]
fn render_inner_whitespace_trimmed() {
    let t = Template::new(&b("{{ spaced }}"));
    let m = map_of(&[("spaced", "ok")]);
    assert_eq!(t.names, vec![b("spaced")]);
    assert_eq!(t.render(&m), b("ok"));
}

#[test]
fn render_adjacent_placeholders() {
    let t = Template::new(&b("{{x}}{{y}}"));
    let m = map_of(&[("x", "1"), ("y", "2")]);
    assert_eq!(t.render(&m), b("12"));
}

#[test]
fn render_unbound_keeps_delimiters() {
    let t = Template::new(&b("x {{q}} y"));
    let m = ParamMap::new();
    assert_eq!(t.render(&m), b("x {{q}} y"));
}

#[test]
fn render_empty_text() {
    let t = Template::new(&b(""));
    let m = ParamMap::new();
    assert_eq!(t.render(&m), b(""));
}

#[test]
fn render_does_not_rescan_values() {
    let t = Template::new(&b("{{a}}"));
    let m = map_of(&[("a", "{{a}}"), ("b", "nested")]);
    assert_eq!(t.render(&m), b("{{a}}"));
}

#[test]
fn parse_records_byte_offsets() {
    let t = Template::new(&b("Hello, {{name}}!"));
    assert_eq!(t.src, b("Hello, {{name}}!"));
    assert_eq!(t.matches, vec![(7, 15)]);
    assert_eq!(t.names, vec![b("name")]);
}

#[test]
fn parse_deduplicates_names_in_first_seen_order() {
    let t = Template::new(&b("{{b}}{{a}}{{b}}{{c}}{{a}}"));
    assert_eq!(t.names, vec![b("b"), b("a"), b("c")]);
    assert_eq!(t.matches.len(), 5);
}

#[test]
fn parse_empty_name_is_a_placeholder() {
    let t = Template::new(&b("{{}} and {{ }}"));
    assert_eq!(t.matches, vec![(0, 4), (9, 14)]);
    assert_eq!(t.names, vec![b("")]);
    let m = map_of(&[("", "void")]);
    assert_eq!(t.render(&m), b("void and void"));
}

#[test]
fn parse_unterminated_marker_is_literal() {
    let t = Template::new(&b("oops {{name"));
    assert_eq!(t.matches.len(), 0);
    let m = map_of(&[("name", "x")]);
    assert_eq!(t.render(&m), b("oops {{name"));
}

#[test]
fn parse_name_with_inner_space_is_literal() {
    let t = Template::new(&b("{{a b}}"));
    assert_eq!(t.matches.len(), 0);
    let m = map_of(&[("a", "1"), ("b", "2"), ("a b", "3")]);
    assert_eq!(t.render(&m), b("{{a b}}"));
}

#[test]
fn parse_scan_is_leftmost_nonoverlapping() {
    let t = Template::new(&b("{{{x}}}"));
    assert_eq!(t.matches, vec![(0, 6)]);
    assert_eq!(t.names, vec![b("{x")]);
    let m = map_of(&[("{x", "v")]);
    assert_eq!(t.render(&m), b("v}"));
}

#[test]
fn render_multibyte_text_passes_through() {
    let t = Template::new(&b("héllo {{name}} ✓"));
    let m = map_of(&[("name", "wörld")]);
    assert_eq!(t.render(&m), b("héllo wörld ✓"));
}
