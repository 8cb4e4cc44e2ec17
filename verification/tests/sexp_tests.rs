use openrouting::sexp::Sexp;

#[test]
fn test_parse_atom() {
    let s = Sexp::parse("hello").unwrap();
    assert_eq!(s.as_atom(), Some("hello"));
}

#[test]
fn test_parse_list() {
    let s = Sexp::parse("(pcb test)").unwrap();
    let list = s.as_list().unwrap();
    assert_eq!(list.len(), 2);
    assert_eq!(list[0].as_atom(), Some("pcb"));
    assert_eq!(list[1].as_atom(), Some("test"));
}

#[test]
fn test_parse_quoted() {
    let s = Sexp::parse("(layer \"F.Cu\")").unwrap();
    let list = s.as_list().unwrap();
    assert_eq!(list[1].as_atom(), Some("F.Cu"));
}

#[test]
fn test_find() {
    let s = Sexp::parse("(pcb foo (resolution um 10))").unwrap();
    let res = s.find("resolution").unwrap();
    assert_eq!(res.name(), Some("resolution"));
}

#[test]
fn test_comment_hash() {
    let s = Sexp::parse("# comment\n(foo bar)").unwrap();
    assert_eq!(s.name(), Some("foo"));
}

#[test]
fn test_comment_slash() {
    let s = Sexp::parse("// comment\n(foo bar)").unwrap();
    assert_eq!(s.name(), Some("foo"));
}

#[test]
fn test_string_quote_directive() {
    // `(string_quote ")` holds a bare double quote as its value, not a string opener.
    let s = Sexp::parse("(parser (string_quote \") (host_cad \"KiCad\"))").unwrap();
    let sq = s.find("string_quote").unwrap();
    let items = sq.as_list().unwrap();
    assert_eq!(items[1].as_atom(), Some("\""), "string_quote value should be a bare dquote atom");
    let hc = s.find("host_cad").unwrap();
    let hc_items = hc.as_list().unwrap();
    assert_eq!(hc_items[1].as_atom(), Some("KiCad"));
}

#[test]
fn parse_unclosed_list_is_an_error() {
    let r = Sexp::parse("(pcb (a b)");
    assert_eq!(r.unwrap_err(), "Expected ')' but got None");
}

#[test]
fn parse_unterminated_string_is_an_error() {
    let r = Sexp::parse("(a \"abc");
    assert_eq!(r.unwrap_err(), "Unterminated string literal");
}

#[test]
fn parse_unterminated_escape_is_an_error() {
    let r = Sexp::parse("(a \"abc\\");
    assert_eq!(r.unwrap_err(), "Unterminated escape in string");
}

#[test]
fn parse_escapes_in_quoted_strings() {
    let s = Sexp::parse("(a \"x\\\"y\\\\z\")").unwrap();
    assert_eq!(s.as_list().unwrap()[1].as_atom(), Some("x\"y\\z"));
}

#[test]
fn parse_several_items_make_a_list() {
    let s = Sexp::parse("a b c").unwrap();
    let l = s.as_list().unwrap();
    assert_eq!(l.len(), 3);
    assert_eq!(l[2].as_atom(), Some("c"));
}

#[test]
fn parse_embedded_quotes_are_kept() {
    let s = Sexp::parse("(pins X14-\"D-\")").unwrap();
    assert_eq!(s.as_list().unwrap()[1].as_atom(), Some("X14-\"D-\""));
}

#[test]
fn parse_empty_input_is_an_empty_list() {
    let s = Sexp::parse("  ").unwrap();
    assert_eq!(s.as_list().unwrap().len(), 0);
    assert_eq!(s.name(), None);
}

#[test]
fn find_misses_give_none() {
    let s = Sexp::parse("(pcb (a 1) (b 2))").unwrap();
    assert!(s.find("c").is_none());
    assert_eq!(s.find("b").unwrap().as_list().unwrap()[1].as_atom(), Some("2"));
    let atom = Sexp::parse("x").unwrap();
    assert!(atom.find("x").is_none());
    assert!(atom.as_list().is_none());
}
