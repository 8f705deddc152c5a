use deva::decl_table::DeclTable;
use deva::lex_parser::LexParser;
use deva::resolver::LexError;

#[test]
fn declarations_test() {
    let lines = vec![
        r"delim [ \t]+".to_string(),
        r"ws    [ \t]++".to_string(),
        r"letter [A-Za-z]".to_string(),
        r"digit [0-9]".to_string(),
        r"ident {letter}({letter}|{digit})*".to_string(),
        r"number {digit}+(\.{digit}+)?(E[+\-]?{digit}+)?".to_string(),
        r"%%".to_string(),
        r"rules go here".to_string(),
        r"%%".to_string(),
        r"functions go here".to_string(),
    ];
    let mut parser = LexParser::new();

    let r = parser.exec(&lines);

    assert!(r.is_ok());
    assert!(parser.is_parse_finish());
    assert_eq!(parser.declarations.get(&"delim".to_string()), Some(&r"[ \t]+".to_string()));
    assert_eq!(parser.declarations.get(&"ws".to_string()), Some(&r"[ \t]++".to_string()));
    assert_eq!(parser.declarations.get(&"letter".to_string()), Some(&r"[A-Za-z]".to_string()));
    assert_eq!(parser.declarations.get(&"digit".to_string()), Some(&r"[0-9]".to_string()));
    assert_eq!(
        parser.declarations.get(&"ident".to_string()),
        Some(&r"[A-Za-z]([A-Za-z]|[0-9])*".to_string())
    );
    assert_eq!(
        parser.declarations.get(&"number".to_string()),
        Some(&r"[0-9]+(\.[0-9]+)?(E[+\-]?[0-9]+)?".to_string())
    );
}

#[test]
fn resolve_reference_test() {
    let mut decl_map = DeclTable::new();
    decl_map.insert("2".to_string(), "3".to_string());
    decl_map.insert("1".to_string(), "{2}".to_string());
    decl_map.insert("c".to_string(), "bar".to_string());
    decl_map.insert("b".to_string(), "{c}{1}".to_string());
    decl_map.insert("a".to_string(), "{b}foo{b}".to_string());
    let mut resolved = String::new();

    let r = LexParser::resolve_referece(&"a".to_string(), &mut resolved, &decl_map);

    assert!(r.is_ok());
    assert_eq!(resolved, "bar3foobar3".to_string());
}

#[test]
fn extract_curly_brackets_empty_test() {
    let mut decl_map = DeclTable::new();
    decl_map.insert("a".to_string(), "{b}foo{b}".to_string());
    let mut resolved = String::new();
    let r = LexParser::resolve_referece(&"hoge".to_string(), &mut resolved, &decl_map);
    assert!(r.is_ok());
    assert_eq!(resolved, "".to_string());
}

#[test]
fn extract_curly_brackets_duplicate_error_test() {
    let mut decl_map = DeclTable::new();
    decl_map.insert("a".to_string(), "{{b}".to_string());
    let mut resolved = String::new();
    let r = LexParser::resolve_referece(&"a".to_string(), &mut resolved, &decl_map);
    assert_eq!(r, Err(LexError::DuplicateOpenBrace));
}

#[test]
fn extract_curly_brackets_duplicate_error_test_2() {
    let mut decl_map = DeclTable::new();
    decl_map.insert("a".to_string(), "{b}}".to_string());
    let mut resolved = String::new();
    let r = LexParser::resolve_referece(&"a".to_string(), &mut resolved, &decl_map);
    assert_eq!(r, Err(LexError::DuplicateCloseBrace));
}

#[test]
fn resolve_plain_value_unchanged_test() {
    let mut decl_map = DeclTable::new();
    decl_map.insert("x".to_string(), "plain text (no references)".to_string());
    let mut resolved = String::new();
    let r = LexParser::resolve_referece(&"x".to_string(), &mut resolved, &decl_map);
    assert!(r.is_ok());
    assert_eq!(resolved, "plain text (no references)".to_string());
}

#[test]
fn unknown_reference_keeps_literal_text_test() {
    let mut decl_map = DeclTable::new();
    decl_map.insert("a".to_string(), "foo{missing}bar".to_string());
    let mut resolved = String::new();
    let r = LexParser::resolve_referece(&"a".to_string(), &mut resolved, &decl_map);
    assert!(r.is_ok());
    assert_eq!(resolved, "foobar".to_string());
}

#[test]
fn unterminated_reference_test() {
    let mut decl_map = DeclTable::new();
    decl_map.insert("a".to_string(), "foo{b".to_string());
    let mut resolved = String::new();
    let r = LexParser::resolve_referece(&"a".to_string(), &mut resolved, &decl_map);
    assert_eq!(r, Err(LexError::UnterminatedReference));
}

#[test]
fn cyclic_reference_direct_test() {
    let mut decl_map = DeclTable::new();
    decl_map.insert("a".to_string(), "x{a}y".to_string());
    let mut resolved = String::new();
    let r = LexParser::resolve_referece(&"a".to_string(), &mut resolved, &decl_map);
    assert_eq!(r, Err(LexError::CyclicReference));
}

#[test]
fn cyclic_reference_indirect_test() {
    let mut decl_map = DeclTable::new();
    decl_map.insert("a".to_string(), "{b}".to_string());
    decl_map.insert("b".to_string(), "{a}".to_string());
    let mut resolved = String::new();
    let r = LexParser::resolve_referece(&"a".to_string(), &mut resolved, &decl_map);
    assert_eq!(r, Err(LexError::CyclicReference));
}

#[test]
fn whitespace_collapsing_test() {
    let lines = vec![r"ws    [ \t]++".to_string()];
    let mut parser = LexParser::new();
    let r = parser.exec(&lines);
    assert!(r.is_ok());
    assert_eq!(parser.declarations.get(&"ws".to_string()), Some(&r"[ \t]++".to_string()));
}

#[test]
fn phase_transition_test() {
    let lines = vec![
        r"delim [ \t]+".to_string(),
        "%%".to_string(),
        "anything".to_string(),
        "%%".to_string(),
    ];
    let mut parser = LexParser::new();
    let r = parser.exec(&lines);
    assert!(r.is_ok());
    assert!(parser.is_parse_finish());
    assert_eq!(parser.declarations.get(&"delim".to_string()), Some(&r"[ \t]+".to_string()));
    assert_eq!(parser.declarations.get(&"anything".to_string()), None);
    assert_eq!(parser.declarations.items().len(), 1);
}

#[test]
fn delimiter_with_surrounding_whitespace_test() {
    let lines = vec!["a 1".to_string(), "  %%  ".to_string(), "b 2".to_string()];
    let mut parser = LexParser::new();
    let r = parser.exec(&lines);
    assert!(r.is_ok());
    assert_eq!(parser.declarations.get(&"a".to_string()), Some(&"1".to_string()));
    assert_eq!(parser.declarations.get(&"b".to_string()), None);
}

#[test]
fn invalid_phase_transition_test() {
    let lines = vec!["%%".to_string(), "%%".to_string(), "%%".to_string()];
    let mut parser = LexParser::new();
    let r = parser.exec(&lines);
    assert_eq!(r, Err(LexError::InvalidPhaseTransition));
}

#[test]
fn end_to_end_ident_test() {
    let lines = vec![
        "letter [A-Za-z]".to_string(),
        "digit [0-9]".to_string(),
        "ident {letter}({letter}|{digit})*".to_string(),
        "%%".to_string(),
        "...".to_string(),
    ];
    let mut parser = LexParser::new();
    let r = parser.exec(&lines);
    assert!(r.is_ok());
    assert_eq!(
        parser.declarations.get(&"ident".to_string()),
        Some(&"[A-Za-z]([A-Za-z]|[0-9])*".to_string())
    );
}

#[test]
fn last_write_wins_test() {
    let lines = vec!["a one".to_string(), "a two".to_string()];
    let mut parser = LexParser::new();
    let r = parser.exec(&lines);
    assert!(r.is_ok());
    assert_eq!(parser.declarations.get(&"a".to_string()), Some(&"two".to_string()));
}

#[test]
fn forward_reference_resolves_to_empty_test() {
    let lines = vec!["x {y}".to_string(), "y z".to_string()];
    let mut parser = LexParser::new();
    let r = parser.exec(&lines);
    assert!(r.is_ok());
    assert_eq!(parser.declarations.get(&"x".to_string()), Some(&"".to_string()));
    assert_eq!(parser.declarations.get(&"y".to_string()), Some(&"z".to_string()));
}

#[test]
fn blank_lines_ignored_test() {
    let lines = vec!["".to_string(), "   ".to_string(), "\t".to_string()];
    let mut parser = LexParser::new();
    let r = parser.exec(&lines);
    assert!(r.is_ok());
    assert_eq!(parser.declarations.items().len(), 0);
}

#[test]
fn new_parser_not_finished_test() {
    let parser = LexParser::new();
    assert!(!parser.is_parse_finish());
}

#[test]
fn malformed_declaration_fails_run_test() {
    let lines = vec!["a {{b}".to_string()];
    let mut parser = LexParser::new();
    let r = parser.exec(&lines);
    assert_eq!(r, Err(LexError::DuplicateOpenBrace));
}

#[test]
fn items_in_insertion_order_test() {
    let mut decl_map = DeclTable::new();
    decl_map.insert("a".to_string(), "1".to_string());
    decl_map.insert("b".to_string(), "2".to_string());
    decl_map.insert("a".to_string(), "3".to_string());
    let items = decl_map.items();
    assert_eq!(
        items,
        vec![("a".to_string(), "3".to_string()), ("b".to_string(), "2".to_string())]
    );
}
