use sql_script_parser::{
    sql_script_parser, SqlScript, SqlScriptParser, SqlScriptTokenizer, SqlToken, SqlTokenKind,
};

fn statements(source: &[u8]) -> Vec<&[u8]> {
    let mut parser = sql_script_parser(source);
    let mut out = vec![];
    while let Some(sql) = parser.next() {
        out.push(sql.statement);
    }
    out
}

fn scripts(source: &[u8]) -> Vec<(usize, usize, Vec<u8>)> {
    let mut parser = sql_script_parser(source);
    let mut out = vec![];
    while let Some(sql) = parser.next() {
        out.push((sql.start, sql.end, sql.statement.to_vec()));
    }
    out
}

fn tokens_of_first(source: &[u8]) -> Vec<(usize, usize, SqlTokenKind)> {
    let parser = sql_script_parser(source);
    let mut position: usize = 0;
    let (_, _, tokens) = parser.read_statement(&mut position).unwrap();
    tokens.iter().map(|t| (t.start, t.end, t.kind)).collect()
}

#[test]
fn parse_sql() {
    let test_script = br#"select 1;
alter table qqq add column bbb; -- line comment at the end
-- big comment;
--garbage
select * from dual
/* multi line comment
is here
see it */;
/**/
alter table me"#;

    let mut parser = sql_script_parser(test_script);

    let mut output = vec![];
    let mut sqls = vec![];
    while let Some(sql) = parser.next() {
        output.extend_from_slice(sql.statement);
        sqls.push(sql.statement);
    }
    assert_eq!(output, &test_script[..]);
    assert_eq!(sqls[0], b"select 1;\n");
    assert_eq!(
        sqls[1],
        &b"alter table qqq add column bbb; -- line comment at the end\n"[..]
    );
    assert_eq!(
        sqls[2],
        &br#"-- big comment;
--garbage
select * from dual
/* multi line comment
is here
see it */;
"#[..]
    );
    assert_eq!(sqls[3], b"/**/\nalter table me");
}

struct TestCommentSqlScriptTokenizer;

impl<'a> SqlScriptTokenizer<'a, SqlScript<'a>> for TestCommentSqlScriptTokenizer {
    fn apply(&self, sql_script: SqlScript<'a>, tokens: &[SqlToken]) -> SqlScript<'a> {
        assert_eq!(
            tokens.get(0).map(|x| x.extract(&sql_script)),
            Some(&b"/* comment */"[..])
        );
        sql_script
    }
}

#[test]
fn parse_comment() {
    let test_script = b"/* comment */ INSERT INTO table ...";
    let mut parser = SqlScriptParser::new(TestCommentSqlScriptTokenizer {}, test_script);

    let mut output = vec![];
    while let Some(sql) = parser.next() {
        output.extend_from_slice(sql.statement);
    }
    assert_eq!(output, &test_script[..]);
}

#[test]
fn round_trip_of_mixed_script() {
    let source = b"a;b; -- c\n'x;y' /* z; */ ;\r\n\r\n--d;e\"f";
    let joined: Vec<u8> = statements(source).concat();
    assert_eq!(joined, source.to_vec());
}

#[test]
fn parsing_twice_gives_the_same() {
    let source = b"select 1; select 'a;b' -- c\n; x";
    assert_eq!(scripts(source), scripts(source));
    assert_eq!(tokens_of_first(source), tokens_of_first(source));
}

#[test]
fn unterminated_constructs_run_to_the_end() {
    assert_eq!(statements(b"select 'abc;"), vec![&b"select 'abc;"[..]]);
    assert_eq!(statements(b"select /* x;"), vec![&b"select /* x;"[..]]);
    assert_eq!(statements(b"a;--"), vec![&b"a;"[..], &b"--"[..]]);
    assert_eq!(statements(b"a;b--"), vec![&b"a;"[..], &b"b--"[..]]);
    assert_eq!(statements(b"`x;"), vec![&b"`x;"[..]]);
}

#[test]
fn empty_input_yields_nothing() {
    let mut parser = sql_script_parser(b"");
    assert!(parser.next().is_none());
    assert!(parser.next().is_none());
}

#[test]
fn no_terminator_gives_one_statement() {
    assert_eq!(scripts(b"select 1"), vec![(0, 8, b"select 1".to_vec())]);
}

#[test]
fn quoted_semicolon_is_no_boundary() {
    assert_eq!(
        scripts(b"select ';';select 2"),
        vec![(0, 10, b"select ';';".to_vec()), (11, 19, b"select 2".to_vec())]
    );
}

#[test]
fn commented_semicolon_is_no_boundary() {
    assert_eq!(
        scripts(b"select 1 /* ; */; select 2"),
        vec![(0, 16, b"select 1 /* ; */; ".to_vec()), (18, 26, b"select 2".to_vec())]
    );
}

#[test]
fn trailing_comment_belongs_to_statement() {
    assert_eq!(
        scripts(b"a;-- note\nb"),
        vec![(0, 1, b"a;-- note\n".to_vec()), (10, 11, b"b".to_vec())]
    );
}

#[test]
fn dashes_without_space_are_symbols() {
    assert_eq!(
        tokens_of_first(b"a--b"),
        vec![
            (0, 1, SqlTokenKind::Word),
            (1, 2, SqlTokenKind::Symbol),
            (2, 3, SqlTokenKind::Symbol),
            (3, 4, SqlTokenKind::Word),
        ]
    );
    assert_eq!(
        tokens_of_first(b"-- a"),
        vec![(0, 4, SqlTokenKind::Comment)]
    );
}

#[test]
fn tokens_of_a_statement() {
    assert_eq!(
        tokens_of_first(b"x_1 \t= 'a''b' + \"c\\\"d\" /*e*/ -- f\ng;"),
        vec![
            (0, 3, SqlTokenKind::Word),
            (3, 5, SqlTokenKind::Space),
            (5, 6, SqlTokenKind::Symbol),
            (6, 7, SqlTokenKind::Space),
            (7, 13, SqlTokenKind::String),
            (13, 14, SqlTokenKind::Space),
            (14, 15, SqlTokenKind::Symbol),
            (15, 16, SqlTokenKind::Space),
            (16, 22, SqlTokenKind::String),
            (22, 23, SqlTokenKind::Space),
            (23, 28, SqlTokenKind::Comment),
            (28, 29, SqlTokenKind::Space),
            (29, 34, SqlTokenKind::Comment),
            (34, 35, SqlTokenKind::Word),
        ]
    );
}

#[test]
fn trailer_takes_blanks_comments_and_line_ends() {
    assert_eq!(
        statements(b"a; /* x */ \t/**/\r\n\r\nb"),
        vec![&b"a; /* x */ \t/**/\r\n\r\n"[..], &b"b"[..]]
    );
    assert_eq!(
        tokens_of_first(b"a; /* x */\n -- y"),
        vec![
            (0, 1, SqlTokenKind::Word),
            (2, 3, SqlTokenKind::Space),
            (3, 10, SqlTokenKind::Comment),
            (10, 11, SqlTokenKind::Space),
        ]
    );
    assert_eq!(statements(b"a;\n\n b"), vec![&b"a;\n\n"[..], &b" b"[..]]);
    assert_eq!(statements(b"a; x"), vec![&b"a; "[..], &b"x"[..]]);
}

#[test]
fn statement_ends_at_semicolon_or_source_end() {
    let mut position: usize = 0;
    let parser = sql_script_parser(b";;x");
    let (end, statement, tokens) = parser.read_statement(&mut position).unwrap();
    assert_eq!((end, statement, position), (0, &b";"[..], 1));
    assert!(tokens.is_empty());
    let (end, statement, _) = parser.read_statement(&mut position).unwrap();
    assert_eq!((end, statement, position), (1, &b";"[..], 2));
    let (end, statement, _) = parser.read_statement(&mut position).unwrap();
    assert_eq!((end, statement, position), (3, &b"x"[..], 3));
    assert!(parser.read_statement(&mut position).is_none());
}

#[test]
fn extract_reads_token_bytes() {
    let source = b"a; select 'q'";
    let mut parser = sql_script_parser(source);
    let mut position: usize = 3;
    let (_, _, tokens) = parser.read_statement(&mut position).unwrap();
    let _ = parser.next();
    let script = parser.next().unwrap();
    assert_eq!(script.start, 3);
    assert_eq!(tokens[0].extract(&script), b"select");
    assert_eq!(tokens[2].extract(&script), b"'q'");
}

#[test]
fn backtick_and_double_quote_strings() {
    assert_eq!(
        statements(b"select `a;``b`;x \"c;\";"),
        vec![&b"select `a;``b`;"[..], &b"x \"c;\";"[..]]
    );
}

#[test]
fn blanks_before_trailing_comment() {
    assert_eq!(
        statements(b"a;  \t-- c\nb"),
        vec![&b"a;  \t-- c\n"[..], &b"b"[..]]
    );
    assert_eq!(statements(b"a; \r-- c"), vec![&b"a; \r-- c"[..]]);
}

#[test]
fn third_dash_and_space_open_a_comment() {
    assert_eq!(
        tokens_of_first(b"a--- x"),
        vec![
            (0, 1, SqlTokenKind::Word),
            (1, 2, SqlTokenKind::Symbol),
            (2, 6, SqlTokenKind::Comment),
        ]
    );
}
