use morsql::ast::{BinaryOp, ColumnSelector, Filter, Query, Selection, Table, UnaryOp};
use morsql::parser::{expression, p_string, parse_sql, query};

#[test]
fn strings_work() {
    assert_eq!(p_string("\"foo\""), Ok("foo".to_owned()));
    assert_eq!(p_string("\"\""), Ok("".to_owned()));
}

#[test]
fn whole_query() {
    assert_eq!(
        query("SELECT name, id\nFROM users\nWHERE name == \"Harry\""),
        Ok(Query {
            selection: Selection::Columns(vec![
                ColumnSelector {
                    table: None,
                    field: "name".to_owned()
                },
                ColumnSelector {
                    table: None,
                    field: "id".to_owned()
                },
            ]),
            tables: vec![Table {
                table_name: "users".to_owned(),
                alias: None
            }],
            filter: Filter::BinaryOp(
                BinaryOp::Eq,
                Box::new(Filter::Id(ColumnSelector {
                    table: None,
                    field: "name".to_owned()
                })),
                Box::new(Filter::LitS("Harry".to_owned()))
            )
        })
    )
}

#[test]
fn filter_not() {
    assert_eq!(
        expression("NOT x && y"),
        Ok(Filter::BinaryOp(
            BinaryOp::And,
            Box::new(Filter::UnaryOp(
                UnaryOp::Not,
                Box::new(Filter::Id(ColumnSelector {
                    table: None,
                    field: "x".to_owned()
                }))
            )),
            Box::new(Filter::Id(ColumnSelector {
                table: None,
                field: "y".to_owned()
            }))
        ))
    );
}

#[test]
fn filter_and_or() {
    let x = Filter::Id(ColumnSelector {
        table: None,
        field: "x".to_owned(),
    });
    let y = Filter::Id(ColumnSelector {
        table: None,
        field: "y".to_owned(),
    });
    let z = Filter::Id(ColumnSelector {
        table: None,
        field: "z".to_owned(),
    });

    assert_eq!(
        expression("x||y"),
        Ok(Filter::BinaryOp(
            BinaryOp::Or,
            Box::new(x.clone()),
            Box::new(y.clone())
        ))
    );

    assert_eq!(
        expression("x||y&&z"),
        Ok(Filter::BinaryOp(
            BinaryOp::Or,
            Box::new(x.clone()),
            Box::new(Filter::BinaryOp(
                BinaryOp::And,
                Box::new(y.clone()),
                Box::new(z.clone())
            ))
        ))
    );

    assert_eq!(
        expression("x&&y||z"),
        Ok(Filter::BinaryOp(
            BinaryOp::Or,
            Box::new(Filter::BinaryOp(
                BinaryOp::And,
                Box::new(x.clone()),
                Box::new(y.clone())
            )),
            Box::new(z.clone())
        ))
    );

    assert_eq!(
        expression("(x && y) && z"),
        Ok(Filter::BinaryOp(
            BinaryOp::And,
            Box::new(Filter::BinaryOp(
                BinaryOp::And,
                Box::new(x.clone()),
                Box::new(y.clone())
            )),
            Box::new(z.clone())
        ))
    );

    assert_eq!(
        expression("x&&  (y&&z)"),
        Ok(Filter::BinaryOp(
            BinaryOp::And,
            Box::new(x),
            Box::new(Filter::BinaryOp(BinaryOp::And, Box::new(y), Box::new(z))),
        ))
    );
}

#[test]
fn keywords_are_case_insensitive() {
    let q = parse_sql("select * from users where TRUE").unwrap();
    assert_eq!(q.selection, Selection::Star);
    assert_eq!(q.tables[0].table_name, "users");
    assert_eq!(q.filter, Filter::LitB(true));
}

#[test]
fn table_alias_is_recorded() {
    let q = parse_sql("SELECT * FROM users AS u WHERE false").unwrap();
    assert_eq!(
        q.tables,
        vec![Table {
            table_name: "users".to_owned(),
            alias: Some("u".to_owned())
        }]
    );
    assert_eq!(q.filter, Filter::LitB(false));
}

#[test]
fn qualified_selectors_and_operators() {
    let f = expression("users.age < 30 == true").unwrap();
    // single shared tier, left-associative
    assert_eq!(
        f,
        Filter::BinaryOp(
            BinaryOp::Eq,
            Box::new(Filter::BinaryOp(
                BinaryOp::Lt,
                Box::new(Filter::Id(ColumnSelector {
                    table: Some("users".to_owned()),
                    field: "age".to_owned()
                })),
                Box::new(Filter::LitI(30))
            )),
            Box::new(Filter::LitB(true))
        )
    );
}

#[test]
fn like_parses_but_remains_an_operator() {
    let f = expression("name LIKE \"H\"").unwrap();
    assert_eq!(
        f,
        Filter::BinaryOp(
            BinaryOp::Like,
            Box::new(Filter::Id(ColumnSelector {
                table: None,
                field: "name".to_owned()
            })),
            Box::new(Filter::LitS("H".to_owned()))
        )
    );
}

#[test]
fn integer_literal_edges() {
    assert_eq!(expression("-9223372036854775808"), Ok(Filter::LitI(i64::MIN)));
    assert_eq!(expression("9223372036854775807"), Ok(Filter::LitI(i64::MAX)));
    assert!(expression("9223372036854775808").is_err());
    assert!(expression("-9223372036854775809").is_err());
    assert_eq!(expression("-0"), Ok(Filter::LitI(0)));
}

#[test]
fn parse_failures() {
    assert!(parse_sql("").is_err());
    assert!(parse_sql("SELECT FROM t WHERE x").is_err());
    assert!(parse_sql("SELECT * FROM t").is_err());
    assert!(parse_sql("SELECT * FROM t WHERE").is_err());
    assert!(parse_sql("SELECT * FROM t WHERE x ?").is_err());
    // unterminated string
    assert!(expression("\"abc").is_err());
    // invalid escape
    assert!(expression("\"a\\q\"").is_err());
    // a lone '=' is not an operator
    assert!(expression("x = y").is_err());
    // a keyword cannot stand as a column name
    assert!(parse_sql("SELECT true FROM t WHERE x").is_err());
    // trailing content after a complete query is rejected
    assert!(parse_sql("SELECT * FROM t WHERE x y").is_err());
}

#[test]
fn string_escapes_kept_raw() {
    assert_eq!(p_string("\"a\\nb\""), Ok("a\\nb".to_owned()));
    assert_eq!(p_string("\"a\\\"b\""), Ok("a\\\"b".to_owned()));
}

#[test]
fn render_filter_round_trip() {
    let f = Filter::BinaryOp(
        BinaryOp::Or,
        Box::new(Filter::BinaryOp(
            BinaryOp::Lt,
            Box::new(Filter::Id(ColumnSelector {
                table: Some("t".to_owned()),
                field: "age".to_owned(),
            })),
            Box::new(Filter::LitI(-42)),
        )),
        Box::new(Filter::UnaryOp(
            UnaryOp::Not,
            Box::new(Filter::LitB(true)),
        )),
    );
    let text = f.render();
    assert_eq!(expression(&text), Ok(f));
}

#[test]
fn render_query_round_trip() {
    let q = Query {
        selection: Selection::Columns(vec![
            ColumnSelector {
                table: Some("users".to_owned()),
                field: "name".to_owned(),
            },
            ColumnSelector {
                table: None,
                field: "id".to_owned(),
            },
        ]),
        tables: vec![
            Table {
                table_name: "users".to_owned(),
                alias: Some("u".to_owned()),
            },
            Table {
                table_name: "pets".to_owned(),
                alias: None,
            },
        ],
        filter: Filter::BinaryOp(
            BinaryOp::Eq,
            Box::new(Filter::Id(ColumnSelector {
                table: None,
                field: "name".to_owned(),
            })),
            Box::new(Filter::LitS("Harry".to_owned())),
        ),
    };
    let text = q.render();
    assert_eq!(parse_sql(&text), Ok(q));
}

#[test]
fn render_int_min_round_trip() {
    let f = Filter::LitI(i64::MIN);
    assert_eq!(f.render(), "-9223372036854775808 ");
    assert_eq!(expression(&f.render()), Ok(f));
}

#[test]
fn render_exact_text() {
    assert_eq!(UnaryOp::Not.render(), "NOT");
    assert_eq!(BinaryOp::And.render(), "&&");
    assert_eq!(BinaryOp::Like.render(), "LIKE");
    assert_eq!(Selection::Star.render(), "* ");
    let sel = ColumnSelector {
        table: Some("tab".to_owned()),
        field: "field".to_owned(),
    };
    assert_eq!(sel.render(), "tab . field ");
    let t = Table {
        table_name: "users".to_owned(),
        alias: Some("u".to_owned()),
    };
    assert_eq!(t.render(), "users AS u ");
    let q = parse_sql("SELECT name, id FROM users WHERE name == \"Harry\"").unwrap();
    assert_eq!(
        q.render(),
        "SELECT name , id FROM users WHERE ( name == \"Harry\" ) "
    );
    assert_eq!(parse_sql(&q.render()), Ok(q));
}

#[test]
fn deep_filter_round_trip() {
    let mut f = Filter::LitB(false);
    let names = ["a", "b", "c", "d", "e"];
    let mut k: usize = 0;
    while k < names.len() {
        let leaf = Filter::Id(ColumnSelector {
            table: None,
            field: names[k].to_owned(),
        });
        f = Filter::BinaryOp(
            BinaryOp::Or,
            Box::new(Filter::UnaryOp(UnaryOp::Not, Box::new(leaf))),
            Box::new(f),
        );
        k += 1;
    }
    assert_eq!(expression(&f.render()), Ok(f));
}
