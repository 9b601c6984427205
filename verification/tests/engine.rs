use morsql::ast::{ColumnSelector, IndexedColumnSelector, IndexedSelection};
use morsql::bind::BindError;
use morsql::parser::parse_sql;
use morsql::tables::{TableCell, TableData};

fn users_table() -> TableData {
    TableData {
        header: vec!["name".to_string(), "age".to_string(), "id".to_string()],
        rows: vec![
            vec![
                Some(TableCell::CellString("Lucas".to_string())),
                Some(TableCell::CellInt(24)),
                Some(TableCell::CellInt(0)),
            ],
            vec![
                Some(TableCell::CellString("Harry".to_string())),
                Some(TableCell::CellInt(25)),
                Some(TableCell::CellInt(1)),
            ],
        ],
    }
}

#[test]
fn to_indexed_test() {
    let test_sel1 = ColumnSelector {
        table: Some("t1".to_string()),
        field: "f1".to_string(),
    };
    let test_sel2 = ColumnSelector {
        table: Some("t2".to_string()),
        field: "f2".to_string(),
    };
    let test_sel3 = ColumnSelector {
        table: None,
        field: "f1".to_string(),
    };
    let test_sel4 = ColumnSelector {
        table: None,
        field: "f0".to_string(),
    };

    let test_table1 = TableData {
        header: vec!["f1".to_string(), "f2".to_string()],
        rows: vec![],
    };
    let test_table2 = TableData {
        header: vec!["f2".to_string(), "f1".to_string()],
        rows: vec![],
    };
    let test_tables1 = vec![test_table1.clone(), test_table2.clone()];
    let test_tables2 = vec![test_table1.clone()];
    let test_index1 = test_sel1.to_indexed(&test_tables1, &vec!["t1".to_string(), "t2".to_string()]);
    let test_index2 = test_sel2.to_indexed(&test_tables1, &vec!["t1".to_string(), "t2".to_string()]);
    let test_index3 = test_sel3.to_indexed(&test_tables2, &vec!["t1".to_string()]);
    let test_index4 = test_sel4.to_indexed(&test_tables1, &vec!["t1".to_string(), "t2".to_string()]);
    assert_eq!(test_index1, Ok(IndexedColumnSelector { table: 0, field: 0 }));
    assert_eq!(test_index2, Ok(IndexedColumnSelector { table: 1, field: 0 }));
    assert_eq!(test_index3, Ok(IndexedColumnSelector { table: 0, field: 0 }));
    assert_eq!(true, matches!(test_index4, Err(_)));
}

#[test]
fn join_test() {
    let test_header1 = vec!["name".to_string(), "age".to_string(), "id".to_string()];
    let row11 = vec![
        Some(TableCell::CellString("Lucas".to_string())),
        Some(TableCell::CellInt(24)),
        Some(TableCell::CellInt(0)),
    ];
    let row12 = vec![
        Some(TableCell::CellString("Harry".to_string())),
        Some(TableCell::CellInt(25)),
        Some(TableCell::CellInt(1)),
    ];
    let row13 = vec![
        Some(TableCell::CellString("".to_string())),
        None,
        Some(TableCell::CellInt(2)),
    ];
    let testtable1 = TableData {
        header: test_header1.clone(),
        rows: vec![row11.clone(), row12.clone(), row13.clone()],
    };
    let test_header2 = vec!["name_".to_string(), "age_".to_string(), "id_".to_string()];
    let row21 = vec![
        Some(TableCell::CellString("Lucas_".to_string())),
        Some(TableCell::CellInt(24)),
        Some(TableCell::CellInt(0)),
    ];
    let row22 = vec![
        Some(TableCell::CellString("Harry_".to_string())),
        Some(TableCell::CellInt(25)),
        Some(TableCell::CellInt(1)),
    ];
    let row23 = vec![
        Some(TableCell::CellString("_".to_string())),
        None,
        Some(TableCell::CellInt(2)),
    ];
    let testtable2 = TableData {
        header: test_header2.clone(),
        rows: vec![row21.clone(), row22.clone(), row23.clone()],
    };

    let res_table1 = TableData::join_table(
        &|vec: &Vec<Vec<Option<TableCell>>>| vec[0][1] == vec[1][1],
        &(vec![testtable1.clone(), testtable2.clone()]),
        &IndexedSelection::Star,
    );
    assert_eq!(
        res_table1.header,
        vec![test_header1.clone(), test_header2.clone()].concat()
    );
    assert_eq!(res_table1.rows.len(), 3);
    assert_ne!(
        res_table1
            .rows
            .iter()
            .find(|row| **row == vec![row11.clone(), row21.clone()].concat()),
        None
    );
    assert_ne!(
        res_table1
            .rows
            .iter()
            .find(|row| **row == vec![row12.clone(), row22.clone()].concat()),
        None
    );
    assert_ne!(
        res_table1
            .rows
            .iter()
            .find(|row| **row == vec![row13.clone(), row23.clone()].concat()),
        None
    );
    assert_eq!(
        res_table1
            .rows
            .iter()
            .find(|row| **row == vec![row11.clone(), row22.clone()].concat()),
        None
    );
    let res_table2 = TableData::join_table(
        &|_vec: &Vec<Vec<Option<TableCell>>>| true,
        &(vec![testtable1.clone(), testtable2.clone()]),
        &IndexedSelection::Star,
    );
    assert_eq!(
        res_table2.header,
        vec![test_header1.clone(), test_header2.clone()].concat()
    );
    assert_eq!(res_table2.rows.len(), 9);
    assert_ne!(
        res_table2
            .rows
            .iter()
            .find(|row| **row == vec![row11.clone(), row21.clone()].concat()),
        None
    );
    assert_ne!(
        res_table2
            .rows
            .iter()
            .find(|row| **row == vec![row12.clone(), row21.clone()].concat()),
        None
    );
    assert_ne!(
        res_table2
            .rows
            .iter()
            .find(|row| **row == vec![row13.clone(), row21.clone()].concat()),
        None
    );

    assert_ne!(
        res_table2
            .rows
            .iter()
            .find(|row| **row == vec![row11.clone(), row22.clone()].concat()),
        None
    );
    assert_ne!(
        res_table2
            .rows
            .iter()
            .find(|row| **row == vec![row12.clone(), row22.clone()].concat()),
        None
    );
    assert_ne!(
        res_table2
            .rows
            .iter()
            .find(|row| **row == vec![row13.clone(), row22.clone()].concat()),
        None
    );

    assert_ne!(
        res_table2
            .rows
            .iter()
            .find(|row| **row == vec![row11.clone(), row23.clone()].concat()),
        None
    );
    assert_ne!(
        res_table2
            .rows
            .iter()
            .find(|row| **row == vec![row12.clone(), row23.clone()].concat()),
        None
    );
    assert_ne!(
        res_table2
            .rows
            .iter()
            .find(|row| **row == vec![row13.clone(), row23.clone()].concat()),
        None
    );
    let res_table3 = TableData::join_table(
        &|_vec: &Vec<Vec<Option<TableCell>>>| false,
        &(vec![testtable1.clone(), testtable2.clone()]),
        &IndexedSelection::Star,
    );
    assert_eq!(
        res_table3.header,
        vec![test_header1.clone(), test_header2.clone()].concat()
    );
    assert_eq!(res_table3.rows.len(), 0);
}

#[test]
fn join_cardinality_always_true() {
    let t1 = TableData {
        header: vec!["a".to_string()],
        rows: vec![
            vec![Some(TableCell::CellInt(1))],
            vec![Some(TableCell::CellInt(2))],
        ],
    };
    let t2 = TableData {
        header: vec!["b".to_string()],
        rows: vec![
            vec![Some(TableCell::CellInt(10))],
            vec![Some(TableCell::CellInt(20))],
            vec![Some(TableCell::CellInt(30))],
        ],
    };
    let q = parse_sql("SELECT * FROM t1, t2 WHERE true").unwrap();
    let res = q
        .run(&vec![t1, t2], &vec!["t1".to_string(), "t2".to_string()])
        .unwrap();
    assert_eq!(res.rows.len(), 6);
    // dimension 0 (the first table) moves fastest
    assert_eq!(
        res.rows[0],
        vec![Some(TableCell::CellInt(1)), Some(TableCell::CellInt(10))]
    );
    assert_eq!(
        res.rows[1],
        vec![Some(TableCell::CellInt(2)), Some(TableCell::CellInt(10))]
    );
    assert_eq!(
        res.rows[2],
        vec![Some(TableCell::CellInt(1)), Some(TableCell::CellInt(20))]
    );
}

#[test]
fn empty_table_gives_empty_product() {
    let t1 = TableData {
        header: vec!["a".to_string()],
        rows: vec![],
    };
    let t2 = TableData {
        header: vec!["b".to_string()],
        rows: vec![vec![Some(TableCell::CellInt(10))]],
    };
    let q = parse_sql("SELECT * FROM t1, t2 WHERE true").unwrap();
    let res = q
        .run(&vec![t1, t2], &vec!["t1".to_string(), "t2".to_string()])
        .unwrap();
    assert_eq!(res.header, vec!["a".to_string(), "b".to_string()]);
    assert_eq!(res.rows.len(), 0);
}

#[test]
fn missing_cell_excludes_row() {
    // a row whose age cell is missing never passes a filter on age,
    // whatever the other operand
    let t = TableData {
        header: vec!["name".to_string(), "age".to_string()],
        rows: vec![
            vec![Some(TableCell::CellString("a".to_string())), None],
            vec![
                Some(TableCell::CellString("b".to_string())),
                Some(TableCell::CellInt(30)),
            ],
        ],
    };
    let q = parse_sql("SELECT name FROM t WHERE age < 100 || true").unwrap();
    let res = q.run(&vec![t.clone()], &vec!["t".to_string()]).unwrap();
    assert_eq!(res.rows.len(), 1);
    assert_eq!(res.rows[0], vec![Some(TableCell::CellString("b".to_string()))]);

    let q2 = parse_sql("SELECT name FROM t WHERE age == age").unwrap();
    let res2 = q2.run(&vec![t], &vec!["t".to_string()]).unwrap();
    assert_eq!(res2.rows.len(), 1);
}

#[test]
fn projection_order_and_star_width() {
    let t = users_table();
    let q = parse_sql("SELECT id, name FROM users WHERE true").unwrap();
    let res = q
        .run(&vec![t.clone()], &vec!["users".to_string()])
        .unwrap();
    assert_eq!(res.header, vec!["id".to_string(), "name".to_string()]);
    assert_eq!(
        res.rows[0],
        vec![
            Some(TableCell::CellInt(0)),
            Some(TableCell::CellString("Lucas".to_string()))
        ]
    );

    let q2 = parse_sql("SELECT * FROM users WHERE true").unwrap();
    let res2 = q2.run(&vec![t], &vec!["users".to_string()]).unwrap();
    assert_eq!(res2.header.len(), 3);
    for row in &res2.rows {
        assert_eq!(row.len(), 3);
    }
}

#[test]
fn duplicate_columns_are_preserved() {
    let t = users_table();
    let q = parse_sql("SELECT name, name FROM users WHERE true").unwrap();
    let res = q.run(&vec![t], &vec!["users".to_string()]).unwrap();
    assert_eq!(res.header, vec!["name".to_string(), "name".to_string()]);
    assert_eq!(res.rows[1].len(), 2);
    assert_eq!(res.rows[1][0], res.rows[1][1]);
}

#[test]
fn end_to_end_example() {
    let users = TableData {
        header: vec!["name".to_string(), "age".to_string(), "id".to_string()],
        rows: vec![
            vec![
                Some(TableCell::CellString("Lucas".to_string())),
                Some(TableCell::CellInt(24)),
                Some(TableCell::CellInt(0)),
            ],
            vec![
                Some(TableCell::CellString("Harry".to_string())),
                Some(TableCell::CellInt(25)),
                Some(TableCell::CellInt(1)),
            ],
        ],
    };
    let q = parse_sql("SELECT name, id FROM users WHERE name == \"Harry\"").unwrap();
    let res = q.run(&vec![users], &vec!["users".to_string()]).unwrap();
    assert_eq!(res.header, vec!["name".to_string(), "id".to_string()]);
    assert_eq!(res.rows.len(), 1);
    assert_eq!(
        res.rows[0],
        vec![
            Some(TableCell::CellString("Harry".to_string())),
            Some(TableCell::CellInt(1))
        ]
    );
}

#[test]
fn like_always_rejects() {
    let t = users_table();
    let q = parse_sql("SELECT name FROM users WHERE name LIKE \"Harry\"").unwrap();
    let res = q.run(&vec![t], &vec!["users".to_string()]).unwrap();
    assert_eq!(res.rows.len(), 0);
}

#[test]
fn binder_errors() {
    let t = users_table();
    let tables = vec![t];
    let names = vec!["users".to_string()];

    let q = parse_sql("SELECT * FROM nosuch WHERE nosuch.id == 1").unwrap();
    assert_eq!(
        q.run(&tables, &names),
        Err(BindError::TableNotFound("nosuch".to_string()))
    );

    let q2 = parse_sql("SELECT * FROM users WHERE users.salary == 1").unwrap();
    assert_eq!(
        q2.run(&tables, &names),
        Err(BindError::ColumnNotFound(
            "salary".to_string(),
            Some("users".to_string())
        ))
    );

    let q3 = parse_sql("SELECT salary FROM users WHERE true").unwrap();
    assert_eq!(
        q3.run(&tables, &names),
        Err(BindError::ColumnNotFound("salary".to_string(), None))
    );
}

#[test]
fn error_messages() {
    assert_eq!(
        BindError::TableNotFound("nosuch".to_string()).message(),
        "table not found: nosuch"
    );
    assert_eq!(
        BindError::ColumnNotFound("salary".to_string(), Some("users".to_string())).message(),
        "column not found: salary in table users"
    );
    assert_eq!(
        BindError::ColumnNotFound("salary".to_string(), None).message(),
        "column not found: salary"
    );
    let err = parse_sql("SELECT ?").unwrap_err();
    assert_eq!(err.message(), "failed to read the query at position 7");
}

#[test]
fn first_match_resolution_is_silent() {
    // the same column name in two tables resolves to the first table
    let t1 = TableData {
        header: vec!["id".to_string()],
        rows: vec![vec![Some(TableCell::CellInt(1))]],
    };
    let t2 = TableData {
        header: vec!["id".to_string()],
        rows: vec![vec![Some(TableCell::CellInt(2))]],
    };
    let sel = ColumnSelector {
        table: None,
        field: "id".to_string(),
    };
    let ix = sel
        .to_indexed(
            &vec![t1, t2],
            &vec!["t1".to_string(), "t2".to_string()],
        )
        .unwrap();
    assert_eq!(ix, IndexedColumnSelector { table: 0, field: 0 });
}

#[test]
fn string_falsy_in_logic() {
    // a string operand of AND/OR is falsy, not an error
    let t = users_table();
    let q = parse_sql("SELECT id FROM users WHERE name || name == \"Harry\"").unwrap();
    let res = q.run(&vec![t], &vec!["users".to_string()]).unwrap();
    // name || (name == "Harry"): for Harry the right side is true
    assert_eq!(res.rows.len(), 1);
    assert_eq!(res.rows[0], vec![Some(TableCell::CellInt(1))]);
}

#[test]
fn not_semantics() {
    let t = users_table();
    // NOT 0 is true, NOT nonzero is false, NOT of a string is undefined
    let q = parse_sql("SELECT id FROM users WHERE (NOT 0)").unwrap();
    let res = q
        .run(&vec![t.clone()], &vec!["users".to_string()])
        .unwrap();
    assert_eq!(res.rows.len(), 2);
    let q2 = parse_sql("SELECT id FROM users WHERE (NOT name)").unwrap();
    let res2 = q2.run(&vec![t], &vec!["users".to_string()]).unwrap();
    assert_eq!(res2.rows.len(), 0);
}

#[test]
fn eq_type_mismatch_is_false() {
    let t = users_table();
    let q = parse_sql("SELECT id FROM users WHERE name == 1").unwrap();
    let res = q.run(&vec![t], &vec!["users".to_string()]).unwrap();
    assert_eq!(res.rows.len(), 0);
}

#[test]
fn render_cells_and_tables() {
    assert_eq!(TableCell::CellInt(-7).render(), "-7");
    assert_eq!(TableCell::CellInt(0).render(), "0");
    assert_eq!(
        TableCell::CellString("hi".to_string()).render(),
        "\"hi\""
    );
    let t = TableData {
        header: vec!["name".to_string(), "age".to_string()],
        rows: vec![
            vec![Some(TableCell::CellString("a".to_string())), None],
            vec![
                Some(TableCell::CellString("b".to_string())),
                Some(TableCell::CellInt(30)),
            ],
        ],
    };
    assert_eq!(t.render(), "name,age\n\"a\",\n\"b\",30");
}

#[test]
fn run_against_two_tables_with_filter() {
    let t1 = users_table();
    let t2 = TableData {
        header: vec!["owner".to_string(), "pet".to_string()],
        rows: vec![
            vec![
                Some(TableCell::CellInt(1)),
                Some(TableCell::CellString("Hedwig".to_string())),
            ],
            vec![
                Some(TableCell::CellInt(0)),
                Some(TableCell::CellString("Rex".to_string())),
            ],
        ],
    };
    let q = parse_sql("SELECT name, pet FROM users, pets WHERE id == owner").unwrap();
    let res = q
        .run(
            &vec![t1, t2],
            &vec!["users".to_string(), "pets".to_string()],
        )
        .unwrap();
    assert_eq!(res.header, vec!["name".to_string(), "pet".to_string()]);
    assert_eq!(res.rows.len(), 2);
    assert!(res.rows.contains(&vec![
        Some(TableCell::CellString("Harry".to_string())),
        Some(TableCell::CellString("Hedwig".to_string()))
    ]));
    assert!(res.rows.contains(&vec![
        Some(TableCell::CellString("Lucas".to_string())),
        Some(TableCell::CellString("Rex".to_string()))
    ]));
}
