use ferruginous::{
    ais_data_view_sql, candidate_cells_sql, combine_same_draught, ddm_import_sql, first_pending_migration,
    fix_draught_segment_time_range, get_draught_combine, migration_to_record, relative_to_bounds,
    trajectory_view_sql, DraughtKey, MinmaxBounds,
};

fn key(m: i128) -> Option<DraughtKey> {
    Some(DraughtKey { mantissa: m, scale: 1 })
}

#[test]
fn gives_result() {
    // principal eigenvector of the depth judgement matrix [[1, 3], [1/3, 1]], normalized
    let vec: [f64; 2] = [0.75, 0.25];
    let source_bounds = MinmaxBounds { min: 0., max: 7. };
    let age_bounds = MinmaxBounds {
        min: 2000.,
        max: 2024.,
    };

    let source = 0.;
    let age = 2024.;
    let result_source = 1. - relative_to_bounds(source_bounds, source);
    let result_age = relative_to_bounds(age_bounds, age);

    let result = result_source * vec[0] + result_age * vec[1];

    assert_eq!(result, 1.);
    let source = 7.;
    let age = 2000.;
    let result_source = 1. - relative_to_bounds(source_bounds, source);
    let result_age = relative_to_bounds(age_bounds, age);

    let result = result_source * vec[0] + result_age * vec[1];
    assert_eq!(result, 0.);
}

#[test]
fn relative_to_bounds_on_integers() {
    let b = MinmaxBounds { min: 10i64, max: 30 };
    assert_eq!(relative_to_bounds(b, 10), 0);
    assert_eq!(relative_to_bounds(b, 30), 1);
    assert_eq!(relative_to_bounds(b, 50), 2);
}

#[test]
fn draught_runs_are_stretched_to_the_next_run() {
    let data = vec![
        (1, key(50)),
        (2, key(50)),
        (3, None),
        (4, key(60)),
        (5, key(60)),
        (6, key(50)),
    ];
    let r = get_draught_combine(&data);
    assert_eq!(
        r,
        vec![
            (1, 5, DraughtKey { mantissa: 50, scale: 1 }),
            (4, 6, DraughtKey { mantissa: 60, scale: 1 }),
            (6, 6, DraughtKey { mantissa: 50, scale: 1 }),
        ]
    );
    assert!(get_draught_combine(&vec![(1, None), (2, None)]).is_empty());
    assert_eq!(get_draught_combine(&vec![(9, key(1))]), vec![(9, 9, DraughtKey { mantissa: 1, scale: 1 })]);
}

#[test]
fn segment_range_and_draught_totals() {
    assert_eq!(fix_draught_segment_time_range(&[(1, 2, 'a'), (3, 4, 'b'), (5, 6, 'c')]), (1, 6, 'a'));
    assert_eq!(combine_same_draught(&[(10, 4.5f32), (20, 9.0), (-5, 1.0)]), (25, 4.5));
}

#[test]
fn migrations_resume_after_recorded_one() {
    let entries: Vec<String> = vec!["a.sql".into(), "b.sql".into(), "c.sql".into()];
    assert_eq!(first_pending_migration(&entries, &None), 0);
    assert_eq!(first_pending_migration(&entries, &Some("b.sql".into())), 2);
    assert_eq!(first_pending_migration(&entries, &Some("c.sql".into())), 3);
    assert_eq!(first_pending_migration(&entries, &Some("zzz".into())), 0);
    assert_eq!(migration_to_record(&entries, &Some("b.sql".into())), "c.sql");
    assert_eq!(migration_to_record(&entries, &Some("c.sql".into())), "c.sql");
    assert_eq!(migration_to_record(&vec![], &None), "");
    assert_eq!(migration_to_record(&vec![], &Some("x".into())), "x");
}

#[test]
fn view_sql_lists_quoted_paths() {
    let paths: Vec<String> = vec!["/d/a.pq".into(), "/d/b.pq".into()];
    assert_eq!(
        ais_data_view_sql(&paths),
        "CREATE OR REPLACE VIEW ais_data AS (SELECT * FROM read_parquet(['/d/a.pq','/d/b.pq']) WHERE lat != 91)"
    );
    assert_eq!(
        ais_data_view_sql(&vec![]),
        "CREATE OR REPLACE VIEW ais_data AS (SELECT * FROM read_parquet([]) WHERE lat != 91)"
    );
}

#[test]
fn ddm_and_trajectory_sql_embed_their_arguments() {
    let sql = ddm_import_sql("/x/ddm.pq");
    assert!(sql.contains("read_parquet('/x/ddm.pq');"));
    assert!(sql.starts_with("\n            INSTALL spatial;"));
    assert!(sql.ends_with("CREATE INDEX ddm_idx ON ddm USING RTREE (geom);\n        "));
    let t = trajectory_view_sql("2024-01-01", "2024-02-01");
    assert!(t.starts_with("CREATE OR REPLACE VIEW render.trajs AS ("));
    assert!(t.ends_with("        ais_data ap\n        WHERE ap.timestamp >= '2024-01-01' AND ap.timestamp <= '2024-02-01'\n        );"));
}


#[test]
fn recorded_migration_leaves_nothing_pending() {
    let entries: Vec<String> = vec!["a.sql".into(), "b.sql".into()];
    for current in [None, Some("a.sql".to_string()), Some("b.sql".to_string()), Some("q".to_string())] {
        let record = migration_to_record(&entries, &current);
        assert_eq!(first_pending_migration(&entries, &Some(record)), entries.len());
    }
}

#[test]
fn candidate_query_formats_integers() {
    let expected = format!(
        "\n            SELECT\n              xt.* as x,\n              yt.* as y,\n              {} as z,\n              ST_TileEnvelope (z::integer, x::integer, y::integer) as cellgeom\n            FROM\n              generate_series({}, {}, 1) xt,\n              generate_series({}, {}, 1) yt\n            WHERE\n              (\n                SELECT\n                  true\n                FROM\n                  lines_with_geom a\n                WHERE\n                  cellgeom && a.geom\n                LIMIT\n                  1\n              )\n            ",
        21, -3, 2147483647, -2147483648, 0
    );
    assert_eq!(candidate_cells_sql(21, -3, 2147483647, i32::MIN, 0), expected);
    assert!(candidate_cells_sql(7, 10, 109, 5, 1000).contains("generate_series(10, 109, 1) xt"));
}
