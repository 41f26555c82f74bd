use vstd::prelude::*;
use vstd::string::StringExecFns;

use crate::tiles::{all_digits, digits_value, is_digit, parse_i32};

verus! {

/// The paths, each in single quotes, separated by commas.
pub open spec fn quoted_list(paths: Seq<String>) -> Seq<char>
    decreases paths.len(),
{
    if paths.len() == 0 {
        Seq::empty()
    } else {
        let rest = quoted_list(paths.drop_last());
        let item = "'"@ + paths.last()@ + "'"@;
        if paths.len() == 1 {
            item
        } else {
            rest + ","@ + item
        }
    }
}

/// The statement that defines the `ais_data` view over the given Parquet files.
pub fn ais_data_view_sql(paths: &Vec<String>) -> (sql: String)
    ensures
        sql@ == "CREATE OR REPLACE VIEW ais_data AS (SELECT * FROM read_parquet(["@ + quoted_list(paths@)
            + "]) WHERE lat != 91)"@,
{
    let mut list = String::new();
    let mut i: usize = 0;
    while i < paths.len()
        invariant
            0 <= i <= paths@.len(),
            list@ == quoted_list(paths@.take(i as int)),
        decreases paths@.len() - i,
    {
        proof {
            assert(paths@.take(i + 1).drop_last() =~= paths@.take(i as int));
            assert(paths@.take(i + 1).last() == paths@[i as int]);
        }
        if i > 0 {
            list.append(",");
        }
        list.append("'");
        list.append(paths[i].as_str());
        list.append("'");
        proof {
            if i > 0 {
                assert(list@ =~= quoted_list(paths@.take(i as int)) + ","@ + ("'"@ + paths@[i as int]@ + "'"@));
            } else {
                assert(quoted_list(paths@.take(0)) =~= Seq::<char>::empty());
                assert(list@ =~= "'"@ + paths@[i as int]@ + "'"@);
            }
        }
        i = i + 1;
    }
    proof {
        assert(paths@.take(paths@.len() as int) =~= paths@);
    }
    let mut sql = String::from_str("CREATE OR REPLACE VIEW ais_data AS (SELECT * FROM read_parquet([");
    sql.append(list.as_str());
    sql.append("]) WHERE lat != 91)");
    sql
}

/// The statements that load the depth model from the Parquet file at `path`.
pub fn ddm_import_sql(path: &str) -> (sql: String)
    ensures
        sql@ == DDM_PRE@ + path@ + DDM_POST@,
{
    let mut sql = String::from_str(DDM_PRE);
    sql.append(path);
    sql.append(DDM_POST);
    sql
}

/// The statement that defines the trajectory view for the time window from
/// `time_start` to `time_stop`.
pub fn trajectory_view_sql(time_start: &str, time_stop: &str) -> (sql: String)
    ensures
        sql@ == TRAJS_VIEW@ + "\n        WHERE ap.timestamp >= '"@ + time_start@ + "' AND ap.timestamp <= '"@
            + time_stop@ + "'\n        );"@,
{
    let mut sql = String::from_str(TRAJS_VIEW);
    sql.append("\n        WHERE ap.timestamp >= '");
    sql.append(time_start);
    sql.append("' AND ap.timestamp <= '");
    sql.append(time_stop);
    sql.append("'\n        );");
    sql
}

/// The character of a decimal digit.
pub open spec fn digit_char(d: int) -> char {
    ((d + 48) as u32) as char
}

/// The decimal digits of `n`, most significant first.
pub open spec fn decimal_digits(n: nat) -> Seq<char>
    decreases n,
{
    if n < 10 {
        seq![digit_char(n as int)]
    } else {
        decimal_digits(n / 10).push(digit_char((n % 10) as int))
    }
}

/// How `format!("{}", v)` writes an integer: a minus sign for negative values,
/// then the decimal digits of its magnitude.
pub open spec fn decimal(v: int) -> Seq<char> {
    if v < 0 {
        seq!['-'] + decimal_digits((-v) as nat)
    } else {
        decimal_digits(v as nat)
    }
}

fn digit_str(d: u32) -> (s: &'static str)
    requires
        d < 10,
    ensures
        s@ == seq![digit_char(d as int)],
{
    match d {
        0 => {
            proof {
                reveal_strlit("0");
            }
            "0"
        },
        1 => {
            proof {
                reveal_strlit("1");
            }
            "1"
        },
        2 => {
            proof {
                reveal_strlit("2");
            }
            "2"
        },
        3 => {
            proof {
                reveal_strlit("3");
            }
            "3"
        },
        4 => {
            proof {
                reveal_strlit("4");
            }
            "4"
        },
        5 => {
            proof {
                reveal_strlit("5");
            }
            "5"
        },
        6 => {
            proof {
                reveal_strlit("6");
            }
            "6"
        },
        7 => {
            proof {
                reveal_strlit("7");
            }
            "7"
        },
        8 => {
            proof {
                reveal_strlit("8");
            }
            "8"
        },
        _ => {
            proof {
                reveal_strlit("9");
            }
            "9"
        },
    }
}

fn append_digits(s: &mut String, n: u32)
    ensures
        final(s)@ == old(s)@ + decimal_digits(n as nat),
    decreases n,
{
    if n >= 10 {
        append_digits(s, n / 10);
    }
    let d = digit_str(n % 10);
    s.append(d);
}

/// Appends the decimal form of `v`.
pub fn append_decimal(s: &mut String, v: i32)
    ensures
        final(s)@ == old(s)@ + decimal(v as int),
{
    if v < 0 {
        proof {
            reveal_strlit("-");
        }
        s.append("-");
        let m: u32 = (-(v as i64)) as u32;
        append_digits(s, m);
        proof {
            assert(final(s)@ =~= old(s)@ + decimal(v as int));
        }
    } else {
        append_digits(s, v as u32);
    }
}

/// The query for the cells at `level` from column `x_start` to `x_end` and row
/// `y_start` to `y_end` that some line geometry overlaps.
pub fn candidate_cells_sql(level: i32, x_start: i32, x_end: i32, y_start: i32, y_end: i32) -> (sql: String)
    ensures
        sql@ == CANDIDATES_0@ + decimal(level as int) + CANDIDATES_1@ + decimal(x_start as int)
            + CANDIDATES_2@ + decimal(x_end as int) + CANDIDATES_3@ + decimal(y_start as int)
            + CANDIDATES_2@ + decimal(y_end as int) + CANDIDATES_4@,
{
    let mut sql = String::from_str(CANDIDATES_0);
    append_decimal(&mut sql, level);
    sql.append(CANDIDATES_1);
    append_decimal(&mut sql, x_start);
    sql.append(CANDIDATES_2);
    append_decimal(&mut sql, x_end);
    sql.append(CANDIDATES_3);
    append_decimal(&mut sql, y_start);
    sql.append(CANDIDATES_2);
    append_decimal(&mut sql, y_end);
    sql.append(CANDIDATES_4);
    sql
}

pub const CANDIDATES_0: &'static str = "\n            SELECT\n              xt.* as x,\n              yt.* as y,\n              ";

pub const CANDIDATES_1: &'static str = " as z,\n              ST_TileEnvelope (z::integer, x::integer, y::integer) as cellgeom\n            FROM\n              generate_series(";

pub const CANDIDATES_2: &'static str = ", ";

pub const CANDIDATES_3: &'static str = ", 1) xt,\n              generate_series(";

pub const CANDIDATES_4: &'static str = ", 1) yt\n            WHERE\n              (\n                SELECT\n                  true\n                FROM\n                  lines_with_geom a\n                WHERE\n                  cellgeom && a.geom\n                LIMIT\n                  1\n              )\n            ";

pub const DDM_PRE: &'static str = "\n            INSTALL spatial;\n            LOAD spatial;\n            CREATE OR REPLACE TABLE ddm AS\n            SELECT\n                depth,\n                CASE source\n                    WHEN 3 THEN 0\n                    WHEN 2 THEN 1\n                    WHEN 4 THEN 2\n                    WHEN 5 THEN 3\n                    WHEN 6 THEN 4\n                    WHEN 1 THEN 5\n                    WHEN 7 THEN 6\n                    WHEN 8 THEN 7\n                END AS source,\n                year,\n                ST_Transform (geom, 'EPSG:3034', 'EPSG:3857', always_xy := TRUE) AS geom\n            FROM\n                read_parquet('";

pub const DDM_POST: &'static str = "');\n            DROP INDEX IF EXISTS ddm_idx;\n            CREATE INDEX ddm_idx ON ddm USING RTREE (geom);\n        ";

pub const TRAJS_VIEW: &'static str = "CREATE OR REPLACE VIEW render.trajs AS (\n      SELECT\n        ap.mmsi,\n        ap.timestamp,\n        {'lon': lon, 'lat': lat, 'time': epoch(ap.timestamp)} as point,\n        {\n              'to_bow': ap.to_bow::float,\n              'to_starboard': ap.to_starboard::float,\n              'to_stern': ap.to_stern::float,\n              'to_port': ap.to_port::float\n      } as dimensions,\n      draught,\n      ship_type\n      FROM\n        ais_data ap";

proof fn lemma_digit_char(d: int)
    requires
        0 <= d < 10,
    ensures
        is_digit(digit_char(d)),
        (digit_char(d) as int) - ('0' as int) == d,
        digit_char(d) != '-',
        digit_char(d) != '+',
{
    assert(('0' as int) == 48 && ('9' as int) == 57 && ('-' as int) == 45 && ('+' as int) == 43);
    assert(digit_char(d) as int == d + 48);
}

proof fn lemma_decimal_digits_read_back(n: nat)
    ensures
        decimal_digits(n).len() > 0,
        all_digits(decimal_digits(n)),
        digits_value(decimal_digits(n)) == n,
        decimal_digits(n)[0] != '-',
        decimal_digits(n)[0] != '+',
    decreases n,
{
    if n < 10 {
        lemma_digit_char(n as int);
        let t = decimal_digits(n);
        assert(t.drop_last() =~= Seq::<char>::empty());
        assert(t.last() == digit_char(n as int));
        assert(digits_value(t.drop_last()) == 0);
        assert(digits_value(t) == digits_value(t.drop_last()) * 10 + ((t.last() as int) - ('0' as int)));
    } else {
        lemma_decimal_digits_read_back(n / 10);
        lemma_digit_char((n % 10) as int);
        let p = decimal_digits(n / 10);
        let t = decimal_digits(n);
        assert(t.drop_last() =~= p);
        assert(t.last() == digit_char((n % 10) as int));
        assert(t[0] == p[0]);
        assert forall|i: int| 0 <= i < t.len() implies is_digit(#[trigger] t[i]) by {
            if i < p.len() {
                assert(t[i] == p[i]);
            }
        }
        assert(digits_value(t) == digits_value(p) * 10 + (n % 10));
        assert(n == (n / 10) * 10 + n % 10) by (nonlinear_arith);
    }
}

/// The decimal text that the SQL is written with reads back, as Rust reads an
/// `i32`, as the number it was written from.
pub proof fn lemma_decimal_reads_back(v: i32)
    ensures
        parse_i32(decimal(v as int)) == Some(v),
{
    if v < 0 {
        let m = (-(v as int)) as nat;
        lemma_decimal_digits_read_back(m);
        let t = decimal(v as int);
        assert(t[0] == '-');
        assert(t.skip(1) =~= decimal_digits(m));
    } else {
        lemma_decimal_digits_read_back(v as nat);
    }
}

} // verus!
