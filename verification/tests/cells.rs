use ferruginous::{
    error_bits_from_order_key, error_order_key,
    line_error_from_ground_truth, merge_cells, Cell, ErrorMeasurementConf, ErrorMeasurementMethod,
    GridPoint, PointWTime, PointWZ,
};

fn gp(x: i32, y: i32) -> GridPoint {
    GridPoint { x, y }
}

fn cell(x: i32, y: i32, z: u32) -> Cell {
    Cell { coord: gp(x, y), z }
}

#[test]
fn merge_cells_works() {
    let errors = vec![
        vec![(gp(1, 1), 2.0_f64), (gp(2, 2), 10.0)],
        vec![(gp(1, 1), 5.0), (gp(2, 2), 7.0)],
    ]
    .into_iter()
    .map(|v| {
        v.into_iter()
            .map(|(p, e)| (Cell { coord: p, z: 0 }, error_order_key(e.to_bits())))
    });

    let flat: Vec<_> = errors.into_iter().flatten().collect();
    let mut m: Vec<(Cell, f64)> = merge_cells(&flat)
        .into_iter()
        .map(|(c, e)| (c, f64::from_bits(error_bits_from_order_key(e))))
        .collect();

    m.sort_by_key(|k| k.0.coord.x);

    assert_eq!(
        m,
        vec![
            (
                Cell {
                    coord: gp(1, 1),
                    z: 0
                },
                2.0
            ),
            (
                Cell {
                    coord: gp(2, 2),
                    z: 0
                },
                7.0
            )
        ]
    )
}

#[test]
fn merge_cells_keeps_single_entries_and_empty_input() {
    assert!(merge_cells(&vec![]).is_empty());
    let m = merge_cells(&vec![(cell(3, 4, 5), 9), (cell(3, 4, 6), 1), (cell(3, 4, 5), 9)]);
    assert_eq!(m, vec![(cell(3, 4, 5), 9), (cell(3, 4, 6), 1)]);
}

#[test]
fn merge_cells_ignores_input_order_and_is_idempotent() {
    let xs = vec![(cell(1, 1, 0), 7), (cell(2, 2, 0), 3), (cell(1, 1, 0), 2), (cell(5, 0, 1), 4)];
    let ys = vec![(cell(5, 0, 1), 4), (cell(1, 1, 0), 2), (cell(2, 2, 0), 3), (cell(1, 1, 0), 7)];
    let mut mx = merge_cells(&xs);
    let mut my = merge_cells(&ys);
    let mut mm = merge_cells(&mx);
    mx.sort();
    my.sort();
    mm.sort();
    assert_eq!(mx, vec![(cell(1, 1, 0), 2), (cell(2, 2, 0), 3), (cell(5, 0, 1), 4)]);
    assert_eq!(my, mx);
    assert_eq!(mm, mx);
}

#[test]
fn conf_accessors_and_sampling_zoom() {
    let conf = ErrorMeasurementConf::new(ErrorMeasurementMethod::CellTaxicab, 19, None);
    assert_eq!(conf.method(), ErrorMeasurementMethod::CellTaxicab);
    assert_eq!(conf.zoom(), 19);
    assert_eq!(conf.sampling(), None);
    assert_eq!(conf.sampling_zoom(), 19);
    let ss = ErrorMeasurementConf::new(ErrorMeasurementMethod::Geodesic, 19, Some(21));
    assert_eq!(ss.sampling_zoom(), 21);
}

#[test]
fn ground_truth_cells_are_deduplicated_at_zoom() {
    let conf = ErrorMeasurementConf::new(ErrorMeasurementMethod::CellTaxicab, 10, None);
    let cells = conf.ground_truth_cells(&vec![gp(1, 2), gp(3, 4), gp(1, 2)]);
    assert_eq!(cells, vec![cell(1, 2, 10), cell(3, 4, 10)]);
}

#[test]
fn cells_off_ground_truth_removes_ground_truth_and_duplicates() {
    let conf = ErrorMeasurementConf::new(ErrorMeasurementMethod::CellTaxicab, 10, None);
    let rendered = vec![cell(1, 2, 10), cell(2, 2, 10), cell(2, 2, 10), cell(1, 2, 11), cell(3, 3, 10)];
    let off = conf.cells_off_ground_truth(&rendered, &vec![gp(1, 2), gp(3, 3)]);
    assert_eq!(off, vec![cell(2, 2, 10), cell(1, 2, 11)]);
}

#[test]
fn taxicab_errors_are_positive_off_ground_truth() {
    let conf = ErrorMeasurementConf::new(ErrorMeasurementMethod::CellTaxicab, 10, None);
    let gt = vec![gp(0, 0), gp(5, 5)];
    let rendered = vec![cell(0, 0, 10), cell(1, 0, 10), cell(2, 3, 10), cell(5, 5, 10), cell(4, 6, 10)];
    let off = conf.cells_off_ground_truth(&rendered, &gt);
    let errors = conf.calculate_error_taxicab(&gt, &off);
    assert_eq!(errors, vec![(cell(1, 0, 10), 1), (cell(2, 3, 10), 5), (cell(4, 6, 10), 2)]);
    assert!(errors.iter().all(|(_, d)| *d > 0));
}

#[test]
fn nearest_point_is_zero_without_ground_truth() {
    let conf = ErrorMeasurementConf::new(ErrorMeasurementMethod::CellTaxicab, 10, None);
    assert_eq!(conf.cell_to_nearest_point_taxicab(&vec![], &cell(7, 7, 10)), 0);
    assert_eq!(conf.cell_to_nearest_point_taxicab(&vec![gp(-3, 7), gp(9, 9)], &cell(7, 7, 10)), 4);
}

#[test]
fn endpoint_cells_and_nearest_endpoint() {
    let conf = ErrorMeasurementConf::new(ErrorMeasurementMethod::CellTaxicab, 10, None);
    let cells = vec![cell(0, 0, 10), cell(1, 1, 10), cell(4, 4, 10), cell(0, 0, 12)];
    let at = conf.cells_at_endpoints((gp(0, 0), gp(4, 4)), &cells);
    assert_eq!(at, vec![cell(0, 0, 10), cell(4, 4, 10), cell(0, 0, 12)]);
    assert_eq!(conf.cell_to_nearest_ground_truth_taxicab((gp(0, 0), gp(4, 4)), &cell(1, 1, 10)), 2);
    assert_eq!(conf.cell_to_nearest_ground_truth_taxicab((gp(0, 0), gp(4, 4)), &cell(3, 4, 10)), 1);
}

#[test]
fn line_error_reports_non_ground_truth_points_once() {
    let rendered = vec![gp(0, 0), gp(1, 0), gp(1, 0), gp(2, 0), gp(3, 1)];
    let gt = vec![gp(0, 0), gp(2, 0)];
    let e = line_error_from_ground_truth(&rendered, &gt);
    assert_eq!(e, vec![(gp(1, 0), 1), (gp(3, 1), 2)]);
    assert!(e.iter().all(|(_, d)| *d > 0));
    assert_eq!(line_error_from_ground_truth(&vec![gp(4, 4)], &vec![]), vec![(gp(4, 4), 0)]);
}

#[test]
fn cell_from_visit_takes_point_and_zoom() {
    let p = PointWTime { point: gp(3, 9), z: 17, time_start: 5, time_end: 6 };
    assert_eq!(Cell::from(p), cell(3, 9, 17));
}

#[test]
fn cell_from_zoomed_point_takes_point_and_zoom() {
    let p = PointWZ { point: gp(-4, 11), z: 12 };
    assert_eq!(Cell::from(p), cell(-4, 11, 12));
}

#[test]
fn taxicab_counts_adjacent_one_and_diagonal_two() {
    let conf = ErrorMeasurementConf::new(ErrorMeasurementMethod::CellTaxicab, 4, None);
    let gt = vec![gp(5, 5)];
    assert_eq!(conf.cell_to_nearest_point_taxicab(&gt, &cell(6, 5, 4)), 1);
    assert_eq!(conf.cell_to_nearest_point_taxicab(&gt, &cell(5, 4, 4)), 1);
    assert_eq!(conf.cell_to_nearest_point_taxicab(&gt, &cell(6, 6, 4)), 2);
    assert_eq!(conf.cell_to_nearest_point_taxicab(&gt, &cell(4, 6, 4)), 2);
}

#[test]
fn order_keys_order_as_the_floats_do() {
    let values = [-1.0e300_f64, -7.5, -0.5, -0.0, 0.0, 1.0e-300, 0.25, 3.0, f64::INFINITY];
    for w in values.windows(2) {
        let a = error_order_key(w[0].to_bits());
        let b = error_order_key(w[1].to_bits());
        assert!(a < b);
    }
    for v in values {
        assert_eq!(f64::from_bits(error_bits_from_order_key(error_order_key(v.to_bits()))).to_bits(), v.to_bits());
    }
    let m = merge_cells(&vec![
        (Cell { coord: gp(0, 0), z: 1 }, error_order_key(0.5_f64.to_bits())),
        (Cell { coord: gp(0, 0), z: 1 }, error_order_key((-2.0_f64).to_bits())),
    ]);
    assert_eq!(f64::from_bits(error_bits_from_order_key(m[0].1)), -2.0);
}

#[test]
fn nearest_end_does_not_depend_on_end_order() {
    let conf = ErrorMeasurementConf::new(ErrorMeasurementMethod::CellTaxicab, 10, None);
    let c = cell(4, -2, 10);
    let (f, s) = (gp(0, 0), gp(7, -2));
    assert_eq!(conf.cell_to_nearest_ground_truth_taxicab((f, s), &c), 3);
    assert_eq!(conf.cell_to_nearest_ground_truth_taxicab((s, f), &c), 3);
}

#[test]
fn sampling_at_zoom_samples_as_no_sampling() {
    let a = ErrorMeasurementConf::new(ErrorMeasurementMethod::Geodesic, 13, Some(13));
    let b = ErrorMeasurementConf::new(ErrorMeasurementMethod::Geodesic, 13, None);
    assert_eq!(a.sampling_zoom(), b.sampling_zoom());
    assert_eq!(a.sampling_zoom(), 13);
}
