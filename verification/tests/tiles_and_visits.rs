use ferruginous::{
    index_runs, merge_sorted_visits, merge_visits, parse_i32_piece, parse_tile, scale_tile_end,
    scale_tile_start, segments_touching_tile, FilterTile, GridPoint, PointWTime, TimeDelta,
};

fn gp(x: i32, y: i32) -> GridPoint {
    GridPoint { x, y }
}

fn visit(x: i32, y: i32, s: i128, e: i128) -> PointWTime {
    PointWTime { point: gp(x, y), z: 12, time_start: s, time_end: e }
}

fn chars(s: &str) -> Vec<char> {
    s.chars().collect()
}

#[test]
fn parse_piece_reads_like_str_parse() {
    for s in ["0", "42", "-7", "+13", "2147483647", "-2147483648", "", "-", "+", "2147483648",
        "-2147483649", " 1", "1a", "--1", "99999999999999999999", "007"] {
        assert_eq!(parse_i32_piece(&chars(s)), s.parse::<i32>().ok(), "{}", s);
    }
}

#[test]
fn parse_tile_takes_first_three_integers() {
    assert_eq!(parse_tile("10,20,5"), vec![10, 20, 5]);
    assert_eq!(parse_tile("a,1,,2,x,3,4"), vec![1, 2, 3]);
    assert_eq!(parse_tile("1,2"), vec![1, 2]);
    assert_eq!(parse_tile(""), Vec::<i32>::new());
    assert_eq!(parse_tile("-1,+2, 3,4"), vec![-1, 2, 4]);
}

#[test]
fn tile_is_scaled_to_finer_level() {
    let tile = vec![3, 5, 10];
    assert_eq!(scale_tile_start(&tile, 12), vec![12, 20, 12]);
    assert_eq!(scale_tile_end(&tile, 12), vec![15, 23, 12]);
    assert_eq!(scale_tile_start(&tile, 10), vec![3, 5, 10]);
    assert_eq!(scale_tile_end(&tile, 10), vec![3, 5, 10]);
    // every cell in the range lies in the tile
    for c in 12..=15 {
        assert_eq!(c / 4, 3);
    }
}

#[test]
fn min_max_bb_raises_coordinates_to_zoom_difference() {
    let ft = FilterTile(3, 2, 10);
    assert_eq!(ft.min_max_bb(12), (9, 4, 15, 8));
    assert_eq!(ft.min_max_bb(10), (1, 1, 0, 0));
    assert_eq!(FilterTile(2, 2, 0).min_max_bb(40), (i32::MAX, i32::MAX, i32::MAX - 1, i32::MAX - 1));
}

#[test]
fn min_max_bb_saturates_as_std_does() {
    for &(x, y, z, level) in &[
        (-3, 5, 0, 7),
        (-3, -2, 0, 40),
        (-2, 1, 0, 31),
        (-2, 1, 0, 32),
        (-1, 0, 4, 9),
        (0, 7, 2, 2),
        (46340, -46341, 0, 2),
        (1, 2, 3, 0),
    ] {
        let diff = (level - z) as u32;
        let expected = (
            i32::saturating_pow(x, diff),
            i32::saturating_pow(y, diff),
            i32::saturating_pow(x + 1, diff) - 1,
            i32::saturating_pow(y + 1, diff) - 1,
        );
        assert_eq!(FilterTile(x, y, z).min_max_bb(level), expected);
    }
}

#[test]
fn segments_touching_tile_uses_bounding_boxes() {
    let v = vec![gp(0, 0), gp(4, 4), gp(8, 4), gp(8, 0), gp(3, 3)];
    assert_eq!(segments_touching_tile(&v, gp(3, 3)), vec![0, 3]);
    assert_eq!(segments_touching_tile(&v, gp(8, 2)), vec![2, 3]);
    assert_eq!(segments_touching_tile(&vec![gp(1, 1)], gp(1, 1)), Vec::<usize>::new());
}

#[test]
fn index_runs_group_consecutive_segments() {
    assert_eq!(index_runs(&vec![0, 1, 2, 5, 6, 9], 11), vec![(0, 10), (5, 10), (9, 10)]);
    assert_eq!(index_runs(&vec![3], 4), vec![(3, 4)]);
    assert_eq!(index_runs(&vec![], 0), Vec::<(usize, usize)>::new());
}

#[test]
fn visits_in_same_cell_that_overlap_are_merged() {
    let points = vec![visit(1, 1, 10, 20), visit(0, 0, 5, 6), visit(1, 1, 15, 30), visit(1, 1, 31, 40)];
    let merged = merge_visits(points);
    assert_eq!(merged, vec![visit(0, 0, 5, 6), visit(1, 1, 10, 30), visit(1, 1, 31, 40)]);
    assert_eq!(merge_visits(merged.clone()), merged);
}

#[test]
fn merging_follows_neighbours_only() {
    // the second visit ends before the third starts, so the run ends although the
    // first visit is still going on
    let points = vec![visit(2, 2, 0, 100), visit(2, 2, 10, 11), visit(2, 2, 50, 60)];
    assert_eq!(merge_sorted_visits(&points), vec![visit(2, 2, 0, 11), visit(2, 2, 50, 60)]);
    assert_eq!(merge_sorted_visits(&vec![]), vec![]);
}

#[test]
fn time_delta_adds_micros() {
    let t = TimeDelta { micros: 5 };
    assert_eq!((t + 7).micros, 12);
    assert_eq!(((t + 7) + -2).micros, (t + 5).micros);
}

#[test]
fn merge_visits_keeps_the_input_order_of_equal_keys() {
    let low = PointWTime { point: gp(4, 4), z: 1, time_start: 10, time_end: 20 };
    let high = PointWTime { z: 2, ..low };
    let later = visit(0, 0, 1_000_000_000_000_000_000_000, 1_000_000_000_000_000_000_001);
    assert_eq!(merge_visits(vec![high, later, low]), vec![later, high]);
    assert_eq!(merge_visits(vec![low, later, high]), vec![later, low]);
}
