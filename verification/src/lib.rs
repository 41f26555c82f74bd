//! Tile, cell and trajectory logic for rendering vessel movements onto map tiles.
pub mod bounds;
pub mod cell;
pub mod draught;
pub mod error_measure;
mod keyed;
pub mod migration;
pub mod sql;
pub mod tile_filter;
pub mod tiles;
pub mod time_delta;
pub mod visits;

pub use bounds::{relative_to_bounds, MinmaxBounds};
pub use cell::{Cell, GridPoint, PointWTime, PointWZ};
pub use draught::{combine_same_draught, fix_draught_segment_time_range, get_draught_combine, DraughtKey};
pub use error_measure::{
    error_bits_from_order_key, error_order_key, line_error_from_ground_truth, merge_cells,
    ErrorMeasurementConf, ErrorMeasurementMethod,
    RenderingModel,
};
pub use migration::{first_pending_migration, migration_to_record};
pub use sql::{ais_data_view_sql, candidate_cells_sql, ddm_import_sql, trajectory_view_sql};
pub use tile_filter::{index_runs, segments_touching_tile, FilterTile};
pub use tiles::{parse_i32_piece, parse_tile, scale_tile_end, scale_tile_start};
pub use time_delta::TimeDelta;
pub use visits::{merge_sorted_visits, merge_visits};
