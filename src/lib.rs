//! Conditioning of timestamped load series: gap filling on a regular grid,
//! masking of bad readings, anomaly bands, the shape of smoothing windows,
//! hourly grouping and the reading of records.
//!
//! Load values are of a type the caller chooses, with a value of its own
//! that marks a missing reading; stamps are whole seconds with a fixed
//! offset.

mod anomaly;
mod error;
mod index;
mod record;
mod series;
mod time;
mod window;

pub use anomaly::{
    anomaly_config, ascending, covered, covered_upto, find_anomalies, quartile_rank,
    window_count, MIN_DATA_IQR,
};
pub use error::{EmptyTimeLoad, LenErr, SeriesError};
pub use index::{
    all_below, discharge_by_index, in_index_set, kept, lemma_mark_idempotent, marked,
    setnan_by_index,
};
pub use record::{
    comma_free, fields_at, parse_bad_datetimes, parse_record, rfc3339_instant, RecordError, COMMA,
};
pub use series::{
    evenly_spaced, filled_loads, filled_times, first_hit, gap_len, hour_changes, in_daily_interval,
    keys_in_range, lemma_fill_on_grid, lemma_fill_one_double_gap, lemma_fill_regular_unchanged,
    min_step, min_step_upto, on_grid, rising, run_start, step, strictly_increasing, TimeLoad,
};
pub use time::{
    div_toward_zero, first_rounded, first_rounded_secs, hour_key_secs, local_secs, min_and_max,
    minute_of_hour, missed_slots, suitable_xfmt, time_of_day, Stamp, SECS_PER_DAY, SECS_PER_HOUR,
    SECS_PER_WEEK,
};
pub use window::{centered_basis, mirror_window, mirrored, window_side};
