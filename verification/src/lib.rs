//! Host-side logic of a shogi NNUE trainer.

pub mod binary32;
pub mod rounding;
pub mod rounding_laws;
pub mod arithmetic;
pub mod identities;
pub mod binary64;
pub mod wide_arithmetic;
pub mod wide_laws;
pub mod integers;
pub mod little_endian;
pub mod progress_bin_format;
pub mod progress_bin;
pub mod buckets;
pub mod bucket_laws;
pub mod format_laws;
pub mod calibration_laws;
pub mod sorting;
pub mod sampling;
pub mod histogram;
pub mod histogram_laws;
pub mod path_list;
pub mod survey_text;
pub mod survey;
pub mod survey_laws;
pub mod text;
pub mod text_laws;
pub mod lr_schedule;
pub mod wdl_schedule;
pub mod order;
pub mod nearest_laws;
pub mod integer_laws;
pub mod schedule_laws;
pub mod curve_laws;
pub mod rate_laws;
pub mod choice_laws;
pub mod optimizer;
pub mod gpu_runtime;
pub mod kernel_module;
