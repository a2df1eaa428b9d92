//! Decoding of DTED elevation tiles and exact queries on the decoded grid.
//!
//! Angles and positions are measured in tenths of an arcsecond, the unit of
//! the format's spacing fields, so that every grid post has an exact integer
//! coordinate and interpolation can be carried out without rounding.
mod angle;
mod dted_data;
mod parser;

pub use angle::{angle_tenths, lemma_angle_tenths_bound, Angle, TENTHS_PER_DEGREE};
pub use dted_data::{
    axis_cell, lemma_corner_defined, lemma_post_in_grid, lemma_every_post_produced, lemma_exact_at_posts,
    lemma_outside_not_found, lemma_posts_longitude_major, DtedData, DtedDataIntoIterator,
    DtedHeader, DtedRecord, Interpolated,
};
pub use parser::{
    bytes_to_num, decodes_to, first_bad_record, lemma_digits_concat, pow10, record_fault, file_error, header_error, header_of, lemma_truncated_rejected,
    lemma_wrong_tag_rejected, parse_dted_file, parse_dted_header, parse_record, record_matches,
    signed_magnitude, to_i16, Error, ParseReason, HEADER_LEN, RECORDS_START, RECORD_SENTINEL,
};
