//! Decoder for DICOM run-length-encoded pixel data.
//!
//! An encoded image consists of a 64-byte header that lists where each
//! segment starts, followed by the segments themselves. Every segment is a
//! stream of literal and replicated runs that holds one byte plane of the
//! image. Decoding writes the planes back into one interleaved pixel buffer
//! and reports malformed input through diagnostics instead of panicking.
//!
//! * [`header`] parses the header.
//! * [`get_segments`] splits the encoded image into its segments.
//! * [`decode_segment`] decodes one segment into its plane.
//! * [`decode`] decodes whole images, into bytes or 16-bit samples.
//! * [`decoder_new`] decodes images held in vectors, strictly or partially.
//! * [`diagnostics`] and [`error`] hold what a decode reports.
//! * [`encoding`] and [`guarantees`] state and prove what the decoder
//!   guarantees: that it restores what was encoded, that it notices an image
//!   that was cut short, and that it ignores the unused header slots.

pub mod decode;
pub mod decode_segment;
pub mod decoder_new;
pub mod diagnostics;
pub mod encoding;
pub mod error;
pub mod get_segments;
pub mod guarantees;
pub mod header;
