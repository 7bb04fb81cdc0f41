//! Length-distribution analytics for collections of sequence files: which
//! record lengths a file holds, which of them pass a length filter, how
//! they spread over the bins of a histogram, and how keys move a browser
//! through files, lengths and filters.
//!
//! The modules, leaf first:
//!
//! * [`decimal`]: natural numbers written in decimal.
//! * [`path_order`]: the order in which paths are listed, component by
//!   component.
//! * [`fasta`]: the record lengths of FASTA text, read by the `bio` crate.
//! * [`catalog`]: sequence files and the path-sorted catalog of them.
//! * [`filter`]: the inclusive length range and the non-destructive filter.
//! * [`bins`]: the histogram of lengths.
//! * [`range_text`]: reading a filter range out of typed text.
//! * [`state`]: the states of the browser and what each key does to them.
//! * [`app`]: the controller that owns the state.

pub mod app;
pub mod bins;
pub mod catalog;
pub mod decimal;
pub mod fasta;
pub mod filter;
pub mod path_order;
pub mod range_text;
pub mod state;
