//! EPUB Manager: reading the metadata of EPUB books, enriching it from Open
//! Library and Wikidata, and copying the books of a Source Library to places in an
//! Output Library that follow from their metadata.
//!
//! Everything here computes on plain values. Where files, archives on disk or the
//! network come in, the library says what is to be done next and goes on with
//! what came of it.

pub mod archive;
pub mod cli;
pub mod copier;
pub mod enrichment;
pub mod epub_metadata;
pub mod epub_writer;
pub mod markup;
pub mod normalize;
pub mod output_path;
pub mod package;
pub mod pairs;
pub mod path;
pub mod scan;
pub mod series_elements;
pub mod series_metadata;
pub mod text;
