//! Groups the files of a directory by what their names have in common.
//!
//! A file name becomes a sequence of tokens (`features`); two token sequences are compared
//! by their Jaccard index (`similarity`) or by a relation computed elsewhere; records are
//! grouped around anchors (`cluster`) and each group is named after its most frequent token
//! (`naming`). Sorting by extension (`extension`) needs none of that. `cli` holds the
//! commands and the checks made before any file is touched.

pub mod cli;
pub mod cluster;
pub mod extension;
pub mod features;
pub mod naming;
pub mod similarity;
pub mod text;
