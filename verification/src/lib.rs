//! A small benchmarking harness: warm-up and sampling of a measured routine,
//! grouping of the results by module path, and their layout as a table.

pub mod drawing;
pub mod metadata;
pub mod names;
pub mod order;
pub mod reorder;
pub mod partition;
pub mod sampler;
pub mod shape;
pub mod table;
pub mod text;
pub mod tree;
pub mod units;

pub use metadata::metadata_target_directory;
pub use names::{join_path, result_file_name, split_path};
pub use sampler::{Sampler, SamplerConfig, SAMPLE_TARGET_NS};
pub use table::{column_widths, layout, print_tree, print_tree_lines, table, Cell, CellStyle, Color};
pub use tree::{BenchmarkSummary, BenchmarkTree, ChangeSummary};
pub use units::count;
