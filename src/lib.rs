//! Finds groups of words whose letters are pairwise distinct.
//!
//! Words are encoded as letter masks, the masks form a compatibility graph,
//! a backtracking search enumerates the cliques of a fixed size, and the
//! cliques are expanded back into concrete word tuples.
pub mod args;
pub mod codec;
pub mod dictionary;
pub mod graph;
pub mod persist;
pub mod search;
pub mod words;

pub use args::{parse_input_ouput_args, ArgsError, InputOutput};
pub use codec::{word_to_bitmap, BitmapError};
pub use dictionary::{materialize, Dictionary};
pub use graph::{build_graph, Graph};
pub use persist::{format_graph_line, format_solution, parse_graph_line, parse_solution};
pub use search::find_all_cliques;
pub use words::combinations;
