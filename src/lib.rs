pub mod engine;
pub mod filter;
pub mod laws;
pub mod scan;
pub mod text;

pub use engine::{replace_all, LinkError, SourceFile};
pub use filter::filter_features;
pub use scan::{find_links, Link, LinkType};
