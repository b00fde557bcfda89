//! A hierarchical content store: pages form a tree addressed by slash-joined
//! slug paths, each page carries an append-only history of content revisions,
//! and a derived full-text search projection mirrors the latest content.

pub mod external;
pub mod nav_tree;
pub mod page_store;
pub mod path_codec;
pub mod revision_log;
pub mod search_index;
pub mod util;
pub mod wiki;

pub use page_store::Page;
pub use page_store::PageStore;
pub use page_store::WikiError;
pub use revision_log::PageRevision;
pub use revision_log::RevisionLog;
pub use search_index::SearchIndex;
pub use search_index::SearchResult;
pub use wiki::PageInfo;
pub use wiki::Wiki;
