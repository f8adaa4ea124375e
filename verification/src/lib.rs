//! Microsoft Learn exporter: turns a certification, an exam, a learning path, a course or a module
//! into an EPUB study book.
//!
//! The library knows how to resolve an input into an ordered book tree (certification, learning
//! paths, modules, units) by querying the Microsoft Learn Catalog API, how to find each unit's
//! content, and how to assemble and pack the book. It performs no IO: what has to be fetched it
//! asks for, and it takes what was fetched.

pub mod archive;
pub mod assemble;
pub mod catalog;
pub mod content;
pub mod epub;
pub mod error;
pub mod export;
pub mod guide;
pub mod images;
pub mod input;
pub mod markdown;
pub mod outline;
pub mod pages;
pub mod quiz;
pub mod resolve;
pub mod resolver;
pub mod sample;
pub mod scrape;
pub mod text;
pub mod tree;

pub use catalog::CatalogQuery;
pub use catalog::CATALOG_BASE;
pub use content::build_content_index;
pub use content::module_slug_from_url;
pub use content::unit_slug_from_uid;
pub use content::ContentIndex;
pub use content::ModuleFiles;
pub use content::LEARN_RAW_BASE;
pub use content::LEARN_TREE_URL;
pub use error::FetchError;
pub use error::ResolveError;
pub use input::exam_code_label;
pub use input::extract_exam_uid;
pub use input::parse_input;
pub use input::LearnInput;
pub use outline::render_outline;
pub use tree::Book;
pub use tree::ModuleNode;
pub use tree::Part;
pub use tree::UnitNode;
