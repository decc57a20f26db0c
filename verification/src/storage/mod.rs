//! Paged storage: the file header, page buffers, the page cache and the
//! page file.
pub mod file_header;
pub mod page;

pub use file_header::{FileHeader, PAGE_SIZE};
pub use page::{Page, PageType, PageManager, PageCache};
