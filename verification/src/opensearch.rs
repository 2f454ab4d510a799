//! The index of documents: what is sent to it and what is made of its answers.
pub use crate::ingest::{ingest_files, ingest_pdfs, FilesRead, IngestReport};
pub use crate::replies::{
    bulk_index, parse_bulk_indexed, parse_search_response, post_search, read_bulk_response,
    read_search_response, Reply, SearchHit, SearchOutcome,
};
pub use crate::requests::{
    build_bulk_body, document_id, knn_search, knn_search_body, new_index_body, search,
    search_knn_vector, SEARCH_SIZE,
};
pub use crate::snippets::{snippet_segments, HIGHLIGHT_POST, HIGHLIGHT_PRE};
