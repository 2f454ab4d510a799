//! Document text tools: the pages of PDF files put together again, cut into chunks, turned into
//! Markdown, and found again in an index.
pub mod binary;
pub mod blocks;
pub mod docling_convert;
pub mod embedding;
pub mod fragments;
pub mod geometry;
pub mod ieee;
pub mod ingest;
pub mod json;
pub mod listing;
pub mod opensearch;
pub mod order;
pub mod page_order;
pub mod paths;
pub mod pdf;
pub mod pdf_layout;
pub mod pdf_pages;
pub mod ranking;
pub mod replies;
pub mod requests;
pub mod session;
pub mod settings;
pub mod snippets;
pub mod text;
pub mod walk;
