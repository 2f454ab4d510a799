# rtools

Tools for the text of documents: PDF pages put together again from lines and tables with their
places, cut into chunks for an OpenSearch index, turned into Markdown, and found again by words or
by sentences.

- `src/` is the library. Verus proves the contract of every function, but for the few that make one
  call into another crate or the standard library; these are named below. Floating point is done on
  the bits of the numbers (`ieee`, `binary`), so that the geometry of a page can be proved too.
- `app/` is the window round it: dialogs, workers, files, the network, and the crates that read PDF
  and other documents and make embeddings.
- `tests/` runs the library.

## Modules

- Text: `text`, `fragments`, `paths`, `snippets`
- Numbers and order: `ieee`, `binary`, `order`, `ranking`
- Pages: `geometry`, `page_order`, `blocks`, `pdf_layout`, `pdf_pages`, `pdf`, `docling_convert`
- Folders: `walk`, `listing`
- OpenSearch: `json`, `requests`, `replies`, `ingest`, `embedding`, `settings`, `opensearch`
- The window's state: `session`

The laws of a module are its public proof functions. What is taken on trust of `serde_json`, `sha2`,
`pdf_oxide` and the standard library stands in `json`, `requests`, `pdf_pages`, `paths`, `text` and
`fragments`, next to the call.
