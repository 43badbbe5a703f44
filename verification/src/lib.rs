//! Curation of web-crawl archives: the bytes of an archive are fetched in
//! ranges and put back in order, cut into records, read as documents, and
//! the documents in the target language are reduced to units of clean
//! text.
//!
//! The stages, in the order in which the data passes them: `range` and
//! `reassembly` for the download, `pump` for the decompression, `warc` for
//! the framing of records, `decode` and `http` for the document in a
//! record's payload, `script` for the language gate, `markdown` for the
//! text of a page, `window`, `score` and `select` for the choice of
//! sentences, and `curate` and `pipeline` for the whole.

pub mod archive;
pub mod chars;
pub mod curate;
pub mod decimal;
pub mod decode;
pub mod headers;
pub mod http;
pub mod markdown;
pub mod pattern;
pub mod pipeline;
pub mod pump;
pub mod range;
pub mod reassembly;
pub mod score;
pub mod script;
pub mod select;
pub mod split;
pub mod warc;
pub mod window;
