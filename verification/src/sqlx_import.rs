//! Import from sqlx in two phases: convert, then import.
//!
//! [`convert::Conversion`] holds the rows of `_sqlx_migrations` against the files, has each
//! file rewritten with a `#!migration` header, and gives a receipt that anchors the sqlx
//! checksums. [`import::check_history`] verifies the rows against a receipt, and
//! [`import::plan_import`] says what is to be recorded (nothing twice). Reading and writing
//! files and rows is up to the caller.
pub mod convert;
pub mod convert_laws;
pub mod files;
pub mod header;
pub mod header_laws;
pub mod import;
pub mod import_laws;
pub mod receipt;
pub mod text;
pub mod text_laws;

pub use header::build_header;
pub use receipt::{Receipt, ReceiptEntry, SqlxImportError, RECEIPT_FILENAME};
pub use text::{extract_description_and_body, normalise_name};
