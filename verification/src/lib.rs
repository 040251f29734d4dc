//! Forward-only, dependency-resolved SQL migrations for PostgreSQL.
//!
//! Migrations are plain `.sql` files that carry a `#!migration` header in SQL comments. This
//! library parses them, resolves their dependency graph into a topological order, checks them
//! against what a database has recorded, and plans what is still to be applied. Each decision
//! is a function on plain values with a contract; reading files, talking to the database and
//! printing are up to the program around it.
//!
//! # A run
//!
//! 1. [`file::load_files`] parses the files that were read, and adds to each block the implicit
//!    dependency on the block before it in its file.
//! 2. [`run::prepare`] rejects duplicate names, dangling requirements and cycles, and puts the
//!    migrations in order.
//! 3. [`ledger::decode_applied`] and [`ledger::collect_names`] take what the tracking tables
//!    hold.
//! 4. [`run::plan`] stops if an already-applied migration has changed since it was applied, and
//!    else says which migrations are to be applied.
//!
//! # Migration file format
//!
//! ```sql
//! -- #!migration
//! -- name: "tables/phone",
//! -- description: "Phone numbers attached to a person.",
//! -- requires: ["tables/person"];
//! CREATE TABLE phone (id bigint);
//! ```
//!
//! Header fields are comma-separated, the last terminated with `;`. `name` and `description`
//! are required strings; `requires` is optional and may be a single `"name"` or a list
//! `["a", "b"]`. The SQL body follows the header. `#!test` blocks are not supported and are a
//! parse error.
pub mod connection;
pub mod connection_laws;
pub mod file;
pub mod file_laws;
pub mod grammar;
pub mod grammar_format;
pub mod grammar_join;
pub mod grammar_laws;
pub mod grammar_shape;
pub mod graph;
pub mod graph_laws;
pub mod hack;
pub mod hack_laws;
pub mod hash;
pub mod ledger;
pub mod message_laws;
pub mod messages;
pub mod parser;
pub mod plan_laws;
pub mod postgres;
pub mod render;
pub mod run;
pub mod schedule;
pub mod search;
pub mod sqlx_import;
pub mod text;
pub mod text_laws;
pub mod types;
pub mod validation;
pub mod view_laws;

pub use hack::{hack_add, hack_delete, hack_fix_checksum, HackError};
pub use run::Report;
pub use types::{checksum, Error, Migration, MigrationName, Result};
