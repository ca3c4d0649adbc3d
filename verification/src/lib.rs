//! Shell-style word splitting and quoting, verified.
//!
//! The scanner splits a character stream into words following POSIX-like
//! shell rules (whitespace separation, single and double quotes, backslash
//! escapes, `#` comments), and the paired `quote`/`join` functions produce a
//! command line that splits back into the original words.

mod laws;
mod model;
mod quoting;
mod scan;
mod strbuf;

pub use model::Error;
pub use model::is_metachar;
pub use model::is_space;
pub use model::needs_backslash;
pub use model::newlines_up_to;
pub use model::spec_skip;
pub use model::spec_parse_double;
pub use model::spec_parse_single;
pub use model::spec_parse_word;
pub use model::spec_split_from;
pub use model::spec_split;
pub use model::quoted_from;
pub use model::spec_quote;
pub use model::spec_join_from;
pub use model::spec_join;
pub use laws::lemma_quote_identity;
pub use laws::lemma_quote_round_trip;
pub use quoting::join;
pub use quoting::quote;
pub use scan::Shlex;
pub use scan::split;
