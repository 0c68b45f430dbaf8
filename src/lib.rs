//! Binds a terse flag schema (`"d*,p#,l"`) and a command line (`"-d /var/logs -p 8080 -l"`)
//! into a map from one-character flag names to typed values.
//!
//! A schema is a `,`-separated list of tokens: a lone character declares a switch, and a
//! character followed by `*`, `#`, `[*]` or `[#]` declares a string, a number, a string array
//! or a number array. The input is cut at each `-`; each non-empty piece names a flag by its
//! first space-delimited word and hands it the words that follow.
//!
//! A name declared twice in one schema keeps the later declaration.
pub mod arg_map;
pub mod binder;
pub mod error;
pub mod laws;
pub mod number;
pub mod schema;
pub mod text;
pub mod tokens;
pub mod value;

pub use arg_map::ArgMap;
pub use binder::parse;
pub use error::ParseErr;
pub use schema::token_to_kv;
pub use tokens::{Token, TokensIterator};
pub use value::Args;
