//! A command-line argument parser in the style of Python's `argparse`.
//!
//! A parser is built up from variables (each with an initial value), the
//! options and positional arguments that write them, and environment
//! variables that can preset them.  Parsing a command line yields the final
//! value of every variable, or the help/error outcome that the command line
//! asks for.
pub mod action;
pub mod context;
pub mod generic;
pub mod help;
pub mod laws;
pub mod parser;
pub mod text;

pub use action::{Action, ArgAction, FlagAction, ParseResult, Scalar, ScalarType, TypedAction, Value};
pub use context::{Context, ParseReport};
pub use generic::{
    Collect, List, ListAction, Store, StoreAction, StoreConst, StoreConstAction, StoreOption,
    StoreOptionAction,
};
pub use help::HelpFormatter;
pub use parser::{ArgumentKind, ArgumentParser, Ref, Var};
