//! Translates a JSON-Schema-like document into record declarations of
//! a data-modeling language, with each record field annotated by the
//! schema key it came from.
//!
//! The pipeline has three verified stages: the resolver lowers the
//! schema tree into an intermediate representation of records and
//! types while collecting named definitions into a registry; the
//! dependency sorter orders the registry so that every definition
//! follows the definitions it references, refusing cycles; and the
//! printer renders the ordered registry and the root record as text.

pub mod dataclass;
pub mod error;
pub mod names;
pub mod printer;
pub mod resolve;
pub mod schema;
pub mod sorter;
pub mod strutil;
