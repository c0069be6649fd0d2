//! JSON values with a lenient parser, a compact serializer, and the filling
//! of typed records from objects, field by field.
//!
//! `model`, `grammar` and `rendering` say what a value is, what the parser
//! reads and what the serializer writes. `serializer`, `deserializer` and
//! `client` hold the code that does it. `round_trip` and `whitespace` prove
//! what holds of the two together.

pub mod client;
pub mod deserializer;
pub mod grammar;
pub mod model;
pub mod rendering;
pub mod round_trip;
pub mod serializer;
pub mod strings;
pub mod whitespace;
