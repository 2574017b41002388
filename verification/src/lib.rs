//! A compact, schema-guided binary data-interchange format: an in-memory
//! value model, a recursive schema tree with named-type references, a
//! schema-driven binary encoder, the symmetric decoder, a structural
//! validator and a schema-resolution algorithm, each with a proved
//! specification of the bytes it writes or the value it returns.
pub mod decode;
pub mod encode;
pub mod float_bits;
pub mod laws;
pub mod resolve;
pub mod schema;
pub mod types;
pub mod validate;
pub mod varint;
