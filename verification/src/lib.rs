//! Kubernetes protobuf bodies: the wire format, the `Unknown` envelope, token
//! requests, schema-driven decoding of API objects to JSON, and the JSON key
//! oracle derived from a descriptor set.
pub mod coverage;
pub mod descriptor;
pub mod dispatch;
pub mod envelope;
pub mod exceptions;
pub mod fields;
pub mod gnostic;
pub mod json;
pub mod keys;
pub mod layout;
pub mod object;
pub mod presence;
pub mod schema;
pub mod text;
pub mod time;
pub mod token_request;
pub mod wire;
