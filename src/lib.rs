pub mod bigint;
pub mod laws;
pub mod magnitude;
pub mod primality;
pub mod random;
pub mod root;
pub mod symbols;
pub mod text;

pub use bigint::BigInt;
pub use random::{ByteSource, RecordingSource};
