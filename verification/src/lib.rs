//! Mock host functions for a sandboxed guest program: a positional,
//! comma-delimited parameter decoder and the call registries built on it.

pub mod csv_deserializer;
pub mod environment_linker;
pub mod error;
pub mod input_linker;
pub mod system_linker;
pub mod text;
