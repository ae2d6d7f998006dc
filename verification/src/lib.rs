pub mod codec;
pub mod generator;
pub mod pipeline;
pub mod utilities;
pub mod wal;
