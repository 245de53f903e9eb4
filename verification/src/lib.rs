//! A reader and writer for a small S-expression data language.
//!
//! The reader consumes a character sequence and produces one `PoseType`
//! value per call; the writer renders a `PoseType` back to canonical text.
//! Numbers are kept as exact decimal values: a sign, a digit string and a
//! power-of-ten exponent.

pub mod types;
pub mod parser;
pub mod laws;
pub mod text;
pub mod writer;

pub use parser::Pose;
pub use parser::PoseResult;
pub use parser::parse_one;
pub use types::PoseError;
pub use types::PoseNum;
pub use types::PoseType;
pub use types::Form;
