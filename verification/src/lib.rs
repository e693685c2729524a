//! A minimal legacy-format cryptocurrency transaction library: domain types
//! for transactions and their components, a fluent builder, a binary codec
//! (length-prefixed, little-endian wire layout) with a proved round-trip,
//! and a small command-line token parser.

pub mod builder;
pub mod cli;
pub mod codec;
pub mod error;
pub mod types;

pub use builder::LegacyTransactionBuilder;
pub use cli::CliCommand;
pub use cli::parse_cli_args;
pub use codec::BitcoinSerialize;
pub use error::BitcoinError;
pub use types::LegacyTransaction;
pub use types::OutPoint;
pub use types::Point;
pub use types::TxInput;
pub use types::TxOutput;
