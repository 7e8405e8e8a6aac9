pub mod encoding;
pub mod field;
pub mod scheme;

pub use scheme::generate_shares;
pub use scheme::rebuild_secret;
pub use scheme::ShamirShare;
pub use scheme::ShamirError;
