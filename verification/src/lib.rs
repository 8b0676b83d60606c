pub mod hex;
pub mod base64;
pub mod uuid;
pub mod text;
pub mod encoding;
pub mod semver;
pub mod csv;
pub mod dotenvy;
pub mod rand;
pub mod anyhow;
pub mod serde;
pub mod json;
pub mod toml;
pub mod regex;
pub mod ryu;
