//! A Base64 codec with verified encoding and decoding.
//!
//! The standard alphabet (`A-Z`, `a-z`, `0-9`, `+`, `/`) is used, with `=`
//! padding. Encoding is total; decoding validates its input strictly and
//! reports a [`base64::DecodeError`] for every malformed input.

pub mod base64;
