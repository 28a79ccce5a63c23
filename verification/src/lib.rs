//! Detects links that point at the broken CDN host variant of a chat
//! platform, rewrites them to their canonical form, and tracks which of the
//! process's own replies belong to which user message so that a reply can be
//! retracted once the user has fixed their message.

pub mod rewriter;
pub mod router;
pub mod store;
