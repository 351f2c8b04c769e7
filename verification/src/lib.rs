//! Synchronization and moderation engine for a forum-to-channel forwarding
//! bot: it extracts discussion references from text, converts forum HTML to
//! markdown, derives a per-channel watermark from message history, plans
//! moderation of disallowed posts, and plans the forwarding pass.

pub mod channel;
pub mod dom;
pub mod errors;
pub mod laws;
pub mod links;
pub mod markdown;
pub mod posts;
pub mod sync;
pub mod text;
