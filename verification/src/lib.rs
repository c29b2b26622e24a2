//! A rate limiter for byte-encoded keys: replenishing quotas driven by
//! configurable rules, and a whitelist of key filters that bypass limiting.

pub mod error;
pub mod event;
pub mod filter;
pub mod pallet;
pub mod quota;
pub mod rule;
pub mod store;
pub mod whitelist;

pub use error::Error;
pub use error::RateLimiterError;
pub use event::Event;
pub use filter::KeyFilter;
pub use pallet::Pallet;
pub use quota::Moment;
pub use quota::QuotaState;
pub use rule::RateLimitRule;
pub use store::RateLimiterId;
pub use whitelist::Whitelist;
