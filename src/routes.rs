//! The logic behind the subscription endpoints.
pub mod subscriptions;
pub mod subscriptions_confirm;
