//! Request signing for an object-storage API: a credential profile and the
//! HMAC-SHA1 authorization header computed from a canonical form of a request.

pub mod profile;
pub mod canonical;
pub mod sign;
