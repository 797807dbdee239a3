//! A reverse proxy core for hyper: hop-by-hop header removal, forwarding-URI
//! construction and `X-Forwarded-For` chain maintenance, with the decisions
//! that a dispatcher takes on the origin's answer.
pub mod error;
pub mod forward;
pub mod headers;
pub mod proxy;
pub mod text;
