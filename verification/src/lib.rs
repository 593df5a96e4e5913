//! A domain-name lookup trie.
//!
//! Patterns are registered with [`DomainLookup::insert`]: an exact domain
//! such as `"api.twitter.com"`, or a wildcard suffix pattern such as
//! `".twitter.com"`, whose leading dot means "any subdomain of
//! `twitter.com`". [`DomainLookup::lookup`] then answers which registered
//! pattern a queried domain matches: a walk that consumes the whole query
//! onto the end of a registered exact domain wins outright, and otherwise
//! the deepest wildcard boundary passed strictly above the query's last
//! label is the fallback. A domain that only reaches the interior of a
//! longer pattern, or a wildcard's own concrete suffix, matches nothing.
//!
//! Domains are keyed by their labels (the dot-separated segments) in
//! reverse order, top-level domain first, so that all subdomains of one
//! domain share a path in the tree. Labels are compared by exact string
//! equality; empty labels are ordinary (if unusual) keys, so malformed
//! input is stored silently rather than rejected.

pub mod laws;
pub mod model;
pub mod segments;
pub mod trie;

pub use segments::domain_rseg;
pub use trie::DomainLookup;
pub use trie::Node;
