//! Canonical forms of parsed URLs.
//!
//! A URL is brought into a stable, comparable form in three stages: its query
//! pairs are put into canonical order, its fragment is removed, and a secure
//! or aliased scheme is replaced by its plain counterpart. Two URLs that
//! differ only in the order of their query pairs, in their fragment, or in
//! the secure variant of their scheme have the same canonical form.

pub mod key_order;
pub mod limits;
pub mod normalize;
pub mod pairs;
pub mod parsed_url;
pub mod scheme;

pub use key_order::{cmp_string, comes_before};
pub use limits::can_rewrite_query;
pub use normalize::{
    checked_normalize, checked_normalize_query, normalize, normalize_hash, normalize_query,
    normalize_scheme, NormalizationError,
};
pub use pairs::{sort_pairs, QueryPair};
