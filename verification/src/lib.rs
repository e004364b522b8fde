//! Builds monthly invoice summaries from time-tracking entries.
//!
//! The library computes the target month's date window, models the
//! paginated fetch policy of the remote time-tracking service, prunes
//! and deduplicates the fetched entries, associates them with clients
//! through their task lists, and renders one invoice text per client.
pub mod args;
pub mod builder;
pub mod clients_parser;
pub mod collect;
pub mod date;
pub mod errors;
pub mod num;
pub mod jsonval;
pub mod teamwork;
pub mod time_api;
pub mod util;
