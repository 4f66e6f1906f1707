//! The decision core of a local web scraper.
//!
//! Everything that fetches, sleeps, locks or reads a clock is left to the caller. What remains
//! is here, with its contract:
//!
//! - [`fetcher`] tells walls from content and climbs from plain HTTP to a browser;
//! - [`markup`], [`extractor`], [`media`] and [`pdf`] make pages readable, [`focus`] and
//!   [`paging`] narrow them to what was asked for, and [`answer`] judges them and puts the
//!   answer together;
//! - [`scrape`], [`batch`], [`sitemap`], [`crawl`] and [`search`] decide what is fetched, in
//!   which order, and what is answered of it;
//! - [`cache`] remembers answers for an hour;
//! - [`address`], [`encoding`], [`order`], [`request`], [`browser`] and [`text`] serve them;
//! - [`bindings`] holds what is taken on trust from other crates.

pub mod address;
pub mod answer;
pub mod batch;
pub mod bindings;
pub mod browser;
pub mod cache;
pub mod crawl;
pub mod encoding;
pub mod extractor;
pub mod fetcher;
pub mod focus;
pub mod markup;
pub mod media;
pub mod order;
pub mod paging;
pub mod pdf;
pub mod request;
pub mod scrape;
pub mod search;
pub mod sitemap;
pub mod text;
