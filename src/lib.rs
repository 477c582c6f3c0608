//! Named, scalable Bloom filters served over a line protocol.
//!
//! `filter` holds the Bloom filter stages and the scalable filter built from
//! them; `database` the registry of warm and cold filters; `protocol` the
//! request grammar and the response lines; `server` request handling and the
//! maintenance passes; `codec` the stored form of a filter; `bitmap` and
//! `clock` and `hashing` the outside crates the library relies on.
use vstd::prelude::*;

pub mod bitmap;
pub mod clock;
pub mod codec;
pub mod database;
pub mod filter;
pub mod hashing;
pub mod protocol;
pub mod server;

use crate::filter::ScaleFactor;

verus! {

/// The address the server listens on when the configuration names none.
pub const DEFAULT_LISTEN_ON: &'static str = "127.0.0.1:4989";

/// Startup settings: where to listen, and the scale factor of new filters.
#[derive(Debug, Clone, PartialEq, Eq)]
pub struct Config {
    listen_on: String,
    scale_factor: ScaleFactor,
}

impl Config {
    pub closed spec fn spec_listen_on(&self) -> Seq<char> {
        self.listen_on@
    }

    pub closed spec fn spec_scale_factor(&self) -> ScaleFactor {
        self.scale_factor
    }

    /// Settings with the given address and scale factor.
    pub fn new(listen_on: String, scale_factor: ScaleFactor) -> (r: Config)
        ensures
            r.spec_listen_on() == listen_on@,
            r.spec_scale_factor() == scale_factor,
    {
        Config { listen_on, scale_factor }
    }

    /// The listen address.
    pub fn listen_on(&self) -> (r: &str)
        ensures
            r@ == self.spec_listen_on(),
    {
        self.listen_on.as_str()
    }

    /// The scale factor.
    pub fn scale_factor(&self) -> (r: &ScaleFactor)
        ensures
            *r == self.spec_scale_factor(),
    {
        &self.scale_factor
    }
}

} // verus!
