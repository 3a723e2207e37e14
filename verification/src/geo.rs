//! A place-name lookup used by the demo sessions.

use vstd::prelude::*;
use crate::text::{contains_text, text_contains};

verus! {

pub struct GeoDb {
    name: String,
    hits: u32,
}

impl GeoDb {
    pub closed spec fn name_view(&self) -> Seq<char> {
        self.name@
    }

    pub closed spec fn hits_view(&self) -> u32 {
        self.hits
    }

    pub fn new(name: String, hits: u32) -> (db: GeoDb)
        ensures
            db.name_view() == name@,
            db.hits_view() == hits,
    {
        GeoDb { name, hits }
    }

    /// How many hits the database has served.
    pub fn hits(&self) -> (hits: u32)
        ensures
            hits == self.hits_view(),
    {
        self.hits
    }

    /// Whether `query` occurs in the database's name.
    pub fn lookup(&self, query: &str) -> (found: bool)
        ensures
            found == contains_text(self.name_view(), query@),
    {
        text_contains(self.name.as_str(), query)
    }
}

} // verus!
