use vstd::prelude::*;

verus! {

/// Default URL to load bank holidays from.
pub const SOURCE_URL: &'static str = "https://www.gov.uk/bank-holidays.json";

/// Where bank holidays in JSON format are loaded from over HTTP.
pub struct Reqwest<'a> {
    url: &'a str,
}

impl<'a> Reqwest<'a> {
    /// The URL that this source loads from.
    pub closed spec fn spec_url(&self) -> Seq<char> {
        self.url@
    }

    /// A source loading bank holidays in JSON format from the given URL.
    pub fn new(url: &'a str) -> (r: Reqwest<'a>)
        ensures
            r.spec_url() == url@,
    {
        Reqwest { url }
    }

    /// The URL that this source loads from.
    pub fn url(&self) -> (r: &'a str)
        ensures
            r@ == self.spec_url(),
    {
        self.url
    }
}

impl Default for Reqwest<'static> {
    fn default() -> (r: Reqwest<'static>)
        ensures
            r.spec_url() == SOURCE_URL@,
    {
        Reqwest::new(SOURCE_URL)
    }
}

} // verus!
