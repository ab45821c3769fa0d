//! The error kinds that abort a book's traversal, each tagged with the
//! URL or context it arose from.  Recoverable markup oddities never
//! surface here: they are dropped during cleanup instead.

use vstd::prelude::*;

verus! {

#[derive(Debug)]
pub enum ScrapeError {
    /// A live fetch failed for the named URL.
    Retrieval(String),
    /// The cache could not be read or populated for the named URL.
    Cache(String),
    /// A structurally required element is absent from the named page.
    Markup(String),
    /// A relative URL could not be resolved against its base.
    Resolution(String),
    /// An image URL's extension maps to no supported media type.
    MediaType(String),
}

impl ScrapeError {
    /// The context the error was tagged with.
    pub fn context(&self) -> (r: &String)
        ensures
            *r == (match *self {
                ScrapeError::Retrieval(s) => s,
                ScrapeError::Cache(s) => s,
                ScrapeError::Markup(s) => s,
                ScrapeError::Resolution(s) => s,
                ScrapeError::MediaType(s) => s,
            }),
    {
        match self {
            ScrapeError::Retrieval(s) => s,
            ScrapeError::Cache(s) => s,
            ScrapeError::Markup(s) => s,
            ScrapeError::Resolution(s) => s,
            ScrapeError::MediaType(s) => s,
        }
    }
}

} // verus!
