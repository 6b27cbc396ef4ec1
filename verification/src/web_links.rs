//! Supplementary web links attached to an upstream response event.

use vstd::prelude::*;

verus! {

/// One supplementary link: an address, an optional title and snippet.
#[derive(Debug, Clone)]
pub struct SupplementaryWebLink {
    pub url: String,
    pub title: String,
    pub snippet: Option<String>,
}

/// The payload of a supplementary-web-links response event.
#[derive(Debug, Clone)]
pub struct SupplementaryWebLinksEvent {
    pub supplementary_web_links: Vec<SupplementaryWebLink>,
}

} // verus!
