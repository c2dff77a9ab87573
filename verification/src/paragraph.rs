//! Paragraphs: a single run of prose, stored as one line of content.

use vstd::prelude::*;

verus! {

#[derive(Debug, Clone)]
pub struct Paragraph {
    pub content: String,
}

} // verus!
