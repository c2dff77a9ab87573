//! Headings: a level between one and six and a line of content.

use vstd::prelude::*;

use crate::classify::heading_content;
use crate::classify::heading_level;
use crate::classify::heading_parts;
use crate::classify::is_heading;
use crate::markdown::BlockView;
use crate::markdown::MarkdownBlock;
use crate::scan::trim_spec;

verus! {

#[derive(Debug, Clone)]
pub struct Heading {
    pub level: u32,
    pub content: String,
}

impl Heading {
    pub fn new(level: u32, content: String) -> (r: Self)
        ensures
            r.level == level,
            r.content == content,
    {
        Heading { level, content }
    }

    pub fn replace(&mut self, new_content: String)
        ensures
            final(self).level == old(self).level,
            final(self).content == new_content,
    {
        self.content = new_content;
    }
}

/// Parses one line as a heading: `Some` exactly when the trimmed line has one
/// to six `'#'` characters, whitespace, and nonempty content.
pub fn parse_heading(line: &str) -> (r: Option<MarkdownBlock>)
    ensures
        (r is Some <==> is_heading(trim_spec(line@))),
        (r matches Some(b) ==> b@ == (BlockView::Heading {
            level: heading_level(trim_spec(line@)),
            content: heading_content(trim_spec(line@)),
        })),
{
    let t = crate::scan::trim_of(line);
    match heading_parts(t) {
        Some((level, content)) => Some(
            MarkdownBlock::Heading(Heading { level, content: String::from_str(content) }),
        ),
        None => None,
    }
}

} // verus!
