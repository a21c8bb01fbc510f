//! The `files` listing: the game's serialized files.

use vstd::prelude::*;

use crate::output::Render;
use crate::text;

verus! {

/// The game's serialized files.
#[derive(Debug, PartialEq, Eq)]
pub struct Files(pub Vec<String>);

impl Render for Files {
    open spec fn text(&self, color: bool) -> Seq<char> {
        text::lines_of(text::texts(self.0@))
    }

    fn render(&self, color: bool) -> (out: String) {
        text::lines(&self.0)
    }
}

} // verus!
