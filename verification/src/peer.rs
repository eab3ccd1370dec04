//! Peer identifiers.
//!
//! A peer id is an opaque, comparable identifier of a mesh participant. The
//! transport's identity layer mints the underlying text; this crate only
//! stores and compares it.

use vstd::prelude::*;

verus! {

/// Identifier of a mesh participant, as the text form handed out by the
/// transport's identity layer.
pub struct PeerId {
    id: String,
}

impl View for PeerId {
    type V = Seq<char>;

    /// The identifier's text, as a sequence of characters.
    closed spec fn view(&self) -> Seq<char> {
        self.id@
    }
}

impl PeerId {
    /// Wrap the text form of a peer identifier.
    pub fn new(id: String) -> (r: PeerId)
        ensures
            r@ == id@,
    {
        PeerId { id }
    }

    /// The identifier's text.
    pub fn as_text(&self) -> (r: &String)
        ensures
            r@ == self@,
    {
        &self.id
    }

    /// Whether two peer ids name the same participant.
    pub fn same_peer(&self, other: &PeerId) -> (r: bool)
        ensures
            r == (self@ == other@),
    {
        self.id == other.id
    }
}

impl Clone for PeerId {
    fn clone(&self) -> (r: Self)
        ensures
            r@ == self@,
    {
        PeerId { id: self.id.clone() }
    }
}

} // verus!
