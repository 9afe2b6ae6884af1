//! Types shared by the encoder and the decoder.

use vstd::prelude::*;

verus! {

/// Separator between array values and between the cells of a tabular row.
#[derive(Debug, Clone, Copy, PartialEq, Eq, Structural)]
pub enum Delimiter {
    Comma,
    Tab,
    Pipe,
}

impl Delimiter {
    /// The separating character.
    pub open spec fn char_spec(self) -> char {
        match self {
            Delimiter::Comma => ',',
            Delimiter::Tab => '\t',
            Delimiter::Pipe => '|',
        }
    }

    /// The marker written inside an array header: nothing for a comma.
    pub open spec fn symbol_spec(self) -> Seq<char> {
        match self {
            Delimiter::Comma => Seq::empty(),
            Delimiter::Tab => seq!['\t'],
            Delimiter::Pipe => seq!['|'],
        }
    }

    /// Returns the separating character.
    pub fn as_char(&self) -> (r: char)
        ensures
            r == self.char_spec(),
    {
        match self {
            Delimiter::Comma => ',',
            Delimiter::Tab => '\t',
            Delimiter::Pipe => '|',
        }
    }

    /// Returns the header marker: empty for a comma, the character itself otherwise.
    pub fn header_symbol(&self) -> (r: &'static str)
        ensures
            r@ == self.symbol_spec(),
    {
        proof {
            reveal_strlit("");
            reveal_strlit("\t");
            reveal_strlit("|");
        }
        match self {
            Delimiter::Comma => "",
            Delimiter::Tab => "\t",
            Delimiter::Pipe => "|",
        }
    }
}

} // verus!
