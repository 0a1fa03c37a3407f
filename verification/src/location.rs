//! Where a match was found.
use vstd::prelude::*;

use crate::paint::{
    joined, piece_views, plain_parts, render, rendering, three_pieces_say, two_pieces_say, Ink, Piece,
};
use crate::text::{numeral, numeral_text};

verus! {

/// A source file, or a function of a binary.
#[derive(Debug, PartialEq, Eq, Hash)]
pub enum Location {
    SourceFile { path: String },
    BinaryFunction { path: String, address: u64 },
}

impl Clone for Location {
    fn clone(&self) -> (copy: Location)
        ensures
            copy == *self,
    {
        match self {
            Location::SourceFile { path } => Location::SourceFile { path: path.clone() },
            Location::BinaryFunction { path, address } => Location::BinaryFunction {
                path: path.clone(),
                address: *address,
            },
        }
    }
}

impl Location {
    /// How the place is written: a source file with the line, a function with its address.
    pub open spec fn heading(self, line: nat) -> Seq<(Ink, Seq<char>)> {
        match self {
            Location::SourceFile { path } => seq![
                (Ink::GreenBold, path@),
                (Ink::Plain, ":"@ + numeral(line, 10)),
            ],
            Location::BinaryFunction { path, address } => seq![
                (Ink::GreenBold, path@),
                (Ink::Plain, ": "@),
                (Ink::Yellow, "0x"@ + numeral(address as nat, 16)),
            ],
        }
    }

    /// The pieces of the heading for a match on the given line.
    pub fn heading_pieces(&self, line: usize) -> (pieces: Vec<Piece>)
        ensures
            piece_views(pieces@) == self.heading(line as nat),
    {
        let mut pieces: Vec<Piece> = Vec::new();
        match self {
            Location::SourceFile { path } => {
                let mut number = ":".to_owned();
                number.append(numeral_text(line as u64, 10).as_str());
                pieces.push(Piece::new(Ink::GreenBold, path.as_str()));
                pieces.push(Piece { ink: Ink::Plain, text: number });
            },
            Location::BinaryFunction { path, address } => {
                let mut number = "0x".to_owned();
                number.append(numeral_text(*address, 16).as_str());
                pieces.push(Piece::new(Ink::GreenBold, path.as_str()));
                pieces.push(Piece::new(Ink::Plain, ": "));
                pieces.push(Piece { ink: Ink::Yellow, text: number });
            },
        }
        assert(piece_views(pieces@) =~= self.heading(line as nat));
        pieces
    }

    /// The heading for a match on the given line.
    pub fn format_with_line(&self, line: usize) -> (text: String)
        ensures
            rendering(self.heading(line as nat), text@),
    {
        render(&self.heading_pieces(line))
    }
}

/// What a heading says: the path, then the number of the line, or the address of the function. The
/// path is picked out in green, the address in yellow.
pub proof fn headings_name_the_place(place: Location, line: nat)
    ensures
        ({
            let pieces = place.heading(line);
            match place {
                Location::SourceFile { path } => {
                    &&& joined(plain_parts(pieces)) == path@ + ":"@ + numeral(line, 10)
                    &&& pieces[0] == (Ink::GreenBold, path@)
                    &&& pieces.len() == 2
                    &&& pieces[1].0 == Ink::Plain
                },
                Location::BinaryFunction { path, address } => {
                    &&& joined(plain_parts(pieces)) == path@ + ": 0x"@ + numeral(
                        address as nat,
                        16,
                    )
                    &&& pieces[0] == (Ink::GreenBold, path@)
                    &&& pieces[1] == (Ink::Plain, ": "@)
                    &&& pieces.len() == 3
                    &&& pieces[2].0 == Ink::Yellow
                },
            }
        }),
{
    let pieces = place.heading(line);
    match place {
        Location::SourceFile { path } => {
            two_pieces_say(pieces[0], pieces[1]);
            assert(pieces =~= seq![pieces[0], pieces[1]]);
            assert(path@ + (":"@ + numeral(line, 10)) =~= path@ + ":"@ + numeral(line, 10));
        },
        Location::BinaryFunction { path, address } => {
            reveal_strlit(": ");
            reveal_strlit("0x");
            reveal_strlit(": 0x");
            let number = numeral(address as nat, 16);
            three_pieces_say(pieces[0], pieces[1], pieces[2]);
            assert(pieces =~= seq![pieces[0], pieces[1], pieces[2]]);
            assert(path@ + ": "@ + ("0x"@ + number) =~= path@ + ": 0x"@ + number);
        },
    }
}

} // verus!
