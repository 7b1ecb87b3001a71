//! The vocabulary of the Go Text Protocol, version 2: vertices, colours, moves
//! and the texts that stand for them on the wire.

use vstd::prelude::*;
use crate::text::{
    chars_of, code, push_char, push_chars, decimal, decimal_chars, parsed_u32, parse_u32,
    lemma_decimal_read_back, lemma_parsed_decimal,
    same_text, tokens, word_bounds,
};

verus! {

/// Why a text of the protocol could not be written or read.
#[derive(Clone, Debug, PartialEq, Eq)]
pub enum GtpError {
    /// A coordinate of a vertex is 25 or more: the protocol has no letter for it.
    VertexOutOfRange,
    /// The text of a vertex has less than two bytes.
    VertexTooShort,
    /// The text of a vertex does not start with a column letter, or names row 0.
    IllegalVertex,
    /// The row of a vertex is not a number.
    BadNumber,
    /// A text that must hold one word holds none, or several.
    NotSingleToken,
    /// The engine answered with nothing but white space.
    EmptyResponse,
    /// The engine reported a failure, with this message.
    Failure(String),
    /// The engine answered to another command than the one sent; the whole
    /// response is kept.
    Unexpected(String),
    /// The engine answered a question with something else than `true` or `false`.
    BadAnswer,
    /// A score is neither `0` nor a colour, a plus sign and an amount.
    IllegalScore,
    /// The text could not be sent to the engine, or no response could be read.
    Io(String),
}

/// An intersection of the board, or a pass.
#[derive(Clone, Copy, Debug, PartialEq, Eq, Structural)]
pub enum Vertex {
    Pass,
    /// Column and row, counted from zero, the origin at the bottom left corner.
    Coordinate(u32, u32),
}

/// A colour and the vertex it plays.
#[derive(Clone, Copy, Debug, PartialEq, Eq, Structural)]
pub struct GTPMove {
    color: Color,
    vertex: Vertex,
}

/// What an engine answers when asked for a move.
#[derive(Clone, Copy, Debug, PartialEq, Eq, Structural)]
pub enum GenMove {
    Resign,
    Play(Vertex),
}

/// One of the two players.
#[derive(Clone, Copy, Debug, PartialEq, Eq, Structural)]
pub enum Color {
    Black,
    White,
}

/// The state of a group at the end of a game.
#[derive(Clone, Copy, Debug, PartialEq, Eq, Structural)]
pub enum Status {
    Alive,
    Seki,
    Dead,
}

/// The letter of column `x`: `A` for 0 and onwards through the alphabet, which
/// here has no `I`.
pub open spec fn column_letter(x: nat) -> char {
    if x < 8 {
        (65 + x) as char
    } else {
        (66 + x) as char
    }
}

/// The column that the letter `c` names, in either case; `I` names none.
pub open spec fn column_of(c: char) -> Option<u32> {
    let u = if 97 <= c as int <= 122 {
        c as int - 32
    } else {
        c as int
    };
    let v = if u > 73 {
        u - 1
    } else {
        u
    };
    if u != 73 && 0 <= v - 65 <= 25 {
        Some((v - 65) as u32)
    } else {
        None
    }
}

/// What the text `s` means as a vertex.
pub open spec fn parsed_vertex(s: Seq<char>) -> Result<Vertex, GtpError> {
    if s.len() == 0 || (s.len() == 1 && (s[0] as int) < 128) {
        Err(GtpError::VertexTooShort)
    } else if s == "pass"@ {
        Ok(Vertex::Pass)
    } else {
        match column_of(s[0]) {
            None => Err(GtpError::IllegalVertex),
            Some(x) => match parsed_u32(s.skip(1)) {
                None => Err(GtpError::BadNumber),
                Some(row) => if row == 0 {
                    Err(GtpError::IllegalVertex)
                } else {
                    Ok(Vertex::Coordinate(x, (row - 1) as u32))
                },
            },
        }
    }
}

/// The text of a vertex is read back as that vertex.
pub proof fn lemma_vertex_read_back(v: Vertex)
    requires
        v.text() is Some,
    ensures
        parsed_vertex(v.text()->0) == Ok::<Vertex, GtpError>(v),
{
    reveal_strlit("pass");
    match v {
        Vertex::Pass => {
            assert("pass"@.len() == 4);
        },
        Vertex::Coordinate(x, y) => {
            let s = v.text()->0;
            let row = (y + 1) as nat;
            lemma_decimal_read_back(row);
            lemma_parsed_decimal(row);
            assert(s[0] == column_letter(x as nat));
            assert(s[0] as int != "pass"@[0] as int);
            assert(s.skip(1) =~= decimal(row));
            assert(column_of(s[0]) == Some(x));
        },
    }
}

impl Vertex {
    /// The text of the vertex: `pass`, or the column letter and the row counted
    /// from one. There is none where a coordinate is 25 or more.
    pub open spec fn text(self) -> Option<Seq<char>> {
        match self {
            Vertex::Pass => Some("pass"@),
            Vertex::Coordinate(x, y) => if x >= 25 || y >= 25 {
                None
            } else {
                Some(seq![column_letter(x as nat)] + decimal((y + 1) as nat))
            },
        }
    }

    /// The text of the vertex.
    pub fn to_string(&self) -> (r: Result<String, GtpError>)
        ensures
            match self.text() {
                Some(t) => r matches Ok(s) && s@ == t,
                None => r == Err::<String, GtpError>(GtpError::VertexOutOfRange),
            },
    {
        match *self {
            Self::Pass => Ok("pass".to_owned()),
            Self::Coordinate(x, y) => {
                if x >= 25 || y >= 25 {
                    Err(GtpError::VertexOutOfRange)
                } else {
                    let mut x_char: u32 = 65 + x;
                    if x_char >= 73 {
                        x_char = x_char + 1;
                    }
                    let x_char = (x_char as u8) as char;
                    let y_str = decimal_chars(y + 1);
                    let mut s = String::new();
                    push_char(&mut s, x_char);
                    push_chars(&mut s, &y_str);
                    assert(s@ =~= seq![column_letter(x as nat)] + decimal((y + 1) as nat));
                    Ok(s)
                }
            },
        }
    }

    /// The vertex that the text `s` names: `pass`, or a column letter in either
    /// case followed by the row as a number from one.
    pub fn from_string(s: &str) -> (r: Result<Vertex, GtpError>)
        ensures
            r == parsed_vertex(s@),
    {
        let v = chars_of(s);
        if v.len() == 0 || (v.len() == 1 && code(v[0]) < 128) {
            Err(GtpError::VertexTooShort)
        } else if same_text(&v, 0, v.len(), "pass") {
            assert(v@.subrange(0, v@.len() as int) =~= v@);
            Ok(Vertex::Pass)
        } else {
            assert(v@.subrange(0, v@.len() as int) =~= v@);
            let mut x = code(v[0]);
            if 97 <= x && x <= 122 {
                x = x - 32;
            }
            if x == 73 {
                return Err(GtpError::IllegalVertex);
            }
            if x > 73 {
                x -= 1;
            }
            if !(x >= 65 && x <= 90) {
                return Err(GtpError::IllegalVertex);
            }
            x = x - 65;
            match parse_u32(&v, 1) {
                None => Err(GtpError::BadNumber),
                Some(row) => {
                    if row == 0 {
                        Err(GtpError::IllegalVertex)
                    } else {
                        Ok(Vertex::Coordinate(x, row - 1))
                    }
                },
            }
        }
    }
}

impl GTPMove {
    /// The colour that moves.
    pub closed spec fn color(self) -> Color {
        self.color
    }

    /// The vertex that is played.
    pub closed spec fn vertex(self) -> Vertex {
        self.vertex
    }

    /// The move of `color` at `vertex`.
    pub fn new(color: Color, vertex: Vertex) -> (r: Self)
        ensures
            r.color() == color,
            r.vertex() == vertex,
    {
        Self { color: color, vertex: vertex }
    }

    /// The text of the move: the colour, a space and the vertex.
    pub open spec fn text(self) -> Option<Seq<char>> {
        match self.vertex().text() {
            Some(t) => Some(self.color().text() + seq![' '] + t),
            None => None,
        }
    }

    /// The text of the move.
    pub fn to_string(&self) -> (r: Result<String, GtpError>)
        ensures
            match self.text() {
                Some(t) => r matches Ok(s) && s@ == t,
                None => r == Err::<String, GtpError>(GtpError::VertexOutOfRange),
            },
    {
        let vertex = self.vertex.to_string()?;
        let mut s = self.color.to_string();
        push_char(&mut s, ' ');
        push_chars(&mut s, &chars_of(vertex.as_str()));
        assert(s@ =~= self.color().text() + seq![' '] + vertex@);
        Ok(s)
    }
}

impl Color {
    /// The text of the colour: `B` or `W`.
    pub open spec fn text(self) -> Seq<char> {
        match self {
            Color::Black => "B"@,
            Color::White => "W"@,
        }
    }

    /// The text of the colour.
    pub fn to_string(&self) -> (r: String)
        ensures
            r@ == self.text(),
    {
        match *self {
            Self::Black => "B".to_owned(),
            Self::White => "W".to_owned(),
        }
    }
}

impl Status {
    /// The text of the status: `alive`, `seki` or `dead`.
    pub open spec fn text(self) -> Seq<char> {
        match self {
            Status::Alive => "alive"@,
            Status::Seki => "seki"@,
            Status::Dead => "dead"@,
        }
    }

    /// The text of the status.
    pub fn to_string(&self) -> (r: String)
        ensures
            r@ == self.text(),
    {
        match *self {
            Self::Alive => "alive".to_owned(),
            Self::Seki => "seki".to_owned(),
            Self::Dead => "dead".to_owned(),
        }
    }
}

/// Whether `s` holds exactly one word; white space may stand before and after
/// it.
pub fn is_single_token(s: &str) -> (r: bool)
    ensures
        r == (tokens(s@).len() == 1),
{
    let v = chars_of(s);
    if v.len() == 0 {
        assert(tokens(s@).len() == 0);
        return false;
    }
    let bounds = word_bounds(&v);
    if bounds.len() != 1 {
        return false;
    }
    true
}

} // verus!
