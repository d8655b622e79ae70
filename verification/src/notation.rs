//! The textual interfaces of the engine: coordinate notation (a letter a-h
//! and a digit 1-8), the one-letter promotion selector, and the one-letter
//! encoding of a square used by the board representation.
use crate::pieces::Color;
use crate::pieces::Piece;
use crate::pieces::PieceType;
use crate::pieces::Position;
use crate::pieces::PositionContent;
use vstd::prelude::*;
use vstd::string::StrSliceExecFns;

verus! {

/// Malformed input handed to a decoding function.
#[derive(Copy, Clone, Debug, PartialEq, Eq, Structural)]
pub enum ChessError {
    InvalidInput,
}

/// The letter that encodes file `f`.
pub open spec fn file_char(f: int) -> char {
    if f == 0 {
        'a'
    } else if f == 1 {
        'b'
    } else if f == 2 {
        'c'
    } else if f == 3 {
        'd'
    } else if f == 4 {
        'e'
    } else if f == 5 {
        'f'
    } else if f == 6 {
        'g'
    } else {
        'h'
    }
}

/// The digit that encodes rank `r` (rank 0 prints as "1").
pub open spec fn rank_char(r: int) -> char {
    if r == 0 {
        '1'
    } else if r == 1 {
        '2'
    } else if r == 2 {
        '3'
    } else if r == 3 {
        '4'
    } else if r == 4 {
        '5'
    } else if r == 5 {
        '6'
    } else if r == 6 {
        '7'
    } else {
        '8'
    }
}

/// The two-character notation of a square.
#[verifier::opaque]
pub open spec fn enc(pos: (usize, usize)) -> Seq<char> {
    seq![file_char(pos.0 as int), rank_char(pos.1 as int)]
}

/// The file encoded by a letter, if any (case-insensitive).
pub open spec fn file_of_char(c: char) -> Option<usize> {
    if c == 'a' || c == 'A' {
        Some(0usize)
    } else if c == 'b' || c == 'B' {
        Some(1usize)
    } else if c == 'c' || c == 'C' {
        Some(2usize)
    } else if c == 'd' || c == 'D' {
        Some(3usize)
    } else if c == 'e' || c == 'E' {
        Some(4usize)
    } else if c == 'f' || c == 'F' {
        Some(5usize)
    } else if c == 'g' || c == 'G' {
        Some(6usize)
    } else if c == 'h' || c == 'H' {
        Some(7usize)
    } else {
        None
    }
}

/// The rank encoded by a digit, if any ('1' through '8').
pub open spec fn rank_of_char(c: char) -> Option<usize> {
    if c == '1' {
        Some(0usize)
    } else if c == '2' {
        Some(1usize)
    } else if c == '3' {
        Some(2usize)
    } else if c == '4' {
        Some(3usize)
    } else if c == '5' {
        Some(4usize)
    } else if c == '6' {
        Some(5usize)
    } else if c == '7' {
        Some(6usize)
    } else if c == '8' {
        Some(7usize)
    } else {
        None
    }
}

/// What decoding a coordinate text yields: the (file, rank) pair named by
/// its first two characters, or an error when the text is shorter than two
/// characters or either character is out of range.
pub open spec fn decode_spec(s: Seq<char>) -> Result<(usize, usize), ChessError> {
    if s.len() < 2 {
        Err(ChessError::InvalidInput)
    } else {
        match (file_of_char(s[0]), rank_of_char(s[1])) {
            (Some(f), Some(r)) => Ok((f, r)),
            _ => Err(ChessError::InvalidInput),
        }
    }
}

/// Decodes a coordinate text such as "e2" into a (file, rank) pair, both in
/// 0..8. Characters beyond the first two are ignored; malformed input is
/// rejected with an error rather than a default.
pub fn decode_notation(chess_not: &str) -> (r: Result<(usize, usize), ChessError>)
    ensures
        r == decode_spec(chess_not@),
{
    if chess_not.unicode_len() < 2 {
        return Err(ChessError::InvalidInput);
    }
    let x_coord: char = chess_not.get_char(0);
    let y_coord: char = chess_not.get_char(1);
    let x_converted: usize = match x_coord {
        'a' | 'A' => 0,
        'b' | 'B' => 1,
        'c' | 'C' => 2,
        'd' | 'D' => 3,
        'e' | 'E' => 4,
        'f' | 'F' => 5,
        'g' | 'G' => 6,
        'h' | 'H' => 7,
        _ => { return Err(ChessError::InvalidInput) },
    };
    let y_converted: usize = match y_coord {
        '1' => 0,
        '2' => 1,
        '3' => 2,
        '4' => 3,
        '5' => 4,
        '6' => 5,
        '7' => 6,
        '8' => 7,
        _ => { return Err(ChessError::InvalidInput) },
    };
    Ok((x_converted, y_converted))
}

/// What a promotion selector character stands for. Anything other than the
/// four promotable kinds means "no promotion requested".
pub open spec fn promo_of_char(c: char) -> PieceType {
    if c == 'b' || c == 'B' {
        PieceType::BISHIOP
    } else if c == 'r' || c == 'R' {
        PieceType::ROOK
    } else if c == 'n' || c == 'N' {
        PieceType::KNIGHT
    } else if c == 'q' || c == 'Q' {
        PieceType::QUEEN
    } else {
        PieceType::NONE
    }
}

/// What decoding a promotion text yields: the kind named by its first
/// character, or the "no promotion" placeholder for empty or unknown text.
pub open spec fn decode_promo_spec(s: Seq<char>) -> PieceType {
    if s.len() == 0 {
        PieceType::NONE
    } else {
        promo_of_char(s[0])
    }
}

/// Decodes a promotion selector: Q, R, B or N (either case) names the piece
/// installed by a promotion; anything else requests no promotion.
pub fn decode_promotion(chess_not: &str) -> (r: PieceType)
    ensures
        r == decode_promo_spec(chess_not@),
{
    if chess_not.unicode_len() == 0 {
        return PieceType::NONE;
    }
    let c_char: char = chess_not.get_char(0);
    match c_char {
        'b' | 'B' => PieceType::BISHIOP,
        'r' | 'R' => PieceType::ROOK,
        'n' | 'N' => PieceType::KNIGHT,
        'q' | 'Q' => PieceType::QUEEN,
        _ => PieceType::NONE,
    }
}

/// Encodes a (file, rank) pair as its two-character notation.
pub fn encode_notation(pos: (usize, usize)) -> (r: String)
    requires
        pos.0 < 8,
        pos.1 < 8,
    ensures
        r@ == enc(pos),
{
    let xcoord: &str = match pos.0 {
        0 => "a",
        1 => "b",
        2 => "c",
        3 => "d",
        4 => "e",
        5 => "f",
        6 => "g",
        _ => "h",
    };
    let ycoord: &str = match pos.1 {
        0 => "1",
        1 => "2",
        2 => "3",
        3 => "4",
        4 => "5",
        5 => "6",
        6 => "7",
        _ => "8",
    };
    proof {
        reveal(enc);
        reveal_strlit("a");
        reveal_strlit("b");
        reveal_strlit("c");
        reveal_strlit("d");
        reveal_strlit("e");
        reveal_strlit("f");
        reveal_strlit("g");
        reveal_strlit("h");
        reveal_strlit("1");
        reveal_strlit("2");
        reveal_strlit("3");
        reveal_strlit("4");
        reveal_strlit("5");
        reveal_strlit("6");
        reveal_strlit("7");
        reveal_strlit("8");
        assert(xcoord@ + ycoord@ =~= enc(pos));
    }
    let mut encoded: String = xcoord.to_owned();
    encoded.append(ycoord);
    encoded
}

/// Encoding a square and decoding the text returns the same square, for
/// every square of the board.
pub proof fn lemma_notation_round_trip(pos: (usize, usize))
    requires
        pos.0 < 8,
        pos.1 < 8,
    ensures
        decode_spec(enc(pos)) == Ok::<(usize, usize), ChessError>(pos),
{
    reveal(enc);
}

/// Distinct squares have distinct notations.
pub proof fn lemma_enc_injective(a: (usize, usize), b: (usize, usize))
    requires
        a.0 < 8,
        a.1 < 8,
        b.0 < 8,
        b.1 < 8,
        enc(a) == enc(b),
    ensures
        a == b,
{
    lemma_notation_round_trip(a);
    lemma_notation_round_trip(b);
}

/// Whether a character is one of the thirteen that describe a square: '.'
/// for empty, or p/n/b/r/q/k in the white (upper) or black (lower) case.
pub open spec fn is_fen_char(c: char) -> bool {
    ||| c == '.'
    ||| c == 'p' || c == 'k' || c == 'q' || c == 'n' || c == 'b' || c == 'r'
    ||| c == 'P' || c == 'K' || c == 'Q' || c == 'N' || c == 'B' || c == 'R'
}

/// The piece kind a description character names.
pub open spec fn fen_variant(c: char) -> PieceType {
    if c == 'p' || c == 'P' {
        PieceType::PAWN
    } else if c == 'k' || c == 'K' {
        PieceType::KING
    } else if c == 'q' || c == 'Q' {
        PieceType::QUEEN
    } else if c == 'n' || c == 'N' {
        PieceType::KNIGHT
    } else if c == 'b' || c == 'B' {
        PieceType::BISHIOP
    } else {
        PieceType::ROOK
    }
}

/// The side a description character names: upper case is white.
pub open spec fn fen_color(c: char) -> Color {
    if c == 'P' || c == 'K' || c == 'Q' || c == 'N' || c == 'B' || c == 'R' {
        Color::W
    } else {
        Color::B
    }
}

/// The square a description character stands for. A piece read this way has
/// never moved.
pub open spec fn fen_pos(c: char) -> Position {
    if c == '.' {
        Position { content: PositionContent::NONE }
    } else {
        Position {
            content: PositionContent::PIECE_CONT(
                Piece { variant: fen_variant(c), color: fen_color(c), has_moved: false },
            ),
        }
    }
}

/// The square character of a position description at text row `rr` and
/// column `cc` (rows are 9 characters: 8 squares and a separator).
pub open spec fn cell(s: Seq<char>, rr: int, cc: int) -> char {
    s[rr * 9 + cc]
}

/// The shape of a position description: eight 8-character rows of square
/// characters, highest rank first, separated by newlines.
pub open spec fn state_text_wf(s: Seq<char>) -> bool {
    &&& s.len() == 71
    &&& forall|i: int|
        #![trigger s[i]]
        0 <= i < 71 ==> (if i % 9 == 8 {
            s[i] == '\n'
        } else {
            is_fen_char(s[i])
        })
}

/// Exactly one square character of the text is `c`.
pub open spec fn one_king_char(s: Seq<char>, c: char) -> bool {
    exists|i: int|
        0 <= i < 71 && i % 9 != 8 && #[trigger] s[i] == c && (forall|j: int|
            #![trigger s[j]]
            0 <= j < 71 && j % 9 != 8 && j != i ==> s[j] != c)
}

/// Reads one square from its description character.
pub fn map_fen(fen: char) -> (r: Position)
    requires
        is_fen_char(fen),
    ensures
        r == fen_pos(fen),
{
    let pos_c: PositionContent = PositionContent::NONE;
    let mut col: Color = Color::W;
    let mut pc: PieceType = PieceType::PAWN;
    match fen {
        '.' => { return Position { content: pos_c } },
        'p' => {
            col = Color::B;
            pc = PieceType::PAWN;
        },
        'k' => {
            col = Color::B;
            pc = PieceType::KING;
        },
        'q' => {
            col = Color::B;
            pc = PieceType::QUEEN;
        },
        'n' => {
            col = Color::B;
            pc = PieceType::KNIGHT;
        },
        'b' => {
            col = Color::B;
            pc = PieceType::BISHIOP;
        },
        'r' => {
            col = Color::B;
            pc = PieceType::ROOK;
        },
        'P' => {
            pc = PieceType::PAWN;
        },
        'K' => {
            pc = PieceType::KING;
        },
        'Q' => {
            pc = PieceType::QUEEN;
        },
        'N' => {
            pc = PieceType::KNIGHT;
        },
        'B' => {
            pc = PieceType::BISHIOP;
        },
        'R' => {
            pc = PieceType::ROOK;
        },
        _ => {
            return vstd::pervasive::unreached();
        },
    }
    Position { content: PositionContent::PIECE_CONT(Piece { variant: pc, color: col, has_moved: false }) }
}

/// The description character of a square: the piece's letter, upper case
/// for white, or '.' for an empty square.
pub open spec fn pos_fen(p: Position) -> char {
    match p.content {
        PositionContent::NONE => '.',
        PositionContent::PIECE_CONT(piece) => piece_char(piece.variant, piece.color),
    }
}

/// The letter of a piece kind in the given side's case.
pub open spec fn piece_char(v: PieceType, c: Color) -> char {
    if c == Color::W {
        if v == PieceType::PAWN {
            'P'
        } else if v == PieceType::BISHIOP {
            'B'
        } else if v == PieceType::KNIGHT {
            'N'
        } else if v == PieceType::ROOK {
            'R'
        } else if v == PieceType::QUEEN {
            'Q'
        } else {
            'K'
        }
    } else {
        if v == PieceType::PAWN {
            'p'
        } else if v == PieceType::BISHIOP {
            'b'
        } else if v == PieceType::KNIGHT {
            'n'
        } else if v == PieceType::ROOK {
            'r'
        } else if v == PieceType::QUEEN {
            'q'
        } else {
            'k'
        }
    }
}

/// Writes one square as its description character.
pub fn demap_fen(pos: Position) -> (c: char)
    requires
        crate::pieces::valid_content(pos),
    ensures
        c == pos_fen(pos),
{
    match pos.content {
        PositionContent::NONE => '.',
        PositionContent::PIECE_CONT(p) => {
            let mut c: char = 'l';
            match p.variant {
                PieceType::PAWN => {
                    c = 'p';
                },
                PieceType::BISHIOP => {
                    c = 'b';
                },
                PieceType::KNIGHT => {
                    c = 'n';
                },
                PieceType::ROOK => {
                    c = 'r';
                },
                PieceType::QUEEN => {
                    c = 'q';
                },
                PieceType::KING => {
                    c = 'k';
                },
                PieceType::NONE => {
                    return vstd::pervasive::unreached();
                },
            }
            if p.color == Color::W {
                match c {
                    'p' => 'P',
                    'b' => 'B',
                    'n' => 'N',
                    'r' => 'R',
                    'q' => 'Q',
                    _ => 'K',
                }
            } else {
                c
            }
        },
    }
}

/// Writes one square as a one-character text, used to build the board
/// representation.
pub fn fen_str(pos: Position) -> (r: &'static str)
    requires
        crate::pieces::valid_content(pos),
    ensures
        r@ == seq![pos_fen(pos)],
{
    proof {
        reveal_strlit(".");
        reveal_strlit("p");
        reveal_strlit("b");
        reveal_strlit("n");
        reveal_strlit("r");
        reveal_strlit("q");
        reveal_strlit("k");
        reveal_strlit("P");
        reveal_strlit("B");
        reveal_strlit("N");
        reveal_strlit("R");
        reveal_strlit("Q");
        reveal_strlit("K");
    }
    let r: &'static str = match pos.content {
        PositionContent::NONE => ".",
        PositionContent::PIECE_CONT(p) => {
            match (p.variant, p.color) {
                (PieceType::PAWN, Color::W) => "P",
                (PieceType::BISHIOP, Color::W) => "B",
                (PieceType::KNIGHT, Color::W) => "N",
                (PieceType::ROOK, Color::W) => "R",
                (PieceType::QUEEN, Color::W) => "Q",
                (PieceType::KING, Color::W) => "K",
                (PieceType::PAWN, Color::B) => "p",
                (PieceType::BISHIOP, Color::B) => "b",
                (PieceType::KNIGHT, Color::B) => "n",
                (PieceType::ROOK, Color::B) => "r",
                (PieceType::QUEEN, Color::B) => "q",
                (PieceType::KING, Color::B) => "k",
                _ => vstd::pervasive::unreached(),
            }
        },
    };
    proof {
        assert(r@ =~= seq![pos_fen(pos)]);
    }
    r
}

} // verus!
