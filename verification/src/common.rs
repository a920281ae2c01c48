//! The piece catalog: piece identities, side-tagged pieces, moves, and the
//! single-step offsets of every piece.

use crate::pos::{D, P};
use vstd::prelude::*;

verus! {

/// Side length of the board.
pub const BOARD_SIZE: i32 = 9;

/// Number of cells of the board.
pub const BOARD_CELLS: i32 = 81;

/// Number of unpromoted piece kinds.
pub const PIECE_TYPES: usize = 8;

/// Number of piece kinds a player can hold in hand: every kind but the king.
pub const HAND_TYPES: usize = 7;

/// Length of a row of the step table.
pub const PIECE_MOVES_COUNT: usize = 8;

/// Identity of the pawn.
pub const PIECE_PAWN: i8 = 0;

/// Identity of the lance.
pub const PIECE_LANCE: i8 = 1;

/// Identity of the knight.
pub const PIECE_KNIGHT: i8 = 2;

/// Identity of the silver general.
pub const PIECE_SILVER: i8 = 3;

/// Identity of the gold general.
pub const PIECE_GOLD: i8 = 4;

/// Identity of the bishop.
pub const PIECE_BISHOP: i8 = 5;

/// Identity of the rook.
pub const PIECE_ROOK: i8 = 6;

/// Identity of the king.
pub const PIECE_KING: i8 = 7;

/// Identity of the promoted bishop.
pub const PIECE_PROMOTED_BISHOP: i8 = 13;

/// Identity of the promoted rook.
pub const PIECE_PROMOTED_ROOK: i8 = 14;

/// Code of an empty cell.
pub const EMPTY_CELL: i8 = 16;

/// Code of the second player's king.
pub const SECOND_KING: i8 = -8;

/// A piece identity. The eight unpromoted kinds are numbered 0 through 7
/// (pawn, lance, knight, silver, gold, bishop, rook, king); the promoted form
/// of kind `i` is `i + 8`.
#[derive(Clone, Copy, Eq, PartialEq, Debug, Structural)]
pub struct Piece(pub i8);

/// A piece together with its owner. The first player's pieces are 0 through
/// 15, the piece identity itself; the second player's are the bitwise
/// complements of those, -1 through -16. The value 16 marks an empty cell.
#[derive(Clone, Copy, Eq, PartialEq, Debug, Structural)]
pub struct SidedPiece(pub i8);

/// A move: a relocation on the board, with or without promotion, or a drop
/// of a piece from the hand.
#[derive(Clone, Copy, Eq, PartialEq, Debug, Structural)]
pub enum Move {
    /// The piece on the first cell goes to the second and stays as it is.
    NoPromotion(P, P),
    /// The piece on the first cell goes to the second and promotes.
    Promotion(P, P),
    /// The piece is dropped from its owner's hand onto the cell.
    FromHand(P, SidedPiece),
}

/// The single steps of a gold general, and of the promoted pawn, lance,
/// knight and silver, as the first player makes them.
pub open spec fn gold_step(j: int) -> D {
    if j == 0 {
        D::of(-1, -1)
    } else if j == 1 {
        D::of(-1, 0)
    } else if j == 2 {
        D::of(-1, 1)
    } else if j == 3 {
        D::of(0, -1)
    } else if j == 4 {
        D::of(0, 1)
    } else if j == 5 {
        D::of(1, 0)
    } else {
        D::of(0, 0)
    }
}

/// The single steps of a silver general, as the first player makes them.
pub open spec fn silver_step(j: int) -> D {
    if j == 0 {
        D::of(-1, -1)
    } else if j == 1 {
        D::of(-1, 0)
    } else if j == 2 {
        D::of(-1, 1)
    } else if j == 3 {
        D::of(1, -1)
    } else if j == 4 {
        D::of(1, 1)
    } else {
        D::of(0, 0)
    }
}

/// The single steps of a king.
pub open spec fn king_step(j: int) -> D {
    if j == 0 {
        D::of(-1, -1)
    } else if j == 1 {
        D::of(-1, 0)
    } else if j == 2 {
        D::of(-1, 1)
    } else if j == 3 {
        D::of(0, -1)
    } else if j == 4 {
        D::of(0, 1)
    } else if j == 5 {
        D::of(1, -1)
    } else if j == 6 {
        D::of(1, 0)
    } else if j == 7 {
        D::of(1, 1)
    } else {
        D::of(0, 0)
    }
}

/// The single steps along the four orthogonal lines, which a promoted
/// bishop has besides its sliding moves.
pub open spec fn orthogonal_step(j: int) -> D {
    if j == 0 {
        D::of(-1, 0)
    } else if j == 1 {
        D::of(0, -1)
    } else if j == 2 {
        D::of(0, 1)
    } else if j == 3 {
        D::of(1, 0)
    } else {
        D::of(0, 0)
    }
}

/// The single steps along the four diagonals, which a promoted rook has
/// besides its sliding moves.
pub open spec fn diagonal_step(j: int) -> D {
    if j == 0 {
        D::of(-1, -1)
    } else if j == 1 {
        D::of(-1, 1)
    } else if j == 2 {
        D::of(1, -1)
    } else if j == 3 {
        D::of(1, 1)
    } else {
        D::of(0, 0)
    }
}

/// Entry `j` of the step table of the piece identity `id`: the `j`-th single
/// step of that piece as the first player makes it, or the zero displacement
/// from the end of the piece's list on.
pub open spec fn step_at(id: int, j: int) -> D {
    if id == 0 {
        if j == 0 {
            D::of(-1, 0)
        } else {
            D::of(0, 0)
        }
    } else if id == 2 {
        if j == 0 {
            D::of(-2, -1)
        } else if j == 1 {
            D::of(-2, 1)
        } else {
            D::of(0, 0)
        }
    } else if id == 3 {
        silver_step(j)
    } else if id == 4 || (8 <= id <= 11) {
        gold_step(j)
    } else if id == 7 {
        king_step(j)
    } else if id == 13 {
        orthogonal_step(j)
    } else if id == 14 {
        diagonal_step(j)
    } else {
        D::of(0, 0)
    }
}

/// Number of single steps that the piece identity `id` has.
pub open spec fn step_count(id: int) -> int {
    if id == 0 {
        1
    } else if id == 2 {
        2
    } else if id == 3 {
        5
    } else if id == 4 || (8 <= id <= 11) {
        6
    } else if id == 7 {
        8
    } else if id == 13 || id == 14 {
        4
    } else {
        0
    }
}

/// The name of the piece identity `id`, as it is written on the piece.
pub open spec fn name_of(id: int) -> char {
    if id == 0 {
        '歩'
    } else if id == 1 {
        '香'
    } else if id == 2 {
        '桂'
    } else if id == 3 {
        '銀'
    } else if id == 4 {
        '金'
    } else if id == 5 {
        '角'
    } else if id == 6 {
        '飛'
    } else if id == 7 {
        '玉'
    } else if id == 8 {
        'と'
    } else if id == 9 {
        '杏'
    } else if id == 10 {
        '圭'
    } else if id == 11 {
        '全'
    } else if id == 13 {
        '馬'
    } else if id == 14 {
        '龍'
    } else {
        ' '
    }
}

impl Piece {
    /// Whether `self` is one of the sixteen identities of the catalog.
    pub open spec fn valid(self) -> bool {
        0 <= self.0 < 16
    }

    /// Whether the piece is one that can be held in hand: an unpromoted
    /// piece other than the king.
    pub open spec fn droppable(self) -> bool {
        0 <= self.0 < 7
    }

    /// What `has_promotion` returns.
    pub open spec fn spec_has_promotion(self) -> bool {
        self.0 != 4 && self.0 < 7
    }

    /// What `capture` returns: the identity less the eight that marks a
    /// promoted piece.
    pub open spec fn spec_capture(self) -> Piece {
        Piece((self.0 % 8) as i8)
    }

    /// What `as_first` returns.
    pub open spec fn spec_as_first(self) -> SidedPiece {
        SidedPiece(self.0)
    }

    /// What `as_second` returns: the complement of the identity, which is
    /// minus one less the identity.
    pub open spec fn spec_as_second(self) -> SidedPiece {
        SidedPiece((-1 - self.0) as i8)
    }

    /// The promoted form of an unpromoted piece that has one.
    pub fn promote(self) -> (r: Piece)
        requires
            self.has_promotion(),
        ensures
            r.0 == self.0 + 8,
    {
        Piece(self.0 + 8)
    }

    /// Whether the piece is an unpromoted one that has a promoted form:
    /// every unpromoted kind but the gold general and the king.
    #[verifier::when_used_as_spec(spec_has_promotion)]
    pub fn has_promotion(self) -> (r: bool)
        ensures
            r == self.spec_has_promotion(),
    {
        self.0 != 4 && self.0 < 7
    }

    /// The unpromoted kind of the piece, which is what a player holds after
    /// capturing it.
    #[verifier::when_used_as_spec(spec_capture)]
    pub fn capture(self) -> (r: Piece)
        ensures
            r == self.spec_capture(),
            0 <= r.0 < 8,
            self.valid() ==> r.0 == (if self.0 < 8 { self.0 as int } else { self.0 - 8 }),
    {
        let x: i8 = self.0;
        assert(x & 7 == x % 8) by (bit_vector);
        Piece(self.0 & 7)
    }

    /// The piece as the first player's.
    #[verifier::when_used_as_spec(spec_as_first)]
    pub fn as_first(self) -> (r: SidedPiece)
        ensures
            r == self.spec_as_first(),
    {
        SidedPiece(self.0)
    }

    /// The piece as the second player's: the bitwise complement of its
    /// identity.
    #[verifier::when_used_as_spec(spec_as_second)]
    pub fn as_second(self) -> (r: SidedPiece)
        ensures
            r == self.spec_as_second(),
    {
        let x: i8 = self.0;
        assert(!x == -1 - x) by (bit_vector);
        SidedPiece(!self.0)
    }

    /// The character written on the piece.
    pub fn get_name(self) -> (r: char)
        requires
            self.valid(),
        ensures
            r == name_of(self.0 as int),
    {
        match self.0 {
            0 => '歩',
            1 => '香',
            2 => '桂',
            3 => '銀',
            4 => '金',
            5 => '角',
            6 => '飛',
            7 => '玉',
            8 => 'と',
            9 => '杏',
            10 => '圭',
            11 => '全',
            13 => '馬',
            14 => '龍',
            _ => ' ',
        }
    }
}

impl Move {
    /// The cell on which the move puts a piece.
    pub open spec fn target(self) -> P {
        match self {
            Move::NoPromotion(_, dst) => dst,
            Move::Promotion(_, dst) => dst,
            Move::FromHand(dst, _) => dst,
        }
    }
}

impl SidedPiece {
    /// Whether `self` is the code of a piece of either player or of an empty
    /// cell.
    pub open spec fn valid(self) -> bool {
        -16 <= self.0 <= 16
    }

    /// Whether `self` is the code of a piece, of either player.
    pub open spec fn is_piece(self) -> bool {
        -16 <= self.0 < 16
    }

    /// What `to_piece` returns: the code itself for the first player, its
    /// complement for the second.
    pub open spec fn spec_to_piece(self) -> Piece {
        if self.0 >= 0 {
            Piece(self.0)
        } else {
            Piece((-1 - self.0) as i8)
        }
    }

    /// The code of the promoted form, for the same owner.
    pub open spec fn promoted(self) -> SidedPiece {
        if self.0 >= 0 {
            SidedPiece((self.0 + 8) as i8)
        } else {
            SidedPiece((self.0 - 8) as i8)
        }
    }

    /// What `is_empty` returns.
    pub open spec fn spec_is_empty(self) -> bool {
        self.0 == EMPTY_CELL
    }

    /// What `is_first` returns.
    pub open spec fn spec_is_first(self) -> bool {
        0 <= self.0 < 16
    }

    /// What `is_second` returns.
    pub open spec fn spec_is_second(self) -> bool {
        self.0 < 0
    }

    /// The piece without its owner.
    #[verifier::when_used_as_spec(spec_to_piece)]
    pub fn to_piece(self) -> (r: Piece)
        ensures
            r == self.spec_to_piece(),
    {
        if self.0 >= 0 {
            Piece(self.0)
        } else {
            let x: i8 = self.0;
            assert(!x == -1 - x) by (bit_vector);
            Piece(!self.0)
        }
    }

    /// The promoted form of the piece, for the same owner.
    pub fn promote(self) -> (r: SidedPiece)
        requires
            -120 <= self.0 < 120,
        ensures
            r == self.promoted(),
    {
        if self.0 >= 0 {
            SidedPiece(self.0 + 8)
        } else {
            SidedPiece(self.0 - 8)
        }
    }

    /// The first player's piece of the given identity.
    pub fn first(piece: Piece) -> (r: SidedPiece)
        ensures
            r == piece.as_first(),
    {
        SidedPiece(piece.0)
    }

    /// The second player's piece of the given identity.
    pub fn second(piece: Piece) -> (r: SidedPiece)
        ensures
            r == piece.as_second(),
    {
        piece.as_second()
    }

    /// Whether `self` marks an empty cell.
    #[verifier::when_used_as_spec(spec_is_empty)]
    pub fn is_empty(self) -> (r: bool)
        ensures
            r == self.spec_is_empty(),
    {
        self.0 == EMPTY_CELL
    }

    /// Whether `self` is a piece of the first player.
    #[verifier::when_used_as_spec(spec_is_first)]
    pub fn is_first(self) -> (r: bool)
        ensures
            r == self.spec_is_first(),
    {
        0 <= self.0 && self.0 < 16
    }

    /// Whether `self` is a piece of the second player.
    #[verifier::when_used_as_spec(spec_is_second)]
    pub fn is_second(self) -> (r: bool)
        ensures
            r == self.spec_is_second(),
    {
        self.0 < 0
    }
}

/// Looks up entry `j` of the step table of `piece`.
pub fn step_offset(piece: Piece, j: usize) -> (d: D)
    requires
        piece.valid(),
    ensures
        d == step_at(piece.0 as int, j as int),
{
    let id: i8 = piece.0;
    if id == 0 {
        if j == 0 {
            D(-1, 0)
        } else {
            D(0, 0)
        }
    } else if id == 2 {
        match j {
            0 => D(-2, -1),
            1 => D(-2, 1),
            _ => D(0, 0),
        }
    } else if id == 3 {
        match j {
            0 => D(-1, -1),
            1 => D(-1, 0),
            2 => D(-1, 1),
            3 => D(1, -1),
            4 => D(1, 1),
            _ => D(0, 0),
        }
    } else if id == 4 || (8 <= id && id <= 11) {
        match j {
            0 => D(-1, -1),
            1 => D(-1, 0),
            2 => D(-1, 1),
            3 => D(0, -1),
            4 => D(0, 1),
            5 => D(1, 0),
            _ => D(0, 0),
        }
    } else if id == 7 {
        match j {
            0 => D(-1, -1),
            1 => D(-1, 0),
            2 => D(-1, 1),
            3 => D(0, -1),
            4 => D(0, 1),
            5 => D(1, -1),
            6 => D(1, 0),
            7 => D(1, 1),
            _ => D(0, 0),
        }
    } else if id == 13 {
        match j {
            0 => D(-1, 0),
            1 => D(0, -1),
            2 => D(0, 1),
            3 => D(1, 0),
            _ => D(0, 0),
        }
    } else if id == 14 {
        match j {
            0 => D(-1, -1),
            1 => D(-1, 1),
            2 => D(1, -1),
            3 => D(1, 1),
            _ => D(0, 0),
        }
    } else {
        D(0, 0)
    }
}

/// The step table ends each list with the zero displacement: an entry is a
/// step of the piece exactly when it lies before the end of the list, and
/// every step is at most two rows and one column long.
pub proof fn lemma_step_table(id: int, j: int)
    requires
        0 <= j,
    ensures
        j < step_count(id) <==> step_at(id, j) != D(0, 0),
        0 <= step_count(id) <= 8,
        -2 <= step_at(id, j).0 <= 1,
        -1 <= step_at(id, j).1 <= 1,
{
}

/// Every piece steps the same way to the left and to the right: the mirror
/// image of a step is again a step of that piece.
pub proof fn lemma_steps_mirrored(id: int, j: int) -> (m: int)
    requires
        0 <= j < step_count(id),
    ensures
        0 <= m < step_count(id),
        step_at(id, m) == D::of(step_at(id, j).0 as int, -step_at(id, j).1),
{
    if id == 0 {
        0
    } else if id == 2 {
        1 - j
    } else if id == 3 {
        if j == 0 {
            2
        } else if j == 2 {
            0
        } else if j == 3 {
            4
        } else if j == 4 {
            3
        } else {
            j
        }
    } else if id == 4 || (8 <= id <= 11) {
        if j == 0 {
            2
        } else if j == 2 {
            0
        } else if j == 3 {
            4
        } else if j == 4 {
            3
        } else {
            j
        }
    } else if id == 7 {
        if j == 0 {
            2
        } else if j == 2 {
            0
        } else if j == 3 {
            4
        } else if j == 4 {
            3
        } else if j == 5 {
            7
        } else if j == 7 {
            5
        } else {
            j
        }
    } else if id == 13 {
        if j == 1 {
            2
        } else if j == 2 {
            1
        } else {
            j
        }
    } else {
        if j == 0 {
            1
        } else if j == 1 {
            0
        } else if j == 2 {
            3
        } else {
            2
        }
    }
}

} // verus!
