//! The board: an 8x8 grid of squares held as a flat vector in file-major
//! order, the cached king coordinates of both sides, and the record of the
//! last pawn double step (the source of en passant eligibility).
use crate::attack::in_check_alg;
use crate::attack::lemma_ray_hit_props;
use crate::attack::ray_free_before;
use crate::attack::ray_moves;
use crate::attack::slide_hit;
use crate::attack::slide_ok;
use crate::attack::pawn_threat;
use crate::attack::ray_enemy_hit;
use crate::attack::ray_gives_check;
use crate::attack::ray_hit;
use crate::attack::step_on;
use crate::pieces::Color;
use crate::pieces::Piece;
use crate::pieces::PieceType;
use crate::pieces::Position;
use crate::pieces::PositionContent;
use crate::notation::ChessError;
use crate::pieces::valid_content;
use vstd::pervasive::VecAdditionalExecFns;
use vstd::prelude::*;

verus! {

/// Whether (f, r) is a square of the board.
pub open spec fn on_board(f: int, r: int) -> bool {
    0 <= f < 8 && 0 <= r < 8
}

/// The index of square (f, r) in the flat grid.
pub open spec fn idx(f: int, r: int) -> int {
    f * 8 + r
}

/// The content of square (f, r).
pub open spec fn sq(g: Seq<Position>, f: int, r: int) -> PositionContent {
    g[idx(f, r)].content
}

/// Whether square (f, r) holds nothing.
pub open spec fn sq_empty(g: Seq<Position>, f: int, r: int) -> bool {
    sq(g, f, r) is NONE
}

/// The piece on square (f, r); meaningful only when occupied.
pub open spec fn sq_piece(g: Seq<Position>, f: int, r: int) -> Piece {
    sq(g, f, r).spec_piece()
}

/// A well-formed grid: 64 squares, none holding the placeholder kind.
pub open spec fn grid_wf(g: Seq<Position>) -> bool {
    &&& g.len() == 64
    &&& forall|i: int| 0 <= i < 64 ==> valid_content(#[trigger] g[i])
}

/// Distinct squares of the board have distinct indices.
pub proof fn lemma_idx_inj(f1: int, r1: int, f2: int, r2: int)
    requires
        on_board(f1, r1),
        on_board(f2, r2),
        idx(f1, r1) == idx(f2, r2),
    ensures
        f1 == f2 && r1 == r2,
{
}

/// A king of side `c` stands at `p`.
pub open spec fn king_at(g: Seq<Position>, p: (usize, usize), c: Color) -> bool {
    &&& on_board(p.0 as int, p.1 as int)
    &&& !sq_empty(g, p.0 as int, p.1 as int)
    &&& sq_piece(g, p.0 as int, p.1 as int).variant == PieceType::KING
    &&& sq_piece(g, p.0 as int, p.1 as int).color == c
}

/// Every king on the grid stands on its side's cached square: together
/// with `king_at` this says there is exactly one king of each color.
pub open spec fn kings_unique(g: Seq<Position>, wk: (usize, usize), bk: (usize, usize)) -> bool {
    forall|f: int, r: int|
        #![trigger sq_piece(g, f, r)]
        on_board(f, r) && !sq_empty(g, f, r) && sq_piece(g, f, r).variant == PieceType::KING ==> ((
        sq_piece(g, f, r).color == Color::W && f == wk.0 && r == wk.1) || (sq_piece(g, f, r).color
            == Color::B && f == bk.0 && r == bk.1))
}

/// The board.
pub struct Board {
    /// The 64 squares, file-major: square (f, r) is at index f * 8 + r.
    pub positions: Vec<Position>,
    /// Cached coordinate of the black king.
    pub bk_pos: (usize, usize),
    /// Cached coordinate of the white king.
    pub wk_pos: (usize, usize),
    /// The last pawn double step: destination file, destination rank, and
    /// the turn on which it was played.
    pub last_pass: (usize, usize, usize),
}

impl Board {
    /// The grid as a sequence.
    pub open spec fn grid(self) -> Seq<Position> {
        self.positions@
    }

    /// Well-formedness: a well-formed grid holding exactly one king of
    /// each side, each on its cached square.
    pub open spec fn wf(self) -> bool {
        &&& grid_wf(self.grid())
        &&& king_at(self.grid(), self.wk_pos, Color::W)
        &&& king_at(self.grid(), self.bk_pos, Color::B)
        &&& kings_unique(self.grid(), self.wk_pos, self.bk_pos)
    }

    /// Returns whether the square holds nothing.
    pub fn is_empty(&self, coords: (usize, usize)) -> (r: bool)
        requires
            self.grid().len() == 64,
            on_board(coords.0 as int, coords.1 as int),
        ensures
            r == sq_empty(self.grid(), coords.0 as int, coords.1 as int),
    {
        let i: usize = coords.0 * 8 + coords.1;
        let pos: Position = self.positions[i];
        match pos.content {
            PositionContent::NONE => true,
            _ => false,
        }
    }

    /// Returns whether the piece on the (occupied) square belongs to the
    /// side opposing `team_col`.
    pub fn is_enemy(&self, coords: (usize, usize), team_col: Color) -> (r: bool)
        requires
            self.grid().len() == 64,
            on_board(coords.0 as int, coords.1 as int),
            !sq_empty(self.grid(), coords.0 as int, coords.1 as int),
        ensures
            r == (sq_piece(self.grid(), coords.0 as int, coords.1 as int).color != team_col),
    {
        let i: usize = coords.0 * 8 + coords.1;
        let pos: Position = self.positions[i];
        match pos.content {
            PositionContent::NONE => vstd::pervasive::unreached(),
            PositionContent::PIECE_CONT(p) => p.color != team_col,
        }
    }

    /// Returns the piece standing on an (occupied) square. Querying an
    /// empty square is a contract violation, excluded by `requires`.
    pub fn get_piece(&self, from: (usize, usize)) -> (r: Piece)
        requires
            self.grid().len() == 64,
            on_board(from.0 as int, from.1 as int),
            !sq_empty(self.grid(), from.0 as int, from.1 as int),
        ensures
            r == sq_piece(self.grid(), from.0 as int, from.1 as int),
    {
        let i: usize = from.0 * 8 + from.1;
        let pos: Position = self.positions[i];
        pos.content.get_piece()
    }

    /// Repopulates the standard starting position, resets the king caches,
    /// and clears the double-step record.
    pub fn reset(&mut self)
        ensures
            final(self).grid() == start_grid(),
            final(self).wk_pos == (4usize, 0usize),
            final(self).bk_pos == (4usize, 7usize),
            final(self).last_pass == (0usize, 0usize, 0usize),
            final(self).wf(),
    {
        self.wk_pos = (4, 0);
        self.bk_pos = (4, 7);
        self.last_pass = (0, 0, 0);
        let mut grid: Vec<Position> = Vec::new();
        let mut f: usize = 0;
        while f < 8
            invariant
                f <= 8,
                grid@.len() == f * 8,
                forall|i: int| 0 <= i < grid@.len() ==> #[trigger] grid@[i] == start_square(i / 8, i % 8),
            decreases 8 - f,
        {
            let mut r: usize = 0;
            while r < 8
                invariant
                    f < 8,
                    r <= 8,
                    grid@.len() == f * 8 + r,
                    forall|i: int| 0 <= i < grid@.len() ==> #[trigger] grid@[i] == start_square(i / 8, i % 8),
                decreases 8 - r,
            {
                let n: usize = grid.len();
                grid.push(starting_square(f, r));
                proof {
                    assert(n as int / 8 == f && n as int % 8 == r) by (nonlinear_arith)
                        requires n == f * 8 + r, 0 <= r < 8, 0 <= f < 8;
                }
                r += 1;
            }
            f += 1;
        }
        self.positions = grid;
        proof {
            assert(self.grid() =~= start_grid());
            assert(king_at(self.grid(), (4usize, 0usize), Color::W)) by {
                assert(idx(4, 0) == 32 && 32 as int / 8 == 4 && 32 as int % 8 == 0);
            }
            assert(king_at(self.grid(), (4usize, 7usize), Color::B)) by {
                assert(idx(4, 7) == 39 && 39 as int / 8 == 4 && 39 as int % 8 == 7);
            }
            assert(kings_unique(self.grid(), (4usize, 0usize), (4usize, 7usize))) by {
                assert forall|ff: int, rr: int|
                    on_board(ff, rr) && !sq_empty(self.grid(), ff, rr) && sq_piece(
                        self.grid(),
                        ff,
                        rr,
                    ).variant == PieceType::KING implies ((sq_piece(self.grid(), ff, rr).color
                    == Color::W && ff == 4 && rr == 0) || (sq_piece(self.grid(), ff, rr).color
                    == Color::B && ff == 4 && rr == 7)) by {
                    assert(idx(ff, rr) / 8 == ff && idx(ff, rr) % 8 == rr) by (nonlinear_arith)
                        requires
                            0 <= ff < 8,
                            0 <= rr < 8,
                    ;
                    assert(self.grid()[idx(ff, rr)] == start_square(ff, rr));
                }
            }
        }
    }
}

impl Board {
    /// Walks a ray from `from` in direction (dx, dy), up to `length`
    /// steps, and returns the first occupied square met if it holds an
    /// enemy of `by`; the result is empty otherwise. Used by check
    /// detection only.
    pub fn trace_ray(&self, by: Color, from: (usize, usize), dx: i16, dy: i16, length: usize) -> (r:
        Vec<(usize, usize)>)
        requires
            self.grid().len() == 64,
            on_board(from.0 as int, from.1 as int),
            -2 <= dx as int <= 2,
            -2 <= dy as int <= 2,
            length <= 8,
        ensures
            ({
                let h = ray_enemy_hit(self.grid(), by, from, dx as int, dy as int, length as nat);
                &&& (h is None ==> r@ == Seq::<(usize, usize)>::empty())
                &&& (h is Some ==> r@ == seq![(h->Some_0.0 as usize, h->Some_0.1 as usize)])
            }),
    {
        let ghost g = self.grid();
        let mut first_obstacle: Vec<(usize, usize)> = Vec::new();
        let mut cx: i16 = from.0 as i16;
        let mut cy: i16 = from.1 as i16;
        let mut n: usize = 0;
        let mut stop: bool = false;
        while n < length && !stop
            invariant
                self.grid() == g,
                g.len() == 64,
                on_board(from.0 as int, from.1 as int),
                -2 <= dx as int <= 2,
                -2 <= dy as int <= 2,
                length <= 8,
                n <= length,
                !stop ==> (cx as int, cy as int) == step_on(
                    from.0 as int,
                    from.1 as int,
                    dx as int,
                    dy as int,
                    n as int,
                ),
                !stop ==> on_board(cx as int, cy as int),
                !stop ==> ray_hit(g, from.0 as int, from.1 as int, dx as int, dy as int, length as nat)
                    == ray_hit(g, cx as int, cy as int, dx as int, dy as int, (length - n) as nat),
                !stop ==> first_obstacle@ == Seq::<(usize, usize)>::empty(),
                stop ==> ({
                    let h = ray_enemy_hit(g, by, from, dx as int, dy as int, length as nat);
                    &&& (h is None ==> first_obstacle@ == Seq::<(usize, usize)>::empty())
                    &&& (h is Some ==> first_obstacle@ == seq![
                        (h->Some_0.0 as usize, h->Some_0.1 as usize),
                    ])
                }),
            decreases length - n + (if stop {
                0int
            } else {
                1int
            }),
        {
            let nx: i16 = cx + dx;
            let ny: i16 = cy + dy;
            proof {
                assert((nx as int, ny as int) == step_on(
                    from.0 as int,
                    from.1 as int,
                    dx as int,
                    dy as int,
                    n as int + 1,
                )) by (nonlinear_arith)
                    requires
                        (cx as int, cy as int) == step_on(
                            from.0 as int,
                            from.1 as int,
                            dx as int,
                            dy as int,
                            n as int,
                        ),
                        nx == cx + dx,
                        ny == cy + dy,
                ;
            }
            if nx < 0 || nx > 7 || ny < 0 || ny > 7 {
                stop = true;
            } else {
                if !self.is_empty((nx as usize, ny as usize)) {
                    if self.is_enemy((nx as usize, ny as usize), by) {
                        first_obstacle.push((nx as usize, ny as usize));
                        proof {
                            assert(first_obstacle@ =~= seq![(nx as usize, ny as usize)]);
                        }
                    }
                    stop = true;
                } else {
                    cx = nx;
                    cy = ny;
                    n += 1;
                }
            }
        }
        first_obstacle
    }

    /// Casts one check-detection ray: whether the first enemy piece met in
    /// direction (dx, dy) is of kind `v1` or `v2`.
    fn ray_check(
        &self,
        c: Color,
        king: (usize, usize),
        dx: i16,
        dy: i16,
        length: usize,
        v1: PieceType,
        v2: PieceType,
    ) -> (r: bool)
        requires
            self.grid().len() == 64,
            on_board(king.0 as int, king.1 as int),
            -2 <= dx as int <= 2,
            -2 <= dy as int <= 2,
            length <= 8,
        ensures
            r == ray_gives_check(self.grid(), c, king, dx as int, dy as int, length as nat, v1, v2),
    {
        let res: Vec<(usize, usize)> = self.trace_ray(c, king, dx, dy, length);
        if res.len() == 0 {
            false
        } else {
            proof {
                lemma_ray_hit_props(
                    self.grid(),
                    king.0 as int,
                    king.1 as int,
                    dx as int,
                    dy as int,
                    length as nat,
                );
            }
            let h: (usize, usize) = res[0];
            let p: Piece = self.get_piece(h);
            p.variant == v1 || p.variant == v2
        }
    }

    /// Determines whether the king standing at `king` is attacked, by
    /// casting rays along the diagonals and orthogonals, single-step rays
    /// at the knight and king offsets, and looking at the two pawn capture
    /// squares.
    pub fn is_in_check(&self, king: (usize, usize)) -> (r: bool)
        requires
            self.grid().len() == 64,
            on_board(king.0 as int, king.1 as int),
            !sq_empty(self.grid(), king.0 as int, king.1 as int),
        ensures
            r == in_check_alg(self.grid(), king),
            r == crate::attack::square_attacked(
                self.grid(),
                king,
                sq_piece(self.grid(), king.0 as int, king.1 as int).color.spec_inverted(),
            ),
    {
        proof {
            crate::attack::lemma_in_check_agrees_with_attack(self.grid(), king);
        }
        let c: Color = self.get_piece(king).color;
        // diagonal rays: an enemy bishop or queen
        if self.ray_check(c, king, -1, 1, 8, PieceType::BISHIOP, PieceType::QUEEN) {
            return true;
        }
        if self.ray_check(c, king, 1, 1, 8, PieceType::BISHIOP, PieceType::QUEEN) {
            return true;
        }
        if self.ray_check(c, king, -1, -1, 8, PieceType::BISHIOP, PieceType::QUEEN) {
            return true;
        }
        if self.ray_check(c, king, 1, -1, 8, PieceType::BISHIOP, PieceType::QUEEN) {
            return true;
        }
        // orthogonal rays: an enemy rook or queen
        if self.ray_check(c, king, 0, 1, 8, PieceType::ROOK, PieceType::QUEEN) {
            return true;
        }
        if self.ray_check(c, king, -1, 0, 8, PieceType::ROOK, PieceType::QUEEN) {
            return true;
        }
        if self.ray_check(c, king, 1, 0, 8, PieceType::ROOK, PieceType::QUEEN) {
            return true;
        }
        if self.ray_check(c, king, 0, -1, 8, PieceType::ROOK, PieceType::QUEEN) {
            return true;
        }
        // knight offsets
        if self.ray_check(c, king, 1, 2, 1, PieceType::KNIGHT, PieceType::KNIGHT) {
            return true;
        }
        if self.ray_check(c, king, 2, 1, 1, PieceType::KNIGHT, PieceType::KNIGHT) {
            return true;
        }
        if self.ray_check(c, king, -1, 2, 1, PieceType::KNIGHT, PieceType::KNIGHT) {
            return true;
        }
        if self.ray_check(c, king, 2, -1, 1, PieceType::KNIGHT, PieceType::KNIGHT) {
            return true;
        }
        if self.ray_check(c, king, -1, -2, 1, PieceType::KNIGHT, PieceType::KNIGHT) {
            return true;
        }
        if self.ray_check(c, king, -2, -1, 1, PieceType::KNIGHT, PieceType::KNIGHT) {
            return true;
        }
        if self.ray_check(c, king, 1, -2, 1, PieceType::KNIGHT, PieceType::KNIGHT) {
            return true;
        }
        if self.ray_check(c, king, -2, 1, 1, PieceType::KNIGHT, PieceType::KNIGHT) {
            return true;
        }
        // an adjacent enemy king
        if self.ray_check(c, king, -1, 1, 1, PieceType::KING, PieceType::KING) {
            return true;
        }
        if self.ray_check(c, king, 0, 1, 1, PieceType::KING, PieceType::KING) {
            return true;
        }
        if self.ray_check(c, king, 1, 1, 1, PieceType::KING, PieceType::KING) {
            return true;
        }
        if self.ray_check(c, king, -1, 0, 1, PieceType::KING, PieceType::KING) {
            return true;
        }
        if self.ray_check(c, king, 1, 0, 1, PieceType::KING, PieceType::KING) {
            return true;
        }
        if self.ray_check(c, king, -1, -1, 1, PieceType::KING, PieceType::KING) {
            return true;
        }
        if self.ray_check(c, king, 0, -1, 1, PieceType::KING, PieceType::KING) {
            return true;
        }
        if self.ray_check(c, king, 1, -1, 1, PieceType::KING, PieceType::KING) {
            return true;
        }
        // the two pawn capture squares: one file to each side, one rank
        // towards the enemy
        let dir: i16 = if c == Color::B {
            -1
        } else {
            1
        };
        let lx: i16 = king.0 as i16 - 1;
        let ly: i16 = king.1 as i16 + dir;
        if lx >= 0 && ly >= 0 && lx <= 7 && ly <= 7 {
            if !self.is_empty((lx as usize, ly as usize)) {
                let p: Piece = self.get_piece((lx as usize, ly as usize));
                if p.color == c.get_inverted() && p.variant == PieceType::PAWN {
                    return true;
                }
            }
        }
        let rx: i16 = king.0 as i16 + 1;
        let ry: i16 = king.1 as i16 + dir;
        if rx >= 0 && ry >= 0 && rx <= 7 && ry <= 7 {
            if !self.is_empty((rx as usize, ry as usize)) {
                let p: Piece = self.get_piece((rx as usize, ry as usize));
                if p.color == c.get_inverted() && p.variant == PieceType::PAWN {
                    return true;
                }
            }
        }
        false
    }
}

impl Board {
    /// Collects the squares a piece of side `by_color` can step to along
    /// the direction (dx, dy): every empty square of the walk in step
    /// order, and then the first occupied square if it holds an enemy
    /// piece, up to `length` steps or the board edge.
    pub fn traverse_path(
        &self,
        by_color: Color,
        from: (usize, usize),
        dx: i16,
        dy: i16,
        length: usize,
    ) -> (r: Vec<(usize, usize)>)
        requires
            self.grid().len() == 64,
            on_board(from.0 as int, from.1 as int),
            -2 <= dx as int <= 2,
            -2 <= dy as int <= 2,
            length <= 10,
        ensures
            r@ == ray_moves(
                self.grid(),
                by_color,
                from.0 as int,
                from.1 as int,
                dx as int,
                dy as int,
                length as nat,
            ),
            forall|t: (usize, usize)|
                #[trigger] r@.contains(t) <==> slide_ok(
                    self.grid(),
                    by_color,
                    from,
                    t,
                    dx as int,
                    dy as int,
                    length as int,
                ),
    {
        let ghost g = self.grid();
        let mut possible_moves: Vec<(usize, usize)> = Vec::new();
        let mut cx: i16 = from.0 as i16;
        let mut cy: i16 = from.1 as i16;
        let mut n: usize = 0;
        let mut stop: bool = false;
        proof {
            assert(Seq::<(usize, usize)>::empty() + ray_moves(
                g,
                by_color,
                from.0 as int,
                from.1 as int,
                dx as int,
                dy as int,
                length as nat,
            ) =~= ray_moves(
                g,
                by_color,
                from.0 as int,
                from.1 as int,
                dx as int,
                dy as int,
                length as nat,
            ));
        }
        while n < length && !stop
            invariant
                self.grid() == g,
                g.len() == 64,
                on_board(from.0 as int, from.1 as int),
                -2 <= dx as int <= 2,
                -2 <= dy as int <= 2,
                length <= 10,
                n <= length,
                !stop ==> (cx as int, cy as int) == step_on(
                    from.0 as int,
                    from.1 as int,
                    dx as int,
                    dy as int,
                    n as int,
                ),
                !stop ==> on_board(cx as int, cy as int),
                !stop ==> ray_free_before(g, from.0 as int, from.1 as int, dx as int, dy as int, n as int + 1),
                !stop ==> forall|t: (usize, usize)|
                    #[trigger] possible_moves@.contains(t) <==> (exists|k: int|
                        1 <= k <= n && slide_hit(g, by_color, from, t, dx as int, dy as int, k)),
                stop ==> forall|t: (usize, usize)|
                    #[trigger] possible_moves@.contains(t) <==> slide_ok(
                        g,
                        by_color,
                        from,
                        t,
                        dx as int,
                        dy as int,
                        length as int,
                    ),
                !stop ==> ray_moves(
                    g,
                    by_color,
                    from.0 as int,
                    from.1 as int,
                    dx as int,
                    dy as int,
                    length as nat,
                ) == possible_moves@ + ray_moves(
                    g,
                    by_color,
                    cx as int,
                    cy as int,
                    dx as int,
                    dy as int,
                    (length - n) as nat,
                ),
                stop ==> ray_moves(
                    g,
                    by_color,
                    from.0 as int,
                    from.1 as int,
                    dx as int,
                    dy as int,
                    length as nat,
                ) == possible_moves@,
            decreases length - n + (if stop {
                0int
            } else {
                1int
            }),
        {
            let nx: i16 = cx + dx;
            let ny: i16 = cy + dy;
            proof {
                assert((nx as int, ny as int) == step_on(
                    from.0 as int,
                    from.1 as int,
                    dx as int,
                    dy as int,
                    n as int + 1,
                )) by (nonlinear_arith)
                    requires
                        (cx as int, cy as int) == step_on(
                            from.0 as int,
                            from.1 as int,
                            dx as int,
                            dy as int,
                            n as int,
                        ),
                        nx == cx + dx,
                        ny == cy + dy,
                ;
            }
            if nx < 0 || nx > 7 || ny < 0 || ny > 7 {
                proof {
                    assert forall|t: (usize, usize), k: int|
                        n + 1 <= k <= length && slide_hit(
                            g,
                            by_color,
                            from,
                            t,
                            dx as int,
                            dy as int,
                            k,
                        ) implies false by {
                        if k == n as int + 1 {
                            assert((t.0 as int, t.1 as int) == (nx as int, ny as int));
                        } else {
                            assert(1 <= n as int + 1 < k);
                            assert(on_board(
                                step_on(from.0 as int, from.1 as int, dx as int, dy as int, n as int + 1).0,
                                step_on(from.0 as int, from.1 as int, dx as int, dy as int, n as int + 1).1,
                            ));
                        }
                    }
                    assert forall|t: (usize, usize)| #[trigger] possible_moves@.contains(t)
                        <==> slide_ok(g, by_color, from, t, dx as int, dy as int, length as int) by {
                        if possible_moves@.contains(t) {
                            let k = choose|k: int|
                                1 <= k <= n && slide_hit(g, by_color, from, t, dx as int, dy as int, k);
                            assert(slide_hit(g, by_color, from, t, dx as int, dy as int, k));
                        }
                        if slide_ok(g, by_color, from, t, dx as int, dy as int, length as int) {
                            let k = choose|k: int|
                                1 <= k <= length && slide_hit(g, by_color, from, t, dx as int, dy as int, k);
                            assert(k <= n);
                        }
                    }
                    assert(ray_moves(g, by_color, cx as int, cy as int, dx as int, dy as int, (
                    length - n) as nat) =~= Seq::<(usize, usize)>::empty());
                    assert(possible_moves@ + Seq::<(usize, usize)>::empty() =~= possible_moves@);
                }
                stop = true;
            } else if self.is_empty((nx as usize, ny as usize)) {
                let sqr: (usize, usize) = (nx as usize, ny as usize);
                proof {
                    assert(slide_hit(g, by_color, from, sqr, dx as int, dy as int, n as int + 1));
                    assert(ray_moves(g, by_color, cx as int, cy as int, dx as int, dy as int, (
                    length - n) as nat) == seq![sqr] + ray_moves(
                        g,
                        by_color,
                        nx as int,
                        ny as int,
                        dx as int,
                        dy as int,
                        (length - n - 1) as nat,
                    ));
                }
                let ghost res0 = possible_moves@;
                possible_moves.push(sqr);
                proof {
                    assert forall|t: (usize, usize)| #[trigger] possible_moves@.contains(t)
                        <==> (exists|k: int|
                        1 <= k <= n + 1 && slide_hit(g, by_color, from, t, dx as int, dy as int, k)) by {
                        lemma_push_contains(res0, sqr, t);
                        if possible_moves@.contains(t) {
                            if t == sqr {
                                assert(slide_hit(g, by_color, from, t, dx as int, dy as int, n as int + 1));
                            } else {
                                let k = choose|k: int|
                                    1 <= k <= n && slide_hit(g, by_color, from, t, dx as int, dy as int, k);
                                assert(slide_hit(g, by_color, from, t, dx as int, dy as int, k));
                            }
                        }
                        if exists|k: int|
                            1 <= k <= n + 1 && slide_hit(g, by_color, from, t, dx as int, dy as int, k) {
                            let k = choose|k: int|
                                1 <= k <= n + 1 && slide_hit(g, by_color, from, t, dx as int, dy as int, k);
                            if k <= n {
                                assert(res0.contains(t));
                            } else {
                                assert((t.0 as int, t.1 as int) == (nx as int, ny as int));
                                assert(t.0 == sqr.0 && t.1 == sqr.1);
                            }
                        }
                    }
                    assert forall|j: int| 1 <= j < n + 2 implies on_board(
                        #[trigger] step_on(from.0 as int, from.1 as int, dx as int, dy as int, j).0,
                        step_on(from.0 as int, from.1 as int, dx as int, dy as int, j).1,
                    ) && sq_empty(
                        g,
                        step_on(from.0 as int, from.1 as int, dx as int, dy as int, j).0,
                        step_on(from.0 as int, from.1 as int, dx as int, dy as int, j).1,
                    ) by {
                        if j < n + 1 {
                        } else {
                            assert(step_on(from.0 as int, from.1 as int, dx as int, dy as int, j)
                                == (nx as int, ny as int));
                        }
                    }
                    assert(ray_free_before(g, from.0 as int, from.1 as int, dx as int, dy as int, n as int + 2));
                    assert(possible_moves@ == res0.push(sqr));
                    assert(res0.push(sqr) =~= res0 + seq![sqr]);
                    assert(res0 + (seq![sqr] + ray_moves(
                        g,
                        by_color,
                        nx as int,
                        ny as int,
                        dx as int,
                        dy as int,
                        (length - n - 1) as nat,
                    )) =~= (res0 + seq![sqr]) + ray_moves(
                        g,
                        by_color,
                        nx as int,
                        ny as int,
                        dx as int,
                        dy as int,
                        (length - n - 1) as nat,
                    ));
                }
                cx = nx;
                cy = ny;
                n += 1;
            } else {
                let sqr: (usize, usize) = (nx as usize, ny as usize);
                let ghost res0 = possible_moves@;
                if self.is_enemy(sqr, by_color) {
                    proof {
                        assert(slide_hit(g, by_color, from, sqr, dx as int, dy as int, n as int + 1));
                        assert(ray_moves(g, by_color, cx as int, cy as int, dx as int, dy as int, (
                        length - n) as nat) =~= seq![sqr]);
                    }
                    possible_moves.push(sqr);
                    proof {
                        assert(possible_moves@ =~= res0 + seq![sqr]);
                    }
                } else {
                    proof {
                        assert(ray_moves(g, by_color, cx as int, cy as int, dx as int, dy as int, (
                        length - n) as nat) =~= Seq::<(usize, usize)>::empty());
                        assert(res0 + Seq::<(usize, usize)>::empty() =~= res0);
                    }
                }
                proof {
                    assert forall|t: (usize, usize)| #[trigger] possible_moves@.contains(t)
                        <==> slide_ok(g, by_color, from, t, dx as int, dy as int, length as int) by {
                        lemma_push_contains(res0, sqr, t);
                        if possible_moves@.contains(t) {
                            if res0.contains(t) {
                                let k = choose|k: int|
                                    1 <= k <= n && slide_hit(g, by_color, from, t, dx as int, dy as int, k);
                                assert(slide_hit(g, by_color, from, t, dx as int, dy as int, k));
                            } else {
                                assert(t == sqr);
                                assert(slide_hit(g, by_color, from, t, dx as int, dy as int, n as int + 1));
                            }
                        }
                        if slide_ok(g, by_color, from, t, dx as int, dy as int, length as int) {
                            let k = choose|k: int|
                                1 <= k <= length && slide_hit(g, by_color, from, t, dx as int, dy as int, k);
                            if k <= n {
                                assert(res0.contains(t));
                            } else if k == n as int + 1 {
                                assert((t.0 as int, t.1 as int) == (nx as int, ny as int));
                                assert(t.0 == sqr.0 && t.1 == sqr.1);
                                assert(sq_piece(g, nx as int, ny as int).color != by_color);
                            } else {
                                assert(1 <= n as int + 1 < k);
                                assert(on_board(
                                    step_on(from.0 as int, from.1 as int, dx as int, dy as int, n as int + 1).0,
                                    step_on(from.0 as int, from.1 as int, dx as int, dy as int, n as int + 1).1,
                                ) && sq_empty(
                                    g,
                                    step_on(from.0 as int, from.1 as int, dx as int, dy as int, n as int + 1).0,
                                    step_on(from.0 as int, from.1 as int, dx as int, dy as int, n as int + 1).1,
                                ));
                            }
                        }
                    }
                }
                stop = true;
            }
        }
        proof {
            if !stop {
                assert forall|t: (usize, usize)| #[trigger] possible_moves@.contains(t)
                    <==> slide_ok(g, by_color, from, t, dx as int, dy as int, length as int) by {
                    if possible_moves@.contains(t) {
                        let k = choose|k: int|
                            1 <= k <= n && slide_hit(g, by_color, from, t, dx as int, dy as int, k);
                        assert(slide_hit(g, by_color, from, t, dx as int, dy as int, k));
                    }
                }
                assert(ray_moves(g, by_color, cx as int, cy as int, dx as int, dy as int, (length
                    - n) as nat) =~= Seq::<(usize, usize)>::empty());
                assert(possible_moves@ + Seq::<(usize, usize)>::empty() =~= possible_moves@);
            }
        }
        possible_moves
    }
}

/// The square holding piece `p` after it moved.
pub open spec fn placed(p: Piece) -> Position {
    Position {
        content: PositionContent::PIECE_CONT(
            Piece { variant: p.variant, color: p.color, has_moved: true },
        ),
    }
}

/// An empty square.
pub open spec fn empty_square() -> Position {
    Position { content: PositionContent::NONE }
}

/// A king moving more than one file is castling.
pub open spec fn is_castle_move(g: Seq<Position>, from: (usize, usize), to: (usize, usize)) -> bool {
    &&& sq_piece(g, from.0 as int, from.1 as int).variant == PieceType::KING
    &&& (to.0 as int - from.0 as int > 1 || from.0 as int - to.0 as int > 1)
}

/// A pawn moving diagonally onto an empty square captures en passant.
pub open spec fn is_ep_move(g: Seq<Position>, from: (usize, usize), to: (usize, usize)) -> bool {
    &&& sq_piece(g, from.0 as int, from.1 as int).variant == PieceType::PAWN
    &&& from.0 != to.0
    &&& sq_empty(g, to.0 as int, to.1 as int)
}

/// A pawn reaching the far rank (other than by en passant) promotes.
pub open spec fn is_promo_move(g: Seq<Position>, from: (usize, usize), to: (usize, usize)) -> bool {
    &&& sq_piece(g, from.0 as int, from.1 as int).variant == PieceType::PAWN
    &&& !is_ep_move(g, from, to)
    &&& (to.1 == 0 || to.1 == 7)
}

/// Applying the move succeeds: a promotion must name the piece to install.
pub open spec fn fm_ok(
    g: Seq<Position>,
    from: (usize, usize),
    to: (usize, usize),
    promo: PieceType,
) -> bool {
    !(is_promo_move(g, from, to) && promo == PieceType::NONE)
}

/// The grid after a (successful) forced move: the square-level effect of
/// each kind of move, in the order the writes are made.
pub open spec fn fm_grid(
    g: Seq<Position>,
    from: (usize, usize),
    to: (usize, usize),
    promo: PieceType,
) -> Seq<Position> {
    let p = sq_piece(g, from.0 as int, from.1 as int);
    let fi = idx(from.0 as int, from.1 as int);
    let ti = idx(to.0 as int, to.1 as int);
    if p.variant == PieceType::KING {
        if is_castle_move(g, from, to) {
            if to.0 > from.0 {
                g.update(ti, placed(p)).update(
                    idx(to.0 as int - 1, to.1 as int),
                    placed(Piece { variant: PieceType::ROOK, color: p.color, has_moved: true }),
                ).update(idx(7, to.1 as int), empty_square()).update(fi, empty_square())
            } else {
                g.update(ti, placed(p)).update(
                    idx(to.0 as int + 1, to.1 as int),
                    placed(Piece { variant: PieceType::ROOK, color: p.color, has_moved: true }),
                ).update(idx(0, to.1 as int), empty_square()).update(fi, empty_square())
            }
        } else {
            g.update(ti, placed(p)).update(fi, empty_square())
        }
    } else if p.variant == PieceType::PAWN {
        if is_ep_move(g, from, to) {
            g.update(ti, placed(p)).update(idx(to.0 as int, from.1 as int), empty_square()).update(
                fi,
                empty_square(),
            )
        } else if to.1 == 0 || to.1 == 7 {
            g.update(
                ti,
                Position {
                    content: PositionContent::PIECE_CONT(
                        Piece { variant: promo, color: p.color, has_moved: true },
                    ),
                },
            ).update(fi, empty_square())
        } else {
            g.update(ti, placed(p)).update(fi, empty_square())
        }
    } else {
        g.update(ti, placed(p)).update(fi, empty_square())
    }
}

/// The white king cache after the move.
pub open spec fn fm_wk(b: Board, from: (usize, usize), to: (usize, usize)) -> (usize, usize) {
    let p = sq_piece(b.grid(), from.0 as int, from.1 as int);
    if p.variant == PieceType::KING && p.color == Color::W {
        to
    } else {
        b.wk_pos
    }
}

/// The black king cache after the move.
pub open spec fn fm_bk(b: Board, from: (usize, usize), to: (usize, usize)) -> (usize, usize) {
    let p = sq_piece(b.grid(), from.0 as int, from.1 as int);
    if p.variant == PieceType::KING && p.color == Color::B {
        to
    } else {
        b.bk_pos
    }
}

/// The double-step record after the move: set by a pawn advancing two
/// ranks, kept otherwise.
pub open spec fn fm_last_pass(
    b: Board,
    from: (usize, usize),
    to: (usize, usize),
    t_count: usize,
) -> (usize, usize, usize) {
    let p = sq_piece(b.grid(), from.0 as int, from.1 as int);
    if p.variant == PieceType::PAWN && !is_ep_move(b.grid(), from, to) && !(to.1 == 0 || to.1 == 7)
        && (from.1 as int - to.1 as int > 1 || to.1 as int - from.1 as int > 1) {
        (to.0, to.1, t_count)
    } else {
        b.last_pass
    }
}

/// The square the mover's king stands on after the move.
pub open spec fn king_after(b: Board, from: (usize, usize), to: (usize, usize)) -> (usize, usize) {
    let p = sq_piece(b.grid(), from.0 as int, from.1 as int);
    if p.variant == PieceType::KING {
        to
    } else if p.color == Color::W {
        b.wk_pos
    } else {
        b.bk_pos
    }
}

/// The move is legal with respect to check: applying it on a copy of the
/// board leaves the mover's own king unattacked.
pub open spec fn is_legal_spec(
    b: Board,
    from: (usize, usize),
    to: (usize, usize),
    promo: PieceType,
) -> bool {
    !in_check_alg(fm_grid(b.grid(), from, to, promo), king_after(b, from, to))
}

impl Board {
    /// Applies a move's board effects without checking legality, and
    /// reports whether a capture occurred (the destination was occupied).
    /// A castle relocates the rook as well; an en passant capture clears
    /// the bypassed pawn's square; a promotion installs the requested
    /// piece, and fails with an invalid-input error, changing nothing,
    /// when none was requested.
    pub(crate) fn force_move(
        &mut self,
        from: (usize, usize),
        to: (usize, usize),
        promotion: PieceType,
        t_count: usize,
    ) -> (r: Result<bool, ChessError>)
        requires
            old(self).grid().len() == 64,
            on_board(from.0 as int, from.1 as int),
            on_board(to.0 as int, to.1 as int),
            !sq_empty(old(self).grid(), from.0 as int, from.1 as int),
        ensures
            r is Ok <==> fm_ok(old(self).grid(), from, to, promotion),
            r is Err ==> *final(self) == *old(self) && r == Err::<bool, ChessError>(
                ChessError::InvalidInput,
            ),
            r is Ok ==> final(self).grid() == fm_grid(old(self).grid(), from, to, promotion),
            r is Ok ==> r->Ok_0 == !sq_empty(old(self).grid(), to.0 as int, to.1 as int),
            r is Ok ==> final(self).wk_pos == fm_wk(*old(self), from, to),
            r is Ok ==> final(self).bk_pos == fm_bk(*old(self), from, to),
            r is Ok ==> final(self).last_pass == fm_last_pass(*old(self), from, to, t_count),
    {
        let ghost g0 = self.grid();
        let has_captured: bool = !self.is_empty(to);
        let moved_piece: Piece = self.get_piece(from);
        let fi: usize = from.0 * 8 + from.1;
        let ti: usize = to.0 * 8 + to.1;
        match moved_piece.variant {
            PieceType::KING => {
                let castle: bool = if to.0 > from.0 {
                    to.0 - from.0 > 1
                } else {
                    from.0 - to.0 > 1
                };
                if castle {
                    self.positions.set(
                        ti,
                        Position {
                            content: PositionContent::PIECE_CONT(
                                Piece {
                                    variant: moved_piece.variant,
                                    color: moved_piece.color,
                                    has_moved: true,
                                },
                            ),
                        },
                    );
                    if to.0 > from.0 {
                        // king side: the rook crosses to the king's left
                        self.positions.set(
                            (to.0 - 1) * 8 + to.1,
                            Position {
                                content: PositionContent::PIECE_CONT(
                                    Piece {
                                        variant: PieceType::ROOK,
                                        color: moved_piece.color,
                                        has_moved: true,
                                    },
                                ),
                            },
                        );
                        self.positions.set(7 * 8 + to.1, Position { content: PositionContent::NONE });
                        self.positions.set(fi, Position { content: PositionContent::NONE });
                    } else {
                        // queen side: the rook crosses to the king's right
                        self.positions.set(
                            (to.0 + 1) * 8 + to.1,
                            Position {
                                content: PositionContent::PIECE_CONT(
                                    Piece {
                                        variant: PieceType::ROOK,
                                        color: moved_piece.color,
                                        has_moved: true,
                                    },
                                ),
                            },
                        );
                        self.positions.set(to.1, Position { content: PositionContent::NONE });
                        self.positions.set(fi, Position { content: PositionContent::NONE });
                    }
                } else {
                    self.positions.set(
                        ti,
                        Position {
                            content: PositionContent::PIECE_CONT(
                                Piece {
                                    variant: moved_piece.variant,
                                    color: moved_piece.color,
                                    has_moved: true,
                                },
                            ),
                        },
                    );
                    self.positions.set(fi, Position { content: PositionContent::NONE });
                }
                if moved_piece.color == Color::W {
                    self.wk_pos = to;
                } else {
                    self.bk_pos = to;
                }
            },
            PieceType::PAWN => {
                if from.0 != to.0 && !has_captured {
                    // en passant: the captured pawn stands beside the mover
                    self.positions.set(
                        ti,
                        Position {
                            content: PositionContent::PIECE_CONT(
                                Piece {
                                    variant: moved_piece.variant,
                                    color: moved_piece.color,
                                    has_moved: true,
                                },
                            ),
                        },
                    );
                    self.positions.set(to.0 * 8 + from.1, Position { content: PositionContent::NONE });
                    self.positions.set(fi, Position { content: PositionContent::NONE });
                } else if to.1 == 0 || to.1 == 7 {
                    if promotion == PieceType::NONE {
                        return Err(ChessError::InvalidInput);
                    }
                    self.positions.set(
                        ti,
                        Position {
                            content: PositionContent::PIECE_CONT(
                                Piece { variant: promotion, color: moved_piece.color, has_moved: true },
                            ),
                        },
                    );
                    self.positions.set(fi, Position { content: PositionContent::NONE });
                } else {
                    self.positions.set(
                        ti,
                        Position {
                            content: PositionContent::PIECE_CONT(
                                Piece {
                                    variant: moved_piece.variant,
                                    color: moved_piece.color,
                                    has_moved: true,
                                },
                            ),
                        },
                    );
                    self.positions.set(fi, Position { content: PositionContent::NONE });
                    let double_step: bool = if from.1 > to.1 {
                        from.1 - to.1 > 1
                    } else {
                        to.1 - from.1 > 1
                    };
                    if double_step {
                        self.last_pass = (to.0, to.1, t_count);
                    }
                }
            },
            _ => {
                self.positions.set(
                    ti,
                    Position {
                        content: PositionContent::PIECE_CONT(
                            Piece {
                                variant: moved_piece.variant,
                                color: moved_piece.color,
                                has_moved: true,
                            },
                        ),
                    },
                );
                self.positions.set(fi, Position { content: PositionContent::NONE });
            },
        }
        proof {
            assert(self.grid() =~= fm_grid(g0, from, to, promotion));
        }
        Ok(has_captured)
    }

    /// Tests a move's legality by simulation: clones the board, applies
    /// the move on the clone, and reports whether the mover's own king is
    /// left unattacked. The promotion argument matters only when the move
    /// is a promotion; callers filtering ordinary moves pass a queen as a
    /// placeholder.
    pub fn is_legal(
        &self,
        from: (usize, usize),
        to: (usize, usize),
        promotion: PieceType,
        t_count: usize,
    ) -> (r: bool)
        requires
            self.grid().len() == 64,
            on_board(from.0 as int, from.1 as int),
            on_board(to.0 as int, to.1 as int),
            !sq_empty(self.grid(), from.0 as int, from.1 as int),
            fm_ok(self.grid(), from, to, promotion),
            on_board(king_after(*self, from, to).0 as int, king_after(*self, from, to).1 as int),
            !sq_empty(
                fm_grid(self.grid(), from, to, promotion),
                king_after(*self, from, to).0 as int,
                king_after(*self, from, to).1 as int,
            ),
        ensures
            r == is_legal_spec(*self, from, to, promotion),
    {
        let pos_copy: Vec<Position> = clone_grid(&self.positions);
        let mut cpy_board: Board = Board {
            positions: pos_copy,
            bk_pos: self.bk_pos,
            wk_pos: self.wk_pos,
            last_pass: self.last_pass,
        };
        let c: Color = self.get_piece(from).color;
        let res: Result<bool, ChessError> = cpy_board.force_move(from, to, promotion, t_count);
        match res {
            Ok(_) => {},
            Err(_) => {
                return vstd::pervasive::unreached();
            },
        }
        let king: (usize, usize) = if c == Color::B {
            cpy_board.bk_pos
        } else {
            cpy_board.wk_pos
        };
        proof {
            assert(king == king_after(*self, from, to));
        }
        !cpy_board.is_in_check(king)
    }
}

/// Membership in a sequence extended by one element.
proof fn lemma_push_contains<T>(s: Seq<T>, x: T, t: T)
    ensures
        s.push(x).contains(t) <==> (s.contains(t) || t == x),
{
    assert(s.push(x)[s.len() as int] == x);
    if s.contains(t) {
        let i = choose|i: int| 0 <= i < s.len() && s[i] == t;
        assert(s.push(x)[i] == t);
    }
    if s.push(x).contains(t) && t != x {
        let i = choose|i: int| 0 <= i < s.push(x).len() && s.push(x)[i] == t;
        assert(s[i] == t);
    }
}

/// Copies the 64 squares of a grid.
pub(crate) fn clone_grid(v: &Vec<Position>) -> (r: Vec<Position>)
    ensures
        r@ == v@,
{
    let mut r: Vec<Position> = Vec::new();
    let mut i: usize = 0;
    while i < v.len()
        invariant
            i <= v@.len(),
            r@.len() == i,
            forall|j: int| 0 <= j < i ==> r@[j] == v@[j],
        decreases v@.len() - i,
    {
        r.push(v[i]);
        i += 1;
    }
    proof {
        assert(r@ =~= v@);
    }
    r
}

/// The 71-character representation of a grid: eight 8-character rows,
/// highest rank first, separated by '/'.
pub open spec fn board_repr(g: Seq<Position>) -> Seq<char> {
    Seq::new(
        71,
        |k: int|
            if k % 9 == 8 {
                '/'
            } else {
                crate::notation::pos_fen(g[idx(k % 9, 7 - k / 9)])
            },
    )
}

impl Board {
    /// Writes the board as text: eight rows of eight characters separated
    /// by '/', highest rank first, upper case for white, '.' for empty.
    pub fn to_string(&self) -> (r: String)
        requires
            grid_wf(self.grid()),
        ensures
            r@ == board_repr(self.grid()),
    {
        let ghost g = self.grid();
        proof {
            reveal_strlit("/");
        }
        let mut s: String = String::new();
        let mut i: usize = 0;
        while i < 8
            invariant
                self.grid() == g,
                grid_wf(g),
                i <= 8,
                s@ =~= board_repr(g).subrange(
                    0,
                    if i < 8 {
                        9 * i
                    } else {
                        71
                    },
                ),
            decreases 8 - i,
        {
            let rank: usize = 7 - i;
            let mut j: usize = 0;
            while j < 8
                invariant
                    self.grid() == g,
                    grid_wf(g),
                    i < 8,
                    rank == 7 - i,
                    j <= 8,
                    s@ =~= board_repr(g).subrange(0, 9 * i + j),
                decreases 8 - j,
            {
                let pi: usize = j * 8 + rank;
                let pos: Position = self.positions[pi];
                let piece_text: &'static str = crate::notation::fen_str(pos);
                proof {
                    let k = 9 * (i as int) + j;
                    assert(k % 9 == j && k / 9 == i) by (nonlinear_arith)
                        requires
                            k == 9 * (i as int) + j,
                            0 <= j < 8,
                            0 <= i < 8,
                    ;
                    assert(board_repr(g)[k] == crate::notation::pos_fen(
                        g[idx(j as int, rank as int)],
                    ));
                }
                let ghost s0 = s@;
                s.append(piece_text);
                proof {
                    assert(s@ =~= board_repr(g).subrange(0, 9 * i + j + 1));
                }
                j += 1;
            }
            if i < 7 {
                let ghost s0 = s@;
                s.append("/");
                proof {
                    reveal_strlit("/");
                    let k = 9 * (i as int) + 8;
                    assert(k % 9 == 8) by (nonlinear_arith)
                        requires
                            k == 9 * (i as int) + 8,
                            0 <= i < 8,
                    ;
                    assert(board_repr(g)[k] == '/');
                    assert(s@ == s0 + "/"@);
                    assert("/"@ =~= seq!['/']);
                    assert(s@ =~= board_repr(g).subrange(0, 9 * (i + 1)));
                }
            } else {
                proof {
                    assert(s@ =~= board_repr(g).subrange(0, 71));
                }
            }
            i += 1;
        }
        proof {
            assert(board_repr(g).subrange(0, 71) =~= board_repr(g));
        }
        s
    }
}

/// The piece kind of the back rank at file `f`.
pub open spec fn back_rank(f: int) -> PieceType {
    if f == 0 || f == 7 {
        PieceType::ROOK
    } else if f == 1 || f == 6 {
        PieceType::KNIGHT
    } else if f == 2 || f == 5 {
        PieceType::BISHIOP
    } else if f == 3 {
        PieceType::QUEEN
    } else {
        PieceType::KING
    }
}

/// The starting content of square (f, r).
pub open spec fn start_square(f: int, r: int) -> Position {
    if r == 0 {
        Position {
            content: PositionContent::PIECE_CONT(
                Piece { variant: back_rank(f), color: Color::W, has_moved: false },
            ),
        }
    } else if r == 1 {
        Position {
            content: PositionContent::PIECE_CONT(
                Piece { variant: PieceType::PAWN, color: Color::W, has_moved: false },
            ),
        }
    } else if r == 6 {
        Position {
            content: PositionContent::PIECE_CONT(
                Piece { variant: PieceType::PAWN, color: Color::B, has_moved: false },
            ),
        }
    } else if r == 7 {
        Position {
            content: PositionContent::PIECE_CONT(
                Piece { variant: back_rank(f), color: Color::B, has_moved: false },
            ),
        }
    } else {
        Position { content: PositionContent::NONE }
    }
}

/// The standard starting grid.
pub open spec fn start_grid() -> Seq<Position> {
    Seq::new(64, |i: int| start_square(i / 8, i % 8))
}

/// Builds the starting content of square (f, r).
fn starting_square(f: usize, r: usize) -> (p: Position)
    requires
        f < 8,
        r < 8,
    ensures
        p == start_square(f as int, r as int),
{
    if r == 0 || r == 7 {
        let color: Color = if r == 0 {
            Color::W
        } else {
            Color::B
        };
        let figure: PieceType = match f {
            0 => PieceType::ROOK,
            1 => PieceType::KNIGHT,
            2 => PieceType::BISHIOP,
            3 => PieceType::QUEEN,
            4 => PieceType::KING,
            5 => PieceType::BISHIOP,
            6 => PieceType::KNIGHT,
            _ => PieceType::ROOK,
        };
        Position { content: PositionContent::PIECE_CONT(Piece { variant: figure, color, has_moved: false }) }
    } else if r == 1 {
        Position {
            content: PositionContent::PIECE_CONT(
                Piece { variant: PieceType::PAWN, color: Color::W, has_moved: false },
            ),
        }
    } else if r == 6 {
        Position {
            content: PositionContent::PIECE_CONT(
                Piece { variant: PieceType::PAWN, color: Color::B, has_moved: false },
            ),
        }
    } else {
        Position { content: PositionContent::NONE }
    }
}

} // verus!
