//! Legal-move enumeration: the candidate (geometric) moves of each piece
//! kind, including castling and en passant, and their filtering through
//! legality-by-simulation.
use crate::attack::in_check_alg;
use crate::attack::pawn_dir;
use crate::attack::slide_ok;
use crate::board::fm_bk;
use crate::board::fm_grid;
use crate::board::fm_ok;
use crate::board::fm_wk;
use crate::board::is_promo_move;
use crate::board::idx;
use crate::board::is_castle_move;
use crate::board::is_ep_move;
use crate::board::king_after;
use crate::board::is_legal_spec;
use crate::board::king_at;
use crate::board::on_board;
use crate::board::sq_empty;
use crate::board::sq_piece;
use crate::board::Board;
use crate::notation::decode_notation;
use crate::notation::decode_spec;
use crate::notation::enc;
use crate::notation::encode_notation;
use crate::game::Game;
use crate::pieces::valid_content;
use crate::pieces::Color;
use crate::pieces::Piece;
use crate::pieces::PieceType;
use crate::pieces::Position;
use vstd::prelude::*;

verus! {

/// A bishop's candidate squares: a walk along one of the four diagonals.
pub open spec fn slide_diag(
    g: Seq<Position>,
    c: Color,
    from: (usize, usize),
    to: (usize, usize),
    len: int,
) -> bool {
    ||| slide_ok(g, c, from, to, -1, 1, len)
    ||| slide_ok(g, c, from, to, 1, 1, len)
    ||| slide_ok(g, c, from, to, -1, -1, len)
    ||| slide_ok(g, c, from, to, 1, -1, len)
}

/// A rook's candidate squares: a walk along one of the four orthogonals.
pub open spec fn slide_ortho(
    g: Seq<Position>,
    c: Color,
    from: (usize, usize),
    to: (usize, usize),
    len: int,
) -> bool {
    ||| slide_ok(g, c, from, to, 0, 1, len)
    ||| slide_ok(g, c, from, to, -1, 0, len)
    ||| slide_ok(g, c, from, to, 1, 0, len)
    ||| slide_ok(g, c, from, to, 0, -1, len)
}

/// A knight's candidate squares: one step at each of its eight offsets.
pub open spec fn slide_knight(
    g: Seq<Position>,
    c: Color,
    from: (usize, usize),
    to: (usize, usize),
) -> bool {
    ||| slide_ok(g, c, from, to, 1, 2, 1)
    ||| slide_ok(g, c, from, to, 2, 1, 1)
    ||| slide_ok(g, c, from, to, -1, 2, 1)
    ||| slide_ok(g, c, from, to, 2, -1, 1)
    ||| slide_ok(g, c, from, to, -1, -2, 1)
    ||| slide_ok(g, c, from, to, -2, -1, 1)
    ||| slide_ok(g, c, from, to, 1, -2, 1)
    ||| slide_ok(g, c, from, to, -2, 1, 1)
}

/// A king's ordinary candidate squares: one step in each direction.
pub open spec fn slide_king(
    g: Seq<Position>,
    c: Color,
    from: (usize, usize),
    to: (usize, usize),
) -> bool {
    ||| slide_ok(g, c, from, to, -1, 1, 1)
    ||| slide_ok(g, c, from, to, 0, 1, 1)
    ||| slide_ok(g, c, from, to, 1, 1, 1)
    ||| slide_ok(g, c, from, to, -1, 0, 1)
    ||| slide_ok(g, c, from, to, 1, 0, 1)
    ||| slide_ok(g, c, from, to, -1, -1, 1)
    ||| slide_ok(g, c, from, to, 0, -1, 1)
    ||| slide_ok(g, c, from, to, 1, -1, 1)
}

/// Queen-side castling is available for the king standing at `from`: king
/// and rook unmoved, the king not in check, the three squares between
/// them empty, and the square the king crosses safe. The file guards keep
/// every touched square on the board.
pub open spec fn castle_left_ok(b: Board, from: (usize, usize)) -> bool {
    let g = b.grid();
    let p = sq_piece(g, from.0 as int, from.1 as int);
    &&& !p.has_moved
    &&& !in_check_alg(g, from)
    &&& from.0 >= 3
    &&& !sq_empty(g, 0, from.1 as int)
    &&& sq_piece(g, 0, from.1 as int).variant == PieceType::ROOK
    &&& !sq_piece(g, 0, from.1 as int).has_moved
    &&& sq_empty(g, from.0 as int - 1, from.1 as int)
    &&& sq_empty(g, from.0 as int - 2, from.1 as int)
    &&& sq_empty(g, from.0 as int - 3, from.1 as int)
    &&& is_legal_spec(b, from, ((from.0 - 1) as usize, from.1), PieceType::QUEEN)
}

/// King-side castling is available for the king standing at `from`.
pub open spec fn castle_right_ok(b: Board, from: (usize, usize)) -> bool {
    let g = b.grid();
    let p = sq_piece(g, from.0 as int, from.1 as int);
    &&& !p.has_moved
    &&& !in_check_alg(g, from)
    &&& from.0 <= 4
    &&& !sq_empty(g, 7, from.1 as int)
    &&& sq_piece(g, 7, from.1 as int).variant == PieceType::ROOK
    &&& !sq_piece(g, 7, from.1 as int).has_moved
    &&& sq_empty(g, from.0 as int + 1, from.1 as int)
    &&& sq_empty(g, from.0 as int + 2, from.1 as int)
    &&& is_legal_spec(b, from, ((from.0 + 1) as usize, from.1), PieceType::QUEEN)
}

/// An en passant candidate: the last double step landed one turn ago on
/// an adjacent file at the mover's rank, the bypassed square still holds
/// that enemy pawn, and the landing square diagonally behind it is a free
/// square of the board.
pub open spec fn ep_candidate(
    b: Board,
    turn: usize,
    from: (usize, usize),
    to: (usize, usize),
) -> bool {
    let g = b.grid();
    let p = sq_piece(g, from.0 as int, from.1 as int);
    let d = pawn_dir(p.color);
    let lp = b.last_pass;
    &&& (turn as int - lp.2 as int == 1 || lp.2 as int - turn as int == 1)
    &&& lp.1 == from.1
    &&& (lp.0 as int == from.0 as int + 1 || lp.0 as int == from.0 as int - 1)
    &&& lp.0 < 8
    &&& on_board(lp.0 as int, from.1 as int + d)
    &&& to.0 == lp.0
    &&& to.1 as int == from.1 as int + d
    &&& sq_empty(g, to.0 as int, to.1 as int)
    &&& !sq_empty(g, lp.0 as int, lp.1 as int)
    &&& sq_piece(g, lp.0 as int, lp.1 as int).variant == PieceType::PAWN
    &&& sq_piece(g, lp.0 as int, lp.1 as int).color == p.color.spec_inverted()
}

/// A pawn's candidate squares: one step forward onto a free square, a
/// double step from its starting state, a diagonal capture, or an en
/// passant capture.
pub open spec fn pawn_candidate(
    b: Board,
    turn: usize,
    from: (usize, usize),
    to: (usize, usize),
) -> bool {
    let g = b.grid();
    let p = sq_piece(g, from.0 as int, from.1 as int);
    let d = pawn_dir(p.color);
    ||| (to.0 == from.0 && to.1 as int == from.1 as int + d && on_board(to.0 as int, to.1 as int)
        && sq_empty(g, to.0 as int, to.1 as int))
    ||| (to.0 == from.0 && to.1 as int == from.1 as int + 2 * d && !p.has_moved && on_board(
        from.0 as int,
        from.1 as int + d,
    ) && sq_empty(g, from.0 as int, from.1 as int + d) && on_board(to.0 as int, to.1 as int)
        && sq_empty(g, to.0 as int, to.1 as int))
    ||| ((to.0 as int == from.0 as int + 1 || to.0 as int == from.0 as int - 1) && to.1 as int
        == from.1 as int + d && on_board(to.0 as int, to.1 as int) && !sq_empty(
        g,
        to.0 as int,
        to.1 as int,
    ) && sq_piece(g, to.0 as int, to.1 as int).color == p.color.spec_inverted())
    ||| ep_candidate(b, turn, from, to)
}

/// The candidate (geometric) moves of the piece standing at `from`,
/// before the check filter.
pub open spec fn candidate_move(gm: Game, from: (usize, usize), to: (usize, usize)) -> bool {
    let b = gm.board;
    let g = b.grid();
    let p = sq_piece(g, from.0 as int, from.1 as int);
    match p.variant {
        PieceType::BISHIOP => slide_diag(g, p.color, from, to, 10),
        PieceType::ROOK => slide_ortho(g, p.color, from, to, 10),
        PieceType::QUEEN => slide_diag(g, p.color, from, to, 10) || slide_ortho(
            g,
            p.color,
            from,
            to,
            10,
        ),
        PieceType::KNIGHT => slide_knight(g, p.color, from, to),
        PieceType::KING => slide_king(g, p.color, from, to) || (castle_left_ok(b, from) && to.0
            as int == from.0 as int - 2 && to.1 == from.1) || (castle_right_ok(b, from) && to.0
            as int == from.0 as int + 2 && to.1 == from.1),
        PieceType::PAWN => pawn_candidate(b, gm.turn_counter, from, to),
        PieceType::NONE => false,
    }
}

impl Game {
    /// `to` is a legal destination of the piece at `from`: the square
    /// holds a piece of the side to move, the move is a candidate of its
    /// kind, and it leaves the mover's own king unattacked.
    #[verifier::opaque]
    pub open spec fn legal_dest(self, from: (usize, usize), to: (usize, usize)) -> bool {
        &&& on_board(from.0 as int, from.1 as int)
        &&& on_board(to.0 as int, to.1 as int)
        &&& !sq_empty(self.board.grid(), from.0 as int, from.1 as int)
        &&& sq_piece(self.board.grid(), from.0 as int, from.1 as int).color == self.side_to_move()
        &&& candidate_move(self, from, to)
        &&& is_legal_spec(self.board, from, to, PieceType::QUEEN)
    }

    /// Some legal move exists for the side to move.
    pub open spec fn has_any_legal_move(self) -> bool {
        exists|a: (usize, usize), b: (usize, usize)| self.legal_dest(a, b)
    }
}

/// What one walk step yields: the reached square is on the board, is a
/// free or enemy square, differs from the origin, and (for one-step
/// walks) lies exactly one direction vector away.
proof fn lemma_slide_facts(
    g: Seq<Position>,
    c: Color,
    from: (usize, usize),
    to: (usize, usize),
    dx: int,
    dy: int,
    len: int,
)
    requires
        slide_ok(g, c, from, to, dx, dy, len),
        !(dx == 0 && dy == 0),
    ensures
        on_board(to.0 as int, to.1 as int),
        sq_empty(g, to.0 as int, to.1 as int) || sq_piece(g, to.0 as int, to.1 as int).color != c,
        to.0 != from.0 || to.1 != from.1,
        len == 1 ==> to.0 as int == from.0 as int + dx && to.1 as int == from.1 as int + dy,
{
    let k = choose|k: int|
        1 <= k <= len && crate::attack::slide_hit(g, c, from, to, dx, dy, k);
    assert(crate::attack::slide_hit(g, c, from, to, dx, dy, k));
    assert(to.0 as int == from.0 as int + k * dx && to.1 as int == from.1 as int + k * dy);
    if dx != 0 {
        assert(k * dx != 0) by (nonlinear_arith)
            requires
                k >= 1,
                dx != 0,
        ;
    } else {
        assert(k * dy != 0) by (nonlinear_arith)
            requires
                k >= 1,
                dy != 0,
        ;
        assert(k * dx == 0) by (nonlinear_arith)
            requires
                dx == 0,
        ;
    }
    if len == 1 {
        assert(k == 1);
        assert(1 * dx == dx && 1 * dy == dy);
    }
}

/// A candidate move can be handed to the legality filter: its target is
/// on the board, the queen placeholder always satisfies a promotion, and
/// after applying the move the mover's own king still stands on its
/// (tracked) square.
#[verifier::rlimit(100)]
#[verifier::spinoff_prover]
pub proof fn lemma_candidate_callable(gm: Game, from: (usize, usize), to: (usize, usize))
    requires
        gm.wf(),
        on_board(from.0 as int, from.1 as int),
        !sq_empty(gm.board.grid(), from.0 as int, from.1 as int),
        candidate_move(gm, from, to),
    ensures
        on_board(to.0 as int, to.1 as int),
        fm_ok(gm.board.grid(), from, to, PieceType::QUEEN),
        on_board(
            king_after(gm.board, from, to).0 as int,
            king_after(gm.board, from, to).1 as int,
        ),
        !sq_empty(
            fm_grid(gm.board.grid(), from, to, PieceType::QUEEN),
            king_after(gm.board, from, to).0 as int,
            king_after(gm.board, from, to).1 as int,
        ),
{
    let b = gm.board;
    let g = b.grid();
    let p = sq_piece(g, from.0 as int, from.1 as int);
    let c = p.color;
    let ka = king_after(b, from, to);
    let fi = idx(from.0 as int, from.1 as int);
    let ti = idx(to.0 as int, to.1 as int);
    let g2 = fm_grid(g, from, to, PieceType::QUEEN);
    if p.variant == PieceType::KING {
        assert(ka == to);
        if slide_king(g, c, from, to) {
            if slide_ok(g, c, from, to, -1, 1, 1) {
                lemma_slide_facts(g, c, from, to, -1, 1, 1);
            } else if slide_ok(g, c, from, to, 0, 1, 1) {
                lemma_slide_facts(g, c, from, to, 0, 1, 1);
            } else if slide_ok(g, c, from, to, 1, 1, 1) {
                lemma_slide_facts(g, c, from, to, 1, 1, 1);
            } else if slide_ok(g, c, from, to, -1, 0, 1) {
                lemma_slide_facts(g, c, from, to, -1, 0, 1);
            } else if slide_ok(g, c, from, to, 1, 0, 1) {
                lemma_slide_facts(g, c, from, to, 1, 0, 1);
            } else if slide_ok(g, c, from, to, -1, -1, 1) {
                lemma_slide_facts(g, c, from, to, -1, -1, 1);
            } else if slide_ok(g, c, from, to, 0, -1, 1) {
                lemma_slide_facts(g, c, from, to, 0, -1, 1);
            } else {
                lemma_slide_facts(g, c, from, to, 1, -1, 1);
            }
            assert(!is_castle_move(g, from, to));
            assert(idx(to.0 as int, to.1 as int) != fi) by {
                if ti == fi {
                    crate::board::lemma_idx_inj(
                        to.0 as int,
                        to.1 as int,
                        from.0 as int,
                        from.1 as int,
                    );
                }
            }
            assert(g2[ti] == crate::board::placed(p));
        } else if castle_left_ok(b, from) && to.0 as int == from.0 as int - 2 && to.1 == from.1 {
            assert(is_castle_move(g, from, to));
            assert(!(to.0 > from.0));
            assert(g2 == g.update(ti, crate::board::placed(p)).update(
                idx(to.0 as int + 1, to.1 as int),
                crate::board::placed(
                    crate::pieces::Piece {
                        variant: PieceType::ROOK,
                        color: p.color,
                        has_moved: true,
                    },
                ),
            ).update(idx(0, to.1 as int), crate::board::empty_square()).update(
                fi,
                crate::board::empty_square(),
            ));
            assert(ti != idx(to.0 as int + 1, to.1 as int)) by {
                if ti == idx(to.0 as int + 1, to.1 as int) {
                    crate::board::lemma_idx_inj(
                        to.0 as int,
                        to.1 as int,
                        to.0 as int + 1,
                        to.1 as int,
                    );
                }
            }
            assert(ti != idx(0, to.1 as int)) by {
                if ti == idx(0, to.1 as int) {
                    crate::board::lemma_idx_inj(to.0 as int, to.1 as int, 0, to.1 as int);
                }
            }
            assert(ti != fi) by {
                if ti == fi {
                    crate::board::lemma_idx_inj(
                        to.0 as int,
                        to.1 as int,
                        from.0 as int,
                        from.1 as int,
                    );
                }
            }
            assert(g2[ti] == crate::board::placed(p));
        } else {
            assert(castle_right_ok(b, from) && to.0 as int == from.0 as int + 2 && to.1 == from.1);
            assert(is_castle_move(g, from, to));
            assert(to.0 > from.0);
            assert(ti != idx(to.0 as int - 1, to.1 as int)) by {
                if ti == idx(to.0 as int - 1, to.1 as int) {
                    crate::board::lemma_idx_inj(
                        to.0 as int,
                        to.1 as int,
                        to.0 as int - 1,
                        to.1 as int,
                    );
                }
            }
            assert(ti != idx(7, to.1 as int)) by {
                if ti == idx(7, to.1 as int) {
                    crate::board::lemma_idx_inj(to.0 as int, to.1 as int, 7, to.1 as int);
                }
            }
            assert(ti != fi) by {
                if ti == fi {
                    crate::board::lemma_idx_inj(
                        to.0 as int,
                        to.1 as int,
                        from.0 as int,
                        from.1 as int,
                    );
                }
            }
            assert(g2[ti] == crate::board::placed(p));
        }
    } else {
        // the mover is not a king, so its own king keeps its square
        assert(ka == if c == Color::W {
            b.wk_pos
        } else {
            b.bk_pos
        });
        assert(king_at(g, ka, c));
        let ki = idx(ka.0 as int, ka.1 as int);
        // gather the shared facts: the target is on the board and free or
        // enemy
        if p.variant == PieceType::BISHIOP || p.variant == PieceType::QUEEN {
            if slide_ok(g, c, from, to, -1, 1, 10) {
                lemma_slide_facts(g, c, from, to, -1, 1, 10);
            } else if slide_ok(g, c, from, to, 1, 1, 10) {
                lemma_slide_facts(g, c, from, to, 1, 1, 10);
            } else if slide_ok(g, c, from, to, -1, -1, 10) {
                lemma_slide_facts(g, c, from, to, -1, -1, 10);
            } else if slide_ok(g, c, from, to, 1, -1, 10) {
                lemma_slide_facts(g, c, from, to, 1, -1, 10);
            }
        }
        if p.variant == PieceType::ROOK || p.variant == PieceType::QUEEN {
            if slide_ok(g, c, from, to, 0, 1, 10) {
                lemma_slide_facts(g, c, from, to, 0, 1, 10);
            } else if slide_ok(g, c, from, to, -1, 0, 10) {
                lemma_slide_facts(g, c, from, to, -1, 0, 10);
            } else if slide_ok(g, c, from, to, 1, 0, 10) {
                lemma_slide_facts(g, c, from, to, 1, 0, 10);
            } else if slide_ok(g, c, from, to, 0, -1, 10) {
                lemma_slide_facts(g, c, from, to, 0, -1, 10);
            }
        }
        if p.variant == PieceType::KNIGHT {
            if slide_ok(g, c, from, to, 1, 2, 1) {
                lemma_slide_facts(g, c, from, to, 1, 2, 1);
            } else if slide_ok(g, c, from, to, 2, 1, 1) {
                lemma_slide_facts(g, c, from, to, 2, 1, 1);
            } else if slide_ok(g, c, from, to, -1, 2, 1) {
                lemma_slide_facts(g, c, from, to, -1, 2, 1);
            } else if slide_ok(g, c, from, to, 2, -1, 1) {
                lemma_slide_facts(g, c, from, to, 2, -1, 1);
            } else if slide_ok(g, c, from, to, -1, -2, 1) {
                lemma_slide_facts(g, c, from, to, -1, -2, 1);
            } else if slide_ok(g, c, from, to, -2, -1, 1) {
                lemma_slide_facts(g, c, from, to, -2, -1, 1);
            } else if slide_ok(g, c, from, to, 1, -2, 1) {
                lemma_slide_facts(g, c, from, to, 1, -2, 1);
            } else {
                lemma_slide_facts(g, c, from, to, -2, 1, 1);
            }
        }
        // the target square on the board, free or enemy, is never the own
        // king's square
        assert(on_board(to.0 as int, to.1 as int));
        assert(ti != ki) by {
            if ti == ki {
                crate::board::lemma_idx_inj(to.0 as int, to.1 as int, ka.0 as int, ka.1 as int);
                assert(sq_piece(g, to.0 as int, to.1 as int).variant == PieceType::KING);
                assert(sq_piece(g, to.0 as int, to.1 as int).color == c);
                assert(!sq_empty(g, to.0 as int, to.1 as int));
            }
        }
        assert(fi != ki) by {
            if fi == ki {
                crate::board::lemma_idx_inj(from.0 as int, from.1 as int, ka.0 as int, ka.1 as int);
                assert(sq_piece(g, from.0 as int, from.1 as int).variant == PieceType::KING);
            }
        }
        if p.variant == PieceType::PAWN && is_ep_move(g, from, to) {
            let cap = idx(to.0 as int, from.1 as int);
            assert(ep_candidate(b, gm.turn_counter, from, to));
            assert(cap != ki) by {
                if cap == ki {
                    crate::board::lemma_idx_inj(
                        to.0 as int,
                        from.1 as int,
                        ka.0 as int,
                        ka.1 as int,
                    );
                    assert(sq_piece(g, to.0 as int, from.1 as int).variant == PieceType::KING);
                }
            }
            assert(g2[ki] == g[ki]);
        } else {
            assert(g2[ki] == g[ki]);
        }
        assert(!sq_empty(g2, ka.0 as int, ka.1 as int));
    }
}

/// A square holding a king.
pub open spec fn holds_king(g: Seq<Position>, t: (usize, usize)) -> bool {
    &&& !sq_empty(g, t.0 as int, t.1 as int)
    &&& sq_piece(g, t.0 as int, t.1 as int).variant == PieceType::KING
}

/// Applying a candidate move that does not capture a king keeps the grid
/// well formed and keeps both king caches pointing at kings of their
/// sides.
#[verifier::rlimit(100)]
#[verifier::spinoff_prover]
pub proof fn lemma_move_preserves_kings(
    gm: Game,
    from: (usize, usize),
    to: (usize, usize),
    pp: PieceType,
)
    requires
        gm.wf(),
        on_board(from.0 as int, from.1 as int),
        !sq_empty(gm.board.grid(), from.0 as int, from.1 as int),
        candidate_move(gm, from, to),
        fm_ok(gm.board.grid(), from, to, pp),
        !holds_king(gm.board.grid(), to),
    ensures
        crate::board::grid_wf(fm_grid(gm.board.grid(), from, to, pp)),
        king_at(fm_grid(gm.board.grid(), from, to, pp), fm_wk(gm.board, from, to), Color::W),
        king_at(fm_grid(gm.board.grid(), from, to, pp), fm_bk(gm.board, from, to), Color::B),
{
    let b = gm.board;
    let g = b.grid();
    let p = sq_piece(g, from.0 as int, from.1 as int);
    let c = p.color;
    let fi = idx(from.0 as int, from.1 as int);
    let ti = idx(to.0 as int, to.1 as int);
    let g2 = fm_grid(g, from, to, pp);
    lemma_candidate_callable(gm, from, to);
    assert(valid_content(g[fi]));
    if is_promo_move(g, from, to) {
        assert(pp != PieceType::NONE);
    }
    // no two distinct relevant squares share an index
    assert forall|f1: int, r1: int, f2: int, r2: int|
        on_board(f1, r1) && on_board(f2, r2) && idx(f1, r1) == idx(f2, r2) implies f1 == f2 && r1
        == r2 by {
        crate::board::lemma_idx_inj(f1, r1, f2, r2);
    }
    // collect the per-kind geometric facts for this move
    if p.variant == PieceType::BISHIOP || p.variant == PieceType::QUEEN {
        if slide_ok(g, c, from, to, -1, 1, 10) {
            lemma_slide_facts(g, c, from, to, -1, 1, 10);
        } else if slide_ok(g, c, from, to, 1, 1, 10) {
            lemma_slide_facts(g, c, from, to, 1, 1, 10);
        } else if slide_ok(g, c, from, to, -1, -1, 10) {
            lemma_slide_facts(g, c, from, to, -1, -1, 10);
        } else if slide_ok(g, c, from, to, 1, -1, 10) {
            lemma_slide_facts(g, c, from, to, 1, -1, 10);
        }
    }
    if p.variant == PieceType::ROOK || p.variant == PieceType::QUEEN {
        if slide_ok(g, c, from, to, 0, 1, 10) {
            lemma_slide_facts(g, c, from, to, 0, 1, 10);
        } else if slide_ok(g, c, from, to, -1, 0, 10) {
            lemma_slide_facts(g, c, from, to, -1, 0, 10);
        } else if slide_ok(g, c, from, to, 1, 0, 10) {
            lemma_slide_facts(g, c, from, to, 1, 0, 10);
        } else if slide_ok(g, c, from, to, 0, -1, 10) {
            lemma_slide_facts(g, c, from, to, 0, -1, 10);
        }
    }
    if p.variant == PieceType::KNIGHT {
        if slide_ok(g, c, from, to, 1, 2, 1) {
            lemma_slide_facts(g, c, from, to, 1, 2, 1);
        } else if slide_ok(g, c, from, to, 2, 1, 1) {
            lemma_slide_facts(g, c, from, to, 2, 1, 1);
        } else if slide_ok(g, c, from, to, -1, 2, 1) {
            lemma_slide_facts(g, c, from, to, -1, 2, 1);
        } else if slide_ok(g, c, from, to, 2, -1, 1) {
            lemma_slide_facts(g, c, from, to, 2, -1, 1);
        } else if slide_ok(g, c, from, to, -1, -2, 1) {
            lemma_slide_facts(g, c, from, to, -1, -2, 1);
        } else if slide_ok(g, c, from, to, -2, -1, 1) {
            lemma_slide_facts(g, c, from, to, -2, -1, 1);
        } else if slide_ok(g, c, from, to, 1, -2, 1) {
            lemma_slide_facts(g, c, from, to, 1, -2, 1);
        } else {
            lemma_slide_facts(g, c, from, to, -2, 1, 1);
        }
    }
    if p.variant == PieceType::KING && slide_king(g, c, from, to) {
        if slide_ok(g, c, from, to, -1, 1, 1) {
            lemma_slide_facts(g, c, from, to, -1, 1, 1);
        } else if slide_ok(g, c, from, to, 0, 1, 1) {
            lemma_slide_facts(g, c, from, to, 0, 1, 1);
        } else if slide_ok(g, c, from, to, 1, 1, 1) {
            lemma_slide_facts(g, c, from, to, 1, 1, 1);
        } else if slide_ok(g, c, from, to, -1, 0, 1) {
            lemma_slide_facts(g, c, from, to, -1, 0, 1);
        } else if slide_ok(g, c, from, to, 1, 0, 1) {
            lemma_slide_facts(g, c, from, to, 1, 0, 1);
        } else if slide_ok(g, c, from, to, -1, -1, 1) {
            lemma_slide_facts(g, c, from, to, -1, -1, 1);
        } else if slide_ok(g, c, from, to, 0, -1, 1) {
            lemma_slide_facts(g, c, from, to, 0, -1, 1);
        } else {
            lemma_slide_facts(g, c, from, to, 1, -1, 1);
        }
    }
    // the grid stays well formed: every write installs a real piece or
    // clears a square
    assert(g2.len() == 64);
    assert forall|i: int| 0 <= i < 64 implies valid_content(#[trigger] g2[i]) by {
        assert(valid_content(g[i]));
    }
    // both kings stay where their caches say
    let ec = c.spec_inverted();
    let epos = if c == Color::W {
        b.bk_pos
    } else {
        b.wk_pos
    };
    let ei = idx(epos.0 as int, epos.1 as int);
    assert(king_at(g, epos, ec));
    assert(ei != ti) by {
        if ei == ti {
            crate::board::lemma_idx_inj(epos.0 as int, epos.1 as int, to.0 as int, to.1 as int);
            assert(holds_king(g, to));
        }
    }
    assert(ei != fi) by {
        if ei == fi {
            crate::board::lemma_idx_inj(epos.0 as int, epos.1 as int, from.0 as int, from.1 as int);
        }
    }
    if p.variant == PieceType::KING {
        if slide_king(g, c, from, to) {
            assert(!is_castle_move(g, from, to));
            assert(ti != fi);
            assert(g2[ti] == crate::board::placed(p));
            assert(g2[ei] == g[ei]);
        } else if castle_left_ok(b, from) && to.0 as int == from.0 as int - 2 && to.1 == from.1 {
            assert(is_castle_move(g, from, to));
            assert(!(to.0 > from.0));
            let ri = idx(to.0 as int + 1, to.1 as int);
            let ci = idx(0, to.1 as int);
            assert(sq_empty(g, to.0 as int + 1, to.1 as int));
            assert(sq_piece(g, 0, to.1 as int).variant == PieceType::ROOK);
            assert(ei != ri && ei != ci);
            assert(ti != ri && ti != ci && ti != fi);
            assert(g2[ti] == crate::board::placed(p));
            assert(g2[ei] == g[ei]);
        } else {
            assert(castle_right_ok(b, from) && to.0 as int == from.0 as int + 2 && to.1 == from.1);
            assert(is_castle_move(g, from, to));
            assert(to.0 > from.0);
            let ri = idx(to.0 as int - 1, to.1 as int);
            let ci = idx(7, to.1 as int);
            assert(sq_empty(g, to.0 as int - 1, to.1 as int));
            assert(sq_piece(g, 7, to.1 as int).variant == PieceType::ROOK);
            assert(ei != ri && ei != ci);
            assert(ti != ri && ti != ci && ti != fi);
            assert(g2[ti] == crate::board::placed(p));
            assert(g2[ei] == g[ei]);
        }
        if c == Color::W {
            assert(fm_wk(b, from, to) == to && fm_bk(b, from, to) == b.bk_pos);
            assert(king_at(g2, to, Color::W));
            assert(king_at(g2, b.bk_pos, Color::B));
        } else {
            assert(fm_bk(b, from, to) == to && fm_wk(b, from, to) == b.wk_pos);
            assert(king_at(g2, to, Color::B));
            assert(king_at(g2, b.wk_pos, Color::W));
        }
    } else {
        // neither cache moves, and no write touches either king square
        let mpos = if c == Color::W {
            b.wk_pos
        } else {
            b.bk_pos
        };
        let mi = idx(mpos.0 as int, mpos.1 as int);
        assert(king_at(g, mpos, c));
        assert(mi != ti) by {
            if mi == ti {
                crate::board::lemma_idx_inj(mpos.0 as int, mpos.1 as int, to.0 as int, to.1 as int);
            }
        }
        assert(mi != fi) by {
            if mi == fi {
                crate::board::lemma_idx_inj(
                    mpos.0 as int,
                    mpos.1 as int,
                    from.0 as int,
                    from.1 as int,
                );
            }
        }
        if p.variant == PieceType::PAWN && is_ep_move(g, from, to) {
            assert(ep_candidate(b, gm.turn_counter, from, to));
            let cap = idx(to.0 as int, from.1 as int);
            assert(sq_piece(g, to.0 as int, from.1 as int).variant == PieceType::PAWN);
            assert(mi != cap && ei != cap);
            assert(g2[mi] == g[mi] && g2[ei] == g[ei]);
        } else {
            assert(g2[mi] == g[mi] && g2[ei] == g[ei]);
        }
        assert(fm_wk(b, from, to) == b.wk_pos && fm_bk(b, from, to) == b.bk_pos);
        assert(king_at(g2, b.wk_pos, Color::W));
        assert(king_at(g2, b.bk_pos, Color::B));
    }
}

/// Applying a candidate move that neither captures a king nor installs
/// one keeps the board's kings unique: every king of the new grid stands
/// on its side's (updated) cached square.
#[verifier::rlimit(100)]
#[verifier::spinoff_prover]
pub proof fn lemma_move_preserves_king_uniqueness(
    gm: Game,
    from: (usize, usize),
    to: (usize, usize),
    pp: PieceType,
)
    requires
        gm.wf(),
        on_board(from.0 as int, from.1 as int),
        !sq_empty(gm.board.grid(), from.0 as int, from.1 as int),
        candidate_move(gm, from, to),
        fm_ok(gm.board.grid(), from, to, pp),
        !holds_king(gm.board.grid(), to),
        pp != PieceType::KING,
    ensures
        crate::board::kings_unique(
            fm_grid(gm.board.grid(), from, to, pp),
            fm_wk(gm.board, from, to),
            fm_bk(gm.board, from, to),
        ),
{
    let b = gm.board;
    let g = b.grid();
    let p = sq_piece(g, from.0 as int, from.1 as int);
    let c = p.color;
    let fi = idx(from.0 as int, from.1 as int);
    let ti = idx(to.0 as int, to.1 as int);
    let g2 = fm_grid(g, from, to, pp);
    let wk2 = fm_wk(b, from, to);
    let bk2 = fm_bk(b, from, to);
    lemma_candidate_callable(gm, from, to);
    // the moving piece itself: if it is a king, uniqueness pins its square
    // to the mover's cache
    if p.variant == PieceType::KING {
        assert(sq_piece(g, from.0 as int, from.1 as int).variant == PieceType::KING);
        if c == Color::W {
            assert(from.0 == b.wk_pos.0 && from.1 == b.wk_pos.1);
        } else {
            assert(from.0 == b.bk_pos.0 && from.1 == b.bk_pos.1);
        }
    }
    assert forall|f1: int, r1: int, f2: int, r2: int|
        on_board(f1, r1) && on_board(f2, r2) && idx(f1, r1) == idx(f2, r2) implies f1 == f2 && r1
        == r2 by {
        crate::board::lemma_idx_inj(f1, r1, f2, r2);
    }
    assert forall|f: int, r: int|
        on_board(f, r) && !sq_empty(g2, f, r) && (#[trigger] sq_piece(g2, f, r)).variant
            == PieceType::KING implies ((sq_piece(g2, f, r).color == Color::W && f == wk2.0 && r
        == wk2.1) || (sq_piece(g2, f, r).color == Color::B && f == bk2.0 && r == bk2.1)) by {
        let ii = idx(f, r);
        if p.variant == PieceType::KING {
            if is_castle_move(g, from, to) {
                if to.0 > from.0 {
                    let ri = idx(to.0 as int - 1, to.1 as int);
                    let ci = idx(7, to.1 as int);
                    if ii == ti {
                        assert(g2[ii] == crate::board::placed(p));
                        assert(f == to.0 && r == to.1);
                    } else if ii == ri || ii == ci || ii == fi {
                        assert(sq_piece(g2, f, r).variant != PieceType::KING || sq_empty(
                            g2,
                            f,
                            r,
                        ));
                    } else {
                        assert(g2[ii] == g[ii]);
                        assert(sq_piece(g, f, r).variant == PieceType::KING);
                        assert(sq_piece(g, f, r).color != c);
                    }
                } else {
                    let ri = idx(to.0 as int + 1, to.1 as int);
                    let ci = idx(0, to.1 as int);
                    if ii == ti {
                        assert(g2[ii] == crate::board::placed(p));
                        assert(f == to.0 && r == to.1);
                    } else if ii == ri || ii == ci || ii == fi {
                        assert(sq_piece(g2, f, r).variant != PieceType::KING || sq_empty(
                            g2,
                            f,
                            r,
                        ));
                    } else {
                        assert(g2[ii] == g[ii]);
                        assert(sq_piece(g, f, r).variant == PieceType::KING);
                        assert(sq_piece(g, f, r).color != c);
                    }
                }
            } else {
                if ii == ti {
                    assert(g2[ii] == crate::board::placed(p));
                    assert(f == to.0 && r == to.1);
                } else if ii == fi {
                    assert(sq_empty(g2, f, r));
                } else {
                    assert(g2[ii] == g[ii]);
                    assert(sq_piece(g, f, r).variant == PieceType::KING);
                    assert(sq_piece(g, f, r).color != c);
                }
            }
        } else {
            // the mover is no king and installs none: the king squares are
            // untouched and the caches do not move
            assert(wk2 == b.wk_pos && bk2 == b.bk_pos);
            if p.variant == PieceType::PAWN && is_ep_move(g, from, to) {
                let cap = idx(to.0 as int, from.1 as int);
                if ii == ti || ii == cap || ii == fi {
                    assert(sq_piece(g2, f, r).variant != PieceType::KING || sq_empty(g2, f, r));
                } else {
                    assert(g2[ii] == g[ii]);
                    assert(sq_piece(g, f, r).variant == PieceType::KING);
                }
            } else {
                if ii == ti || ii == fi {
                    assert(sq_piece(g2, f, r).variant != PieceType::KING || sq_empty(g2, f, r));
                } else {
                    assert(g2[ii] == g[ii]);
                    assert(sq_piece(g, f, r).variant == PieceType::KING);
                }
            }
        }
    }
}

/// Membership in the concatenation of two sequences.
proof fn lemma_concat_contains<T>(a: Seq<T>, b: Seq<T>, t: T)
    ensures
        (a + b).contains(t) <==> a.contains(t) || b.contains(t),
{
    if a.contains(t) {
        let i = choose|i: int| 0 <= i < a.len() && a[i] == t;
        assert((a + b)[i] == t);
    }
    if b.contains(t) {
        let i = choose|i: int| 0 <= i < b.len() && b[i] == t;
        assert((a + b)[a.len() + i] == t);
    }
    if (a + b).contains(t) {
        let i = choose|i: int| 0 <= i < (a + b).len() && (a + b)[i] == t;
        if i < a.len() {
            assert(a[i] == t);
        } else {
            assert(b[i - a.len()] == t);
        }
    }
}

/// Tests whether a square is among the listed destinations.
pub(crate) fn contains_pos(v: &Vec<(usize, usize)>, t: (usize, usize)) -> (r: bool)
    ensures
        r == v@.contains(t),
{
    let mut i: usize = 0;
    while i < v.len()
        invariant
            i <= v@.len(),
            forall|j: int| 0 <= j < i ==> v@[j] != t,
        decreases v@.len() - i,
    {
        if v[i].0 == t.0 && v[i].1 == t.1 {
            proof {
                assert(v@[i as int] == t);
            }
            return true;
        }
        i += 1;
    }
    proof {
        if v@.contains(t) {
            let j = choose|j: int| 0 <= j < v@.len() && v@[j] == t;
            assert(v@[j] == t);
        }
    }
    false
}

/// Membership in a sequence extended by one element.
proof fn lemma_push_contains<T>(s: Seq<T>, x: T, t: T)
    ensures
        s.push(x).contains(t) <==> (s.contains(t) || t == x),
{
    assert(s.push(x)[s.len() as int] == x);
    if s.contains(t) {
        let i = choose|i: int| 0 <= i < s.len() && s[i] == t;
        assert(s.push(x)[i] == t);
    }
    if s.push(x).contains(t) && t != x {
        let i = choose|i: int| 0 <= i < s.push(x).len() && s.push(x)[i] == t;
        assert(s[i] == t);
    }
}

/// A legal destination relates squares of the board.
pub proof fn lemma_legal_dest_on_board(gm: Game, a: (usize, usize), b: (usize, usize))
    requires
        gm.legal_dest(a, b),
    ensures
        on_board(a.0 as int, a.1 as int),
        on_board(b.0 as int, b.1 as int),
{
    reveal(Game::legal_dest);
}

/// Appends one candidate square.
fn push_move(moves: &mut Vec<(usize, usize)>, t: (usize, usize))
    ensures
        final(moves)@ == old(moves)@.push(t),
        final(moves)@.len() == old(moves)@.len() + 1,
        forall|u: (usize, usize)|
            #[trigger] final(moves)@.contains(u) <==> old(moves)@.contains(u) || u == t,
{
    let ghost m0 = moves@;
    moves.push(t);
    proof {
        assert forall|u: (usize, usize)| #[trigger] moves@.contains(u) <==> m0.contains(u) || u
            == t by {
            lemma_push_contains(m0, t, u);
        }
    }
}

impl Board {
    /// Appends the candidate squares of one direction vector.
    fn push_line(
        &self,
        c: Color,
        from: (usize, usize),
        dx: i16,
        dy: i16,
        length: usize,
        moves: &mut Vec<(usize, usize)>,
    )
        requires
            self.grid().len() == 64,
            on_board(from.0 as int, from.1 as int),
            -2 <= dx as int <= 2,
            -2 <= dy as int <= 2,
            length <= 10,
        ensures
            forall|t: (usize, usize)|
                #[trigger] final(moves)@.contains(t) <==> old(moves)@.contains(t) || slide_ok(
                    self.grid(),
                    c,
                    from,
                    t,
                    dx as int,
                    dy as int,
                    length as int,
                ),
    {
        let mut extra: Vec<(usize, usize)> = self.traverse_path(c, from, dx, dy, length);
        let ghost m0 = moves@;
        let ghost e0 = extra@;
        moves.append(&mut extra);
        proof {
            assert forall|t: (usize, usize)| #[trigger] moves@.contains(t) <==> m0.contains(t)
                || e0.contains(t) by {
                lemma_concat_contains(m0, e0, t);
            }
        }
    }
}

impl Game {
    /// Enumerates the legal destinations of the piece standing at `from`:
    /// the empty list when the square is empty or its piece is not the
    /// side to move's, and otherwise exactly the candidate moves of the
    /// piece's kind that leave the mover's own king unattacked.
    #[verifier::rlimit(100)]
    #[verifier::spinoff_prover]
    pub fn legal_destinations(&self, from: (usize, usize)) -> (r: Vec<(usize, usize)>)
        requires
            self.wf(),
            on_board(from.0 as int, from.1 as int),
        ensures
            forall|t: (usize, usize)| #[trigger] r@.contains(t) <==> self.legal_dest(from, t),
            forall|k1: int, k2: int| 0 <= k1 < k2 < r@.len() ==> r@[k1] != r@[k2],
    {
        proof {
            reveal(Game::legal_dest);
        }
        let ghost g = self.board.grid();
        if self.board.is_empty(from) {
            let r: Vec<(usize, usize)> = Vec::new();
            return r;
        }
        let p: Piece = self.board.get_piece(from);
        let white_turn: bool = self.turn_counter % 2 == 1;
        if (p.color == Color::W && !white_turn) || (p.color == Color::B && white_turn) {
            let r: Vec<(usize, usize)> = Vec::new();
            return r;
        }
        proof {
            assert(p.color == self.side_to_move());
        }
        let mut moves: Vec<(usize, usize)> = Vec::new();
        match p.variant {
            PieceType::BISHIOP => {
                self.board.push_line(p.color, from, -1, 1, 10, &mut moves);
                self.board.push_line(p.color, from, 1, 1, 10, &mut moves);
                self.board.push_line(p.color, from, -1, -1, 10, &mut moves);
                self.board.push_line(p.color, from, 1, -1, 10, &mut moves);
            },
            PieceType::ROOK => {
                self.board.push_line(p.color, from, 0, 1, 10, &mut moves);
                self.board.push_line(p.color, from, -1, 0, 10, &mut moves);
                self.board.push_line(p.color, from, 1, 0, 10, &mut moves);
                self.board.push_line(p.color, from, 0, -1, 10, &mut moves);
            },
            PieceType::QUEEN => {
                self.board.push_line(p.color, from, -1, 1, 10, &mut moves);
                self.board.push_line(p.color, from, 1, 1, 10, &mut moves);
                self.board.push_line(p.color, from, -1, -1, 10, &mut moves);
                self.board.push_line(p.color, from, 1, -1, 10, &mut moves);
                self.board.push_line(p.color, from, 0, 1, 10, &mut moves);
                self.board.push_line(p.color, from, -1, 0, 10, &mut moves);
                self.board.push_line(p.color, from, 1, 0, 10, &mut moves);
                self.board.push_line(p.color, from, 0, -1, 10, &mut moves);
            },
            PieceType::KNIGHT => {
                self.board.push_line(p.color, from, 1, 2, 1, &mut moves);
                self.board.push_line(p.color, from, 2, 1, 1, &mut moves);
                self.board.push_line(p.color, from, -1, 2, 1, &mut moves);
                self.board.push_line(p.color, from, 2, -1, 1, &mut moves);
                self.board.push_line(p.color, from, -1, -2, 1, &mut moves);
                self.board.push_line(p.color, from, -2, -1, 1, &mut moves);
                self.board.push_line(p.color, from, 1, -2, 1, &mut moves);
                self.board.push_line(p.color, from, -2, 1, 1, &mut moves);
            },
            PieceType::KING => {
                self.board.push_line(p.color, from, -1, 1, 1, &mut moves);
                self.board.push_line(p.color, from, 0, 1, 1, &mut moves);
                self.board.push_line(p.color, from, 1, 1, 1, &mut moves);
                self.board.push_line(p.color, from, -1, 0, 1, &mut moves);
                self.board.push_line(p.color, from, 1, 0, 1, &mut moves);
                self.board.push_line(p.color, from, -1, -1, 1, &mut moves);
                self.board.push_line(p.color, from, 0, -1, 1, &mut moves);
                self.board.push_line(p.color, from, 1, -1, 1, &mut moves);
                let castle_base: bool = !p.has_moved && !self.board.is_in_check(from);
                let mut can_left: bool = false;
                let mut can_right: bool = false;
                if castle_base {
                    if from.0 >= 3 {
                        if !self.board.is_empty((0, from.1)) {
                            let rook_l: Piece = self.board.get_piece((0, from.1));
                            if rook_l.variant == PieceType::ROOK && !rook_l.has_moved {
                                if self.board.is_empty((from.0 - 1, from.1)) && self.board.is_empty(
                                    (from.0 - 2, from.1),
                                ) && self.board.is_empty((from.0 - 3, from.1)) {
                                    let cross: (usize, usize) = (from.0 - 1, from.1);
                                    proof {
                                        assert(king_after(self.board, from, cross) == cross);
                                        assert(!is_castle_move(g, from, cross));
                                        assert(idx(cross.0 as int, cross.1 as int) != idx(
                                            from.0 as int,
                                            from.1 as int,
                                        )) by {
                                            if idx(cross.0 as int, cross.1 as int) == idx(
                                                from.0 as int,
                                                from.1 as int,
                                            ) {
                                                crate::board::lemma_idx_inj(
                                                    cross.0 as int,
                                                    cross.1 as int,
                                                    from.0 as int,
                                                    from.1 as int,
                                                );
                                            }
                                        }
                                        assert(!sq_empty(
                                            fm_grid(g, from, cross, PieceType::QUEEN),
                                            cross.0 as int,
                                            cross.1 as int,
                                        ));
                                    }
                                    if self.board.is_legal(
                                        from,
                                        cross,
                                        PieceType::QUEEN,
                                        self.turn_counter,
                                    ) {
                                        can_left = true;
                                    }
                                }
                            }
                        }
                    }
                    if from.0 <= 4 {
                        if !self.board.is_empty((7, from.1)) {
                            let rook_r: Piece = self.board.get_piece((7, from.1));
                            if rook_r.variant == PieceType::ROOK && !rook_r.has_moved {
                                if self.board.is_empty((from.0 + 1, from.1)) && self.board.is_empty(
                                    (from.0 + 2, from.1),
                                ) {
                                    let cross: (usize, usize) = (from.0 + 1, from.1);
                                    proof {
                                        assert(king_after(self.board, from, cross) == cross);
                                        assert(!is_castle_move(g, from, cross));
                                        assert(idx(cross.0 as int, cross.1 as int) != idx(
                                            from.0 as int,
                                            from.1 as int,
                                        )) by {
                                            if idx(cross.0 as int, cross.1 as int) == idx(
                                                from.0 as int,
                                                from.1 as int,
                                            ) {
                                                crate::board::lemma_idx_inj(
                                                    cross.0 as int,
                                                    cross.1 as int,
                                                    from.0 as int,
                                                    from.1 as int,
                                                );
                                            }
                                        }
                                        assert(!sq_empty(
                                            fm_grid(g, from, cross, PieceType::QUEEN),
                                            cross.0 as int,
                                            cross.1 as int,
                                        ));
                                    }
                                    if self.board.is_legal(
                                        from,
                                        cross,
                                        PieceType::QUEEN,
                                        self.turn_counter,
                                    ) {
                                        can_right = true;
                                    }
                                }
                            }
                        }
                    }
                }
                proof {
                    assert(can_left == castle_left_ok(self.board, from));
                    assert(can_right == castle_right_ok(self.board, from));
                }
                if can_left {
                    push_move(&mut moves, (from.0 - 2, from.1));
                }
                if can_right {
                    push_move(&mut moves, (from.0 + 2, from.1));
                }
            },
            PieceType::PAWN => {
                let d: i16 = if p.color == Color::W {
                    1
                } else {
                    -1
                };
                proof {
                    assert(d as int == pawn_dir(p.color));
                }
                let fy: i16 = from.1 as i16 + d;
                let mut single_ok: bool = false;
                if fy >= 0 && fy <= 7 {
                    if self.board.is_empty((from.0, fy as usize)) {
                        single_ok = true;
                        push_move(&mut moves, (from.0, fy as usize));
                    }
                }
                if single_ok && !p.has_moved {
                    let fy2: i16 = from.1 as i16 + 2 * d;
                    if fy2 >= 0 && fy2 <= 7 {
                        if self.board.is_empty((from.0, fy2 as usize)) {
                            push_move(&mut moves, (from.0, fy2 as usize));
                        }
                    }
                }
                let lx: i16 = from.0 as i16 - 1;
                let ly: i16 = from.1 as i16 + d;
                if lx >= 0 && ly >= 0 && lx <= 7 && ly <= 7 {
                    if !self.board.is_empty((lx as usize, ly as usize)) {
                        let q: Piece = self.board.get_piece((lx as usize, ly as usize));
                        if q.color == p.color.get_inverted() {
                            push_move(&mut moves, (lx as usize, ly as usize));
                        }
                    }
                }
                let rx: i16 = from.0 as i16 + 1;
                let ry: i16 = from.1 as i16 + d;
                if rx >= 0 && ry >= 0 && rx <= 7 && ry <= 7 {
                    if !self.board.is_empty((rx as usize, ry as usize)) {
                        let q: Piece = self.board.get_piece((rx as usize, ry as usize));
                        if q.color == p.color.get_inverted() {
                            push_move(&mut moves, (rx as usize, ry as usize));
                        }
                    }
                }
                let lp: (usize, usize, usize) = self.board.last_pass;
                let diff_ok: bool = if self.turn_counter > lp.2 {
                    self.turn_counter - lp.2 == 1
                } else {
                    lp.2 - self.turn_counter == 1
                };
                if diff_ok && lp.1 == from.1 && lp.0 < 8 {
                    let adjacent: bool = lp.0 + 1 == from.0 || from.0 + 1 == lp.0;
                    if adjacent {
                        let ty: i16 = from.1 as i16 + d;
                        if ty >= 0 && ty <= 7 {
                            if self.board.is_empty((lp.0, ty as usize)) {
                                if !self.board.is_empty((lp.0, lp.1)) {
                                    let q: Piece = self.board.get_piece((lp.0, lp.1));
                                    if q.variant == PieceType::PAWN && q.color
                                        == p.color.get_inverted() {
                                        push_move(&mut moves, (lp.0, ty as usize));
                                    }
                                }
                            }
                        }
                    }
                }
            },
            PieceType::NONE => {
                proof {
                    assert(valid_content(g[idx(from.0 as int, from.1 as int)]));
                    assert(false);
                }
            },
        }
        proof {
            assert forall|t: (usize, usize)| #[trigger] moves@.contains(t) <==> candidate_move(
                *self,
                from,
                t,
            ) by {}
        }
        let mut to_retain: Vec<(usize, usize)> = Vec::new();
        let mut n: usize = 0;
        while n < moves.len()
            invariant
                self.wf(),
                g == self.board.grid(),
                on_board(from.0 as int, from.1 as int),
                !sq_empty(g, from.0 as int, from.1 as int),
                sq_piece(g, from.0 as int, from.1 as int).color == self.side_to_move(),
                n <= moves@.len(),
                forall|t: (usize, usize)| #[trigger] moves@.contains(t) <==> candidate_move(
                    *self,
                    from,
                    t,
                ),
                forall|t: (usize, usize)|
                    #[trigger] to_retain@.contains(t) <==> exists|j: int|
                        0 <= j < n && moves@[j] == t && is_legal_spec(
                            self.board,
                            from,
                            t,
                            PieceType::QUEEN,
                        ),
                forall|k1: int, k2: int|
                    0 <= k1 < k2 < to_retain@.len() ==> to_retain@[k1] != to_retain@[k2],
            decreases moves@.len() - n,
        {
            let m: (usize, usize) = moves[n];
            proof {
                assert(moves@[n as int] == m);
                assert(moves@.contains(m));
                lemma_candidate_callable(*self, from, m);
            }
            if self.board.is_legal(from, m, PieceType::QUEEN, self.turn_counter)
                && !contains_pos(&to_retain, m) {
                let ghost kept0 = to_retain@;
                push_move(&mut to_retain, m);
                proof {
                    assert forall|k1: int, k2: int|
                        0 <= k1 < k2 < to_retain@.len() implies to_retain@[k1]
                        != to_retain@[k2] by {
                        if k2 == kept0.len() {
                            assert(to_retain@[k1] == kept0[k1]);
                            assert(!kept0.contains(m));
                        } else {
                            assert(to_retain@[k1] == kept0[k1] && to_retain@[k2] == kept0[k2]);
                        }
                    }
                }
                proof {
                    assert forall|t: (usize, usize)| #[trigger] to_retain@.contains(t)
                        <==> exists|j: int|
                        0 <= j < n + 1 && moves@[j] == t && is_legal_spec(
                            self.board,
                            from,
                            t,
                            PieceType::QUEEN,
                        ) by {
                        if to_retain@.contains(t) {
                            if t == m {
                                assert(moves@[n as int] == t);
                            } else {
                                let j = choose|j: int|
                                    0 <= j < n && moves@[j] == t && is_legal_spec(
                                        self.board,
                                        from,
                                        t,
                                        PieceType::QUEEN,
                                    );
                                assert(moves@[j] == t);
                            }
                        }
                        if exists|j: int|
                            0 <= j < n + 1 && moves@[j] == t && is_legal_spec(
                                self.board,
                                from,
                                t,
                                PieceType::QUEEN,
                            ) {
                            let j = choose|j: int|
                                0 <= j < n + 1 && moves@[j] == t && is_legal_spec(
                                    self.board,
                                    from,
                                    t,
                                    PieceType::QUEEN,
                                );
                            if j < n {
                            } else {
                                assert(t == m);
                            }
                        }
                    }
                }
            } else {
                proof {
                    assert forall|t: (usize, usize)| #[trigger] to_retain@.contains(t)
                        <==> exists|j: int|
                        0 <= j < n + 1 && moves@[j] == t && is_legal_spec(
                            self.board,
                            from,
                            t,
                            PieceType::QUEEN,
                        ) by {
                        if to_retain@.contains(t) {
                            let j = choose|j: int|
                                0 <= j < n && moves@[j] == t && is_legal_spec(
                                    self.board,
                                    from,
                                    t,
                                    PieceType::QUEEN,
                                );
                            assert(moves@[j] == t);
                        }
                        if exists|j: int|
                            0 <= j < n + 1 && moves@[j] == t && is_legal_spec(
                                self.board,
                                from,
                                t,
                                PieceType::QUEEN,
                            ) {
                            let j = choose|j: int|
                                0 <= j < n + 1 && moves@[j] == t && is_legal_spec(
                                    self.board,
                                    from,
                                    t,
                                    PieceType::QUEEN,
                                );
                            if j < n {
                            } else {
                                assert(t == m && is_legal_spec(
                                    self.board,
                                    from,
                                    t,
                                    PieceType::QUEEN,
                                ));
                            }
                        }
                    }
                }
            }
            n += 1;
        }
        proof {
            assert forall|t: (usize, usize)| #[trigger] to_retain@.contains(t) <==> self.legal_dest(
                from,
                t,
            ) by {
                if to_retain@.contains(t) {
                    let j = choose|j: int|
                        0 <= j < moves@.len() && moves@[j] == t && is_legal_spec(
                            self.board,
                            from,
                            t,
                            PieceType::QUEEN,
                        );
                    assert(moves@[j] == t);
                    assert(moves@.contains(t));
                    lemma_candidate_callable(*self, from, t);
                }
                if self.legal_dest(from, t) {
                    assert(moves@.contains(t));
                    let j = choose|j: int| 0 <= j < moves@.len() && moves@[j] == t;
                    assert(moves@[j] == t && is_legal_spec(self.board, from, t, PieceType::QUEEN));
                }
            }
        }
        to_retain
    }
}

impl Game {
    /// Enumerates the legal destinations of the square a coordinate text
    /// names; the empty list when the text is malformed.
    pub fn get_legal_moves(&self, from: &str) -> (r: Vec<(usize, usize)>)
        requires
            self.wf(),
        ensures
            decode_spec(from@) is Err ==> r@.len() == 0,
            decode_spec(from@) is Ok ==> forall|t: (usize, usize)|
                #[trigger] r@.contains(t) <==> self.legal_dest(decode_spec(from@)->Ok_0, t),
            forall|k1: int, k2: int| 0 <= k1 < k2 < r@.len() ==> r@[k1] != r@[k2],
    {
        match decode_notation(from) {
            Err(_) => Vec::new(),
            Ok(f) => self.legal_destinations(f),
        }
    }

    /// Enumerates every legal move of the side to move as coordinate
    /// pairs: every listed pair is a legal move, every legal move is
    /// listed, and no pair is listed twice.
    #[verifier::rlimit(100)]
    #[verifier::spinoff_prover]
    pub fn all_legal_pairs(&self) -> (r: Vec<((usize, usize), (usize, usize))>)
        requires
            self.wf(),
        ensures
            forall|k: int|
                0 <= k < r@.len() ==> self.legal_dest((#[trigger] r@[k]).0, r@[k].1),
            forall|a: (usize, usize), b: (usize, usize)|
                self.legal_dest(a, b) ==> #[trigger] r@.contains((a, b)),
            forall|k1: int, k2: int| 0 <= k1 < k2 < r@.len() ==> r@[k1] != r@[k2],
    {
        let mut pairs: Vec<((usize, usize), (usize, usize))> = Vec::new();
        let mut i: usize = 0;
        while i < 8
            invariant
                self.wf(),
                i <= 8,
                forall|k: int|
                    0 <= k < pairs@.len() ==> self.legal_dest((#[trigger] pairs@[k]).0, pairs@[k].1),
                forall|k: int| 0 <= k < pairs@.len() ==> (#[trigger] pairs@[k]).0.1 < i,
                forall|a: (usize, usize), b: (usize, usize)|
                    self.legal_dest(a, b) && a.1 < i ==> #[trigger] pairs@.contains((a, b)),
                forall|k1: int, k2: int| 0 <= k1 < k2 < pairs@.len() ==> pairs@[k1] != pairs@[k2],
            decreases 8 - i,
        {
            let mut j: usize = 0;
            while j < 8
                invariant
                    self.wf(),
                    i < 8,
                    j <= 8,
                    forall|k: int|
                        0 <= k < pairs@.len() ==> self.legal_dest(
                            (#[trigger] pairs@[k]).0,
                            pairs@[k].1,
                        ),
                    forall|k: int|
                        0 <= k < pairs@.len() ==> (#[trigger] pairs@[k]).0.1 < i || ((
                        pairs@[k]).0.1 == i && (pairs@[k]).0.0 < j),
                    forall|a: (usize, usize), b: (usize, usize)|
                        self.legal_dest(a, b) && (a.1 < i || (a.1 == i && a.0 < j))
                            ==> #[trigger] pairs@.contains((a, b)),
                    forall|k1: int, k2: int|
                        0 <= k1 < k2 < pairs@.len() ==> pairs@[k1] != pairs@[k2],
                decreases 8 - j,
            {
                let dests: Vec<(usize, usize)> = self.legal_destinations((j, i));
                let ghost base = pairs@.len() as int;
                let mut m: usize = 0;
                while m < dests.len()
                    invariant
                        self.wf(),
                        i < 8,
                        j < 8,
                        m <= dests@.len(),
                        forall|t: (usize, usize)|
                            #[trigger] dests@.contains(t) <==> self.legal_dest((j, i), t),
                        forall|x1: int, x2: int|
                            0 <= x1 < x2 < dests@.len() ==> dests@[x1] != dests@[x2],
                        0 <= base,
                        pairs@.len() == base + m,
                        forall|k: int|
                            0 <= k < pairs@.len() ==> self.legal_dest(
                                (#[trigger] pairs@[k]).0,
                                pairs@[k].1,
                            ),
                        forall|k: int|
                            0 <= k < base ==> (#[trigger] pairs@[k]).0.1 < i || ((pairs@[k]).0.1
                                == i && (pairs@[k]).0.0 < j),
                        forall|x: int|
                            0 <= x < m ==> pairs@[base + x] == (((j, i), #[trigger] dests@[x])),
                        forall|a: (usize, usize), b: (usize, usize)|
                            self.legal_dest(a, b) && (a.1 < i || (a.1 == i && a.0 < j))
                                ==> #[trigger] pairs@.contains((a, b)),
                        forall|k1: int, k2: int|
                            0 <= k1 < k2 < pairs@.len() ==> pairs@[k1] != pairs@[k2],
                    decreases dests@.len() - m,
                {
                    let b2: (usize, usize) = dests[m];
                    proof {
                        assert(dests@[m as int] == b2);
                        assert(dests@.contains(b2));
                    }
                    let ghost p0 = pairs@;
                    pairs.push(((j, i), b2));
                    proof {
                        assert(pairs@ == p0.push(((j, i), b2)));
                        assert forall|a: (usize, usize), bb: (usize, usize)|
                            self.legal_dest(a, bb) && (a.1 < i || (a.1 == i && a.0 < j))
                                implies #[trigger] pairs@.contains((a, bb)) by {
                            assert(p0.contains((a, bb)));
                            let x = choose|x: int| 0 <= x < p0.len() && p0[x] == ((a, bb));
                            assert(pairs@[x] == ((a, bb)));
                        }
                        assert forall|k1: int, k2: int|
                            0 <= k1 < k2 < pairs@.len() implies pairs@[k1] != pairs@[k2] by {
                            if k2 == p0.len() {
                                assert(pairs@[k1] == p0[k1]);
                                assert(pairs@[k2] == (((j, i), b2)));
                                if k1 < base {
                                    assert(p0[k1].0.1 < i || (p0[k1].0.1 == i && p0[k1].0.0 < j));
                                } else {
                                    assert(p0[k1] == (((j, i), dests@[k1 - base])));
                                    assert(dests@[k1 - base] != dests@[m as int]);
                                }
                            } else {
                                assert(pairs@[k1] == p0[k1] && pairs@[k2] == p0[k2]);
                            }
                        }
                    }
                    m += 1;
                }
                proof {
                    assert forall|a: (usize, usize), b2: (usize, usize)|
                        self.legal_dest(a, b2) && (a.1 < i || (a.1 == i && a.0 < j + 1))
                            implies #[trigger] pairs@.contains((a, b2)) by {
                        if a.1 < i || (a.1 == i && a.0 < j) {
                        } else {
                            assert(a.0 == j && a.1 == i);
                            assert(a == (j, i));
                            assert(dests@.contains(b2));
                            let x = choose|x: int| 0 <= x < dests@.len() && dests@[x] == b2;
                            assert(pairs@[base + x] == (((j, i), b2)));
                        }
                    }
                    assert forall|k: int| 0 <= k < pairs@.len() implies (#[trigger] pairs@[k]).0.1
                        < i || ((pairs@[k]).0.1 == i && (pairs@[k]).0.0 < j + 1) by {
                        if k >= base {
                            assert(pairs@[k] == (((j, i), dests@[k - base])));
                        }
                    }
                }
                j += 1;
            }
            proof {
                assert forall|a: (usize, usize), b2: (usize, usize)|
                    self.legal_dest(a, b2) && a.1 < i + 1 implies #[trigger] pairs@.contains(
                    (a, b2),
                ) by {
                    lemma_legal_dest_on_board(*self, a, b2);
                }
            }
            i += 1;
        }
        proof {
            assert forall|a: (usize, usize), b2: (usize, usize)|
                self.legal_dest(a, b2) implies #[trigger] pairs@.contains((a, b2)) by {
                lemma_legal_dest_on_board(*self, a, b2);
            }
        }
        pairs
    }

    /// Enumerates every legal move of the side to move, as pairs of
    /// origin and destination in coordinate notation: every entry encodes
    /// a legal move, every legal move appears, no entry appears twice,
    /// and the list is empty exactly when the side to move has no legal
    /// move.
    #[verifier::rlimit(100)]
    #[verifier::spinoff_prover]
    pub fn get_all_legal_moves(&self) -> (r: Vec<(String, String)>)
        requires
            self.wf(),
        ensures
            forall|k: int| 0 <= k < r@.len() ==> encoded_legal_move(*self, #[trigger] r@[k]),
            forall|a: (usize, usize), b: (usize, usize)|
                #![trigger enc(a), enc(b)]
                self.legal_dest(a, b) ==> (exists|k: int|
                    0 <= k < r@.len() && r@[k].0@ == enc(a) && r@[k].1@ == enc(b)),
            forall|k1: int, k2: int|
                0 <= k1 < k2 < r@.len() ==> !((#[trigger] r@[k1]).0@ == (#[trigger] r@[k2]).0@
                    && r@[k1].1@ == r@[k2].1@),
            (r@.len() == 0) == !self.has_any_legal_move(),
    {
        let pairs: Vec<((usize, usize), (usize, usize))> = self.all_legal_pairs();
        let mut all_moves: Vec<(String, String)> = Vec::new();
        let mut m: usize = 0;
        while m < pairs.len()
            invariant
                self.wf(),
                m <= pairs@.len(),
                all_moves@.len() == m,
                forall|k: int|
                    0 <= k < pairs@.len() ==> self.legal_dest((#[trigger] pairs@[k]).0, pairs@[k].1),
                forall|a: (usize, usize), b: (usize, usize)|
                    self.legal_dest(a, b) ==> #[trigger] pairs@.contains((a, b)),
                forall|k1: int, k2: int| 0 <= k1 < k2 < pairs@.len() ==> pairs@[k1] != pairs@[k2],
                forall|k: int|
                    0 <= k < m ==> (#[trigger] all_moves@[k]).0@ == enc(pairs@[k].0)
                        && all_moves@[k].1@ == enc(pairs@[k].1),
            decreases pairs@.len() - m,
        {
            let pr: ((usize, usize), (usize, usize)) = pairs[m];
            proof {
                assert(pairs@[m as int] == pr);
                assert(self.legal_dest(pr.0, pr.1));
                lemma_legal_dest_on_board(*self, pr.0, pr.1);
            }
            all_moves.push((encode_notation(pr.0), encode_notation(pr.1)));
            m += 1;
        }
        proof {
            assert forall|k: int| 0 <= k < all_moves@.len() implies encoded_legal_move(
                *self,
                #[trigger] all_moves@[k],
            ) by {
                reveal(encoded_legal_move);
                assert(self.legal_dest(pairs@[k].0, pairs@[k].1) && all_moves@[k].0@ == enc(
                    pairs@[k].0,
                ) && all_moves@[k].1@ == enc(pairs@[k].1));
            }
            assert forall|a: (usize, usize), b: (usize, usize)|
                self.legal_dest(a, b) implies (exists|k: int|
                0 <= k < all_moves@.len() && all_moves@[k].0@ == enc(a) && all_moves@[k].1@ == enc(
                    b,
                )) by {
                assert(pairs@.contains((a, b)));
                let k = choose|k: int| 0 <= k < pairs@.len() && pairs@[k] == ((a, b));
                assert(all_moves@[k].0@ == enc(a) && all_moves@[k].1@ == enc(b));
            }
            assert forall|k1: int, k2: int| 0 <= k1 < k2 < all_moves@.len() implies !((
            #[trigger] all_moves@[k1]).0@ == (#[trigger] all_moves@[k2]).0@ && all_moves@[k1].1@
                == all_moves@[k2].1@) by {
                if all_moves@[k1].0@ == all_moves@[k2].0@ && all_moves@[k1].1@
                    == all_moves@[k2].1@ {
                    lemma_legal_dest_on_board(*self, pairs@[k1].0, pairs@[k1].1);
                    lemma_legal_dest_on_board(*self, pairs@[k2].0, pairs@[k2].1);
                    crate::notation::lemma_enc_injective(pairs@[k1].0, pairs@[k2].0);
                    crate::notation::lemma_enc_injective(pairs@[k1].1, pairs@[k2].1);
                    assert(pairs@[k1] == pairs@[k2]);
                }
            }
            if all_moves@.len() == 0 {
                assert(!self.has_any_legal_move()) by {
                    if self.has_any_legal_move() {
                        let (a, b) = choose|a: (usize, usize), b: (usize, usize)|
                            self.legal_dest(a, b);
                        assert(self.legal_dest(a, b));
                        assert(pairs@.contains((a, b)));
                    }
                }
            } else {
                assert(self.legal_dest(pairs@[0].0, pairs@[0].1));
                assert(self.has_any_legal_move());
            }
        }
        all_moves
    }
}

/// The pair encodes some legal move of the game: its two texts are the
/// notations of an origin and a destination related by `legal_dest`.
/// Kept opaque so that callers carry the fact without unfolding it; a
/// proof that needs the definition reveals it.
#[verifier::opaque]
pub open spec fn encoded_legal_move(gm: Game, p: (String, String)) -> bool {
    exists|a: (usize, usize), b: (usize, usize)|
        gm.legal_dest(a, b) && p.0@ == enc(a) && p.1@ == enc(b)
}

} // verus!
