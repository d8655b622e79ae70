//! The mathematical model of attack: rays cast across the grid, the
//! geometric attack relation of each piece kind, and the proof that the
//! ray-casting check detector agrees with a brute-force enumeration of
//! attacking pieces.
use crate::board::on_board;
use crate::board::sq_empty;
use crate::board::sq_piece;
use crate::pieces::Color;
use crate::pieces::PieceType;
use crate::pieces::Position;
use vstd::prelude::*;

verus! {

/// The j-th step of the walk from (x, y) in direction (dx, dy).
pub open spec fn step_on(x: int, y: int, dx: int, dy: int, j: int) -> (int, int) {
    (x + j * dx, y + j * dy)
}

/// The first occupied square met when walking from (x, y) in steps of
/// (dx, dy), up to `len` squares, stopping at the board edge.
pub open spec fn ray_hit(g: Seq<Position>, x: int, y: int, dx: int, dy: int, len: nat) -> Option<
    (int, int),
>
    decreases len,
{
    if len == 0 {
        None
    } else {
        let nx = x + dx;
        let ny = y + dy;
        if !on_board(nx, ny) {
            None
        } else if !sq_empty(g, nx, ny) {
            Some((nx, ny))
        } else {
            ray_hit(g, nx, ny, dx, dy, (len - 1) as nat)
        }
    }
}

/// Every step of the walk before the k-th lands on the board, on an empty
/// square.
pub open spec fn ray_free_before(
    g: Seq<Position>,
    x: int,
    y: int,
    dx: int,
    dy: int,
    k: int,
) -> bool {
    forall|j: int|
        #![trigger step_on(x, y, dx, dy, j)]
        1 <= j < k ==> on_board(step_on(x, y, dx, dy, j).0, step_on(x, y, dx, dy, j).1) && sq_empty(
            g,
            step_on(x, y, dx, dy, j).0,
            step_on(x, y, dx, dy, j).1,
        )
}

/// The first occupied square of the ray, kept only when it holds a piece of
/// the side opposing `c`.
pub open spec fn ray_enemy_hit(
    g: Seq<Position>,
    c: Color,
    from: (usize, usize),
    dx: int,
    dy: int,
    len: nat,
) -> Option<(int, int)> {
    match ray_hit(g, from.0 as int, from.1 as int, dx, dy, len) {
        None => None,
        Some(h) => if sq_piece(g, h.0, h.1).color != c {
            Some(h)
        } else {
            None
        },
    }
}

/// Whether the ray from the king meets an enemy piece of kind `v1` or `v2`
/// first.
pub open spec fn ray_gives_check(
    g: Seq<Position>,
    c: Color,
    king: (usize, usize),
    dx: int,
    dy: int,
    len: nat,
    v1: PieceType,
    v2: PieceType,
) -> bool {
    match ray_enemy_hit(g, c, king, dx, dy, len) {
        None => false,
        Some(h) => sq_piece(g, h.0, h.1).variant == v1 || sq_piece(g, h.0, h.1).variant == v2,
    }
}

/// Whether an enemy pawn stands on the capture diagonal of the king, on the
/// given side (`side` is -1 or 1).
pub open spec fn pawn_threat(g: Seq<Position>, c: Color, king: (usize, usize), side: int) -> bool {
    let d: int = if c == Color::B {
        -1
    } else {
        1
    };
    let f = king.0 + side;
    let r = king.1 + d;
    &&& on_board(f, r)
    &&& !sq_empty(g, f, r)
    &&& sq_piece(g, f, r).color == c.spec_inverted()
    &&& sq_piece(g, f, r).variant == PieceType::PAWN
}

/// The check detector's algorithm: rays along the four diagonals and four
/// orthogonals looking for a bishop/rook/queen, single-step rays at the
/// knight and king offsets, and the two pawn capture squares. The color
/// defended is the color of the piece standing at `king`.
pub open spec fn in_check_alg(g: Seq<Position>, king: (usize, usize)) -> bool {
    let c = sq_piece(g, king.0 as int, king.1 as int).color;
    ||| ray_gives_check(g, c, king, -1, 1, 8, PieceType::BISHIOP, PieceType::QUEEN)
    ||| ray_gives_check(g, c, king, 1, 1, 8, PieceType::BISHIOP, PieceType::QUEEN)
    ||| ray_gives_check(g, c, king, -1, -1, 8, PieceType::BISHIOP, PieceType::QUEEN)
    ||| ray_gives_check(g, c, king, 1, -1, 8, PieceType::BISHIOP, PieceType::QUEEN)
    ||| ray_gives_check(g, c, king, 0, 1, 8, PieceType::ROOK, PieceType::QUEEN)
    ||| ray_gives_check(g, c, king, -1, 0, 8, PieceType::ROOK, PieceType::QUEEN)
    ||| ray_gives_check(g, c, king, 1, 0, 8, PieceType::ROOK, PieceType::QUEEN)
    ||| ray_gives_check(g, c, king, 0, -1, 8, PieceType::ROOK, PieceType::QUEEN)
    ||| ray_gives_check(g, c, king, 1, 2, 1, PieceType::KNIGHT, PieceType::KNIGHT)
    ||| ray_gives_check(g, c, king, 2, 1, 1, PieceType::KNIGHT, PieceType::KNIGHT)
    ||| ray_gives_check(g, c, king, -1, 2, 1, PieceType::KNIGHT, PieceType::KNIGHT)
    ||| ray_gives_check(g, c, king, 2, -1, 1, PieceType::KNIGHT, PieceType::KNIGHT)
    ||| ray_gives_check(g, c, king, -1, -2, 1, PieceType::KNIGHT, PieceType::KNIGHT)
    ||| ray_gives_check(g, c, king, -2, -1, 1, PieceType::KNIGHT, PieceType::KNIGHT)
    ||| ray_gives_check(g, c, king, 1, -2, 1, PieceType::KNIGHT, PieceType::KNIGHT)
    ||| ray_gives_check(g, c, king, -2, 1, 1, PieceType::KNIGHT, PieceType::KNIGHT)
    ||| ray_gives_check(g, c, king, -1, 1, 1, PieceType::KING, PieceType::KING)
    ||| ray_gives_check(g, c, king, 0, 1, 1, PieceType::KING, PieceType::KING)
    ||| ray_gives_check(g, c, king, 1, 1, 1, PieceType::KING, PieceType::KING)
    ||| ray_gives_check(g, c, king, -1, 0, 1, PieceType::KING, PieceType::KING)
    ||| ray_gives_check(g, c, king, 1, 0, 1, PieceType::KING, PieceType::KING)
    ||| ray_gives_check(g, c, king, -1, -1, 1, PieceType::KING, PieceType::KING)
    ||| ray_gives_check(g, c, king, 0, -1, 1, PieceType::KING, PieceType::KING)
    ||| ray_gives_check(g, c, king, 1, -1, 1, PieceType::KING, PieceType::KING)
    ||| pawn_threat(g, c, king, -1)
    ||| pawn_threat(g, c, king, 1)
}

/// The forward direction of a side's pawns.
pub open spec fn pawn_dir(c: Color) -> int {
    if c == Color::W {
        1
    } else {
        -1
    }
}

/// All squares strictly between (x, y) and its k-th step in direction
/// (dx, dy) are empty.
pub open spec fn clear_path(g: Seq<Position>, x: int, y: int, dx: int, dy: int, k: int) -> bool {
    forall|j: int|
        #![trigger step_on(x, y, dx, dy, j)]
        1 <= j < k ==> sq_empty(g, step_on(x, y, dx, dy, j).0, step_on(x, y, dx, dy, j).1)
}

/// `to` lies on the (dx, dy) line from `from` with nothing between.
pub open spec fn line_attacks(
    g: Seq<Position>,
    from: (int, int),
    to: (int, int),
    dx: int,
    dy: int,
) -> bool {
    exists|k: int|
        1 <= k <= 7 && to.0 == from.0 + k * dx && to.1 == from.1 + k * dy && clear_path(
            g,
            from.0,
            from.1,
            dx,
            dy,
            k,
        )
}

/// A bishop's attack: a clear diagonal line.
pub open spec fn diag_attacks(g: Seq<Position>, from: (int, int), to: (int, int)) -> bool {
    ||| line_attacks(g, from, to, -1, 1)
    ||| line_attacks(g, from, to, 1, 1)
    ||| line_attacks(g, from, to, -1, -1)
    ||| line_attacks(g, from, to, 1, -1)
}

/// A rook's attack: a clear orthogonal line.
pub open spec fn ortho_attacks(g: Seq<Position>, from: (int, int), to: (int, int)) -> bool {
    ||| line_attacks(g, from, to, 0, 1)
    ||| line_attacks(g, from, to, -1, 0)
    ||| line_attacks(g, from, to, 1, 0)
    ||| line_attacks(g, from, to, 0, -1)
}

/// A knight's jump.
pub open spec fn knight_jump(from: (int, int), to: (int, int)) -> bool {
    ||| to == (from.0 + 1, from.1 + 2)
    ||| to == (from.0 + 2, from.1 + 1)
    ||| to == (from.0 - 1, from.1 + 2)
    ||| to == (from.0 + 2, from.1 - 1)
    ||| to == (from.0 - 1, from.1 - 2)
    ||| to == (from.0 - 2, from.1 - 1)
    ||| to == (from.0 + 1, from.1 - 2)
    ||| to == (from.0 - 2, from.1 + 1)
}

/// Adjacency of two squares (a king's reach).
pub open spec fn king_adjacent(from: (int, int), to: (int, int)) -> bool {
    ||| to == (from.0 - 1, from.1 + 1)
    ||| to == (from.0, from.1 + 1)
    ||| to == (from.0 + 1, from.1 + 1)
    ||| to == (from.0 - 1, from.1)
    ||| to == (from.0 + 1, from.1)
    ||| to == (from.0 - 1, from.1 - 1)
    ||| to == (from.0, from.1 - 1)
    ||| to == (from.0 + 1, from.1 - 1)
}

/// The piece standing at `from` attacks the square `to`: the geometric
/// relation of its kind, with clear intermediate squares for the sliding
/// kinds. A pawn attacks its two forward diagonals only.
pub open spec fn piece_attacks(g: Seq<Position>, from: (int, int), to: (int, int)) -> bool {
    &&& on_board(from.0, from.1)
    &&& !sq_empty(g, from.0, from.1)
    &&& match sq_piece(g, from.0, from.1).variant {
        PieceType::PAWN => to.1 == from.1 + pawn_dir(sq_piece(g, from.0, from.1).color) && (to.0
            == from.0 + 1 || to.0 == from.0 - 1),
        PieceType::KNIGHT => knight_jump(from, to),
        PieceType::KING => king_adjacent(from, to),
        PieceType::BISHIOP => diag_attacks(g, from, to),
        PieceType::ROOK => ortho_attacks(g, from, to),
        PieceType::QUEEN => diag_attacks(g, from, to) || ortho_attacks(g, from, to),
        PieceType::NONE => false,
    }
}

/// Brute-force enumeration: some piece of side `by` attacks `target`.
pub open spec fn square_attacked(g: Seq<Position>, target: (usize, usize), by: Color) -> bool {
    exists|f: int, r: int|
        on_board(f, r) && !sq_empty(g, f, r) && sq_piece(g, f, r).color == by && piece_attacks(
            g,
            (f, r),
            (target.0 as int, target.1 as int),
        )
}

/// The squares collected by a walk from (x, y) in direction (dx, dy):
/// each empty square in step order, and then the first occupied square
/// if it holds an enemy of `c`, where the walk ends.
pub open spec fn ray_moves(
    g: Seq<Position>,
    c: Color,
    x: int,
    y: int,
    dx: int,
    dy: int,
    len: nat,
) -> Seq<(usize, usize)>
    decreases len,
{
    if len == 0 {
        Seq::empty()
    } else {
        let nx = x + dx;
        let ny = y + dy;
        if !on_board(nx, ny) {
            Seq::empty()
        } else if !sq_empty(g, nx, ny) {
            if sq_piece(g, nx, ny).color != c {
                seq![(nx as usize, ny as usize)]
            } else {
                Seq::empty()
            }
        } else {
            seq![(nx as usize, ny as usize)] + ray_moves(g, c, nx, ny, dx, dy, (len - 1) as nat)
        }
    }
}

/// One step of a walking move: `to` is the k-th step from `from` in
/// direction (dx, dy), lies on the board, every earlier step is on board
/// and empty, and `to` itself is empty or holds an enemy of `c`.
pub open spec fn slide_hit(
    g: Seq<Position>,
    c: Color,
    from: (usize, usize),
    to: (usize, usize),
    dx: int,
    dy: int,
    k: int,
) -> bool {
    &&& (to.0 as int, to.1 as int) == step_on(from.0 as int, from.1 as int, dx, dy, k)
    &&& on_board(to.0 as int, to.1 as int)
    &&& ray_free_before(g, from.0 as int, from.1 as int, dx, dy, k)
    &&& (sq_empty(g, to.0 as int, to.1 as int) || sq_piece(g, to.0 as int, to.1 as int).color != c)
}

/// `to` can be reached from `from` by a walk of at most `len` steps in
/// direction (dx, dy): the candidate squares of a sliding or stepping
/// piece along one of its direction vectors.
pub open spec fn slide_ok(
    g: Seq<Position>,
    c: Color,
    from: (usize, usize),
    to: (usize, usize),
    dx: int,
    dy: int,
    len: int,
) -> bool {
    exists|k: int| 1 <= k <= len && slide_hit(g, c, from, to, dx, dy, k)
}

/// A hit of `ray_hit` is an occupied on-board square at some step k of the
/// ray, with every earlier step on board and empty.
pub proof fn lemma_ray_hit_props(g: Seq<Position>, x: int, y: int, dx: int, dy: int, len: nat)
    requires
        ray_hit(g, x, y, dx, dy, len) is Some,
    ensures
        ({
            let h = ray_hit(g, x, y, dx, dy, len)->Some_0;
            exists|k: int|
                1 <= k <= len && h == #[trigger] step_on(x, y, dx, dy, k) && on_board(h.0, h.1)
                    && !sq_empty(g, h.0, h.1) && ray_free_before(g, x, y, dx, dy, k)
        }),
    decreases len,
{
    let h = ray_hit(g, x, y, dx, dy, len)->Some_0;
    let nx = x + dx;
    let ny = y + dy;
    if !sq_empty(g, nx, ny) {
        assert(h == step_on(x, y, dx, dy, 1));
        assert(ray_free_before(g, x, y, dx, dy, 1));
    } else {
        lemma_ray_hit_props(g, nx, ny, dx, dy, (len - 1) as nat);
        let k0 = choose|k0: int|
            1 <= k0 <= len - 1 && h == #[trigger] step_on(nx, ny, dx, dy, k0) && on_board(h.0, h.1)
                && !sq_empty(g, h.0, h.1) && ray_free_before(g, nx, ny, dx, dy, k0);
        let k = k0 + 1;
        assert(step_on(nx, ny, dx, dy, k0) == step_on(x, y, dx, dy, k)) by (nonlinear_arith)
            requires
                nx == x + dx,
                ny == y + dy,
                k == k0 + 1,
        ;
        assert forall|j: int| 1 <= j < k implies on_board(
            #[trigger] step_on(x, y, dx, dy, j).0,
            step_on(x, y, dx, dy, j).1,
        ) && sq_empty(g, step_on(x, y, dx, dy, j).0, step_on(x, y, dx, dy, j).1) by {
            if j == 1 {
                assert(step_on(x, y, dx, dy, 1) == (nx, ny));
            } else {
                let j0 = j - 1;
                assert(1 <= j0 < k0);
                assert(step_on(nx, ny, dx, dy, j0) == step_on(x, y, dx, dy, j)) by (nonlinear_arith)
                    requires
                        nx == x + dx,
                        ny == y + dy,
                        j == j0 + 1,
                ;
            }
        }
        assert(1 <= k <= len && h == step_on(x, y, dx, dy, k));
    }
}

/// If the k-th step of the ray is an occupied on-board square and every
/// earlier step is on board and empty, the ray hits exactly there.
pub proof fn lemma_ray_hit_complete(
    g: Seq<Position>,
    x: int,
    y: int,
    dx: int,
    dy: int,
    len: nat,
    k: int,
)
    requires
        1 <= k <= len,
        on_board(step_on(x, y, dx, dy, k).0, step_on(x, y, dx, dy, k).1),
        !sq_empty(g, step_on(x, y, dx, dy, k).0, step_on(x, y, dx, dy, k).1),
        ray_free_before(g, x, y, dx, dy, k),
    ensures
        ray_hit(g, x, y, dx, dy, len) == Some(step_on(x, y, dx, dy, k)),
    decreases len,
{
    let nx = x + dx;
    let ny = y + dy;
    assert(step_on(x, y, dx, dy, 1) == (nx, ny));
    if k == 1 {
    } else {
        assert(on_board(nx, ny) && sq_empty(g, nx, ny));
        let k0 = k - 1;
        assert(step_on(nx, ny, dx, dy, k0) == step_on(x, y, dx, dy, k)) by (nonlinear_arith)
            requires
                nx == x + dx,
                ny == y + dy,
                k == k0 + 1,
        ;
        assert forall|j0: int| 1 <= j0 < k0 implies on_board(
            #[trigger] step_on(nx, ny, dx, dy, j0).0,
            step_on(nx, ny, dx, dy, j0).1,
        ) && sq_empty(g, step_on(nx, ny, dx, dy, j0).0, step_on(nx, ny, dx, dy, j0).1) by {
            let j = j0 + 1;
            assert(1 <= j < k);
            assert(step_on(nx, ny, dx, dy, j0) == step_on(x, y, dx, dy, j)) by (nonlinear_arith)
                requires
                    nx == x + dx,
                    ny == y + dy,
                    j == j0 + 1,
            ;
            assert(on_board(step_on(x, y, dx, dy, j).0, step_on(x, y, dx, dy, j).1) && sq_empty(
                g,
                step_on(x, y, dx, dy, j).0,
                step_on(x, y, dx, dy, j).1,
            ));
        }
        lemma_ray_hit_complete(g, nx, ny, dx, dy, (len - 1) as nat, k0);
    }
}

/// The first occupied square of a unit-direction ray from the king
/// attacks the king along the opposite direction: the squares between are
/// exactly the (empty) squares the ray crossed.
proof fn lemma_enemy_hit_line(g: Seq<Position>, king: (usize, usize), dx: int, dy: int)
    requires
        on_board(king.0 as int, king.1 as int),
        -1 <= dx <= 1,
        -1 <= dy <= 1,
        !(dx == 0 && dy == 0),
        ray_hit(g, king.0 as int, king.1 as int, dx, dy, 8) is Some,
    ensures
        ({
            let h = ray_hit(g, king.0 as int, king.1 as int, dx, dy, 8)->Some_0;
            &&& on_board(h.0, h.1)
            &&& !sq_empty(g, h.0, h.1)
            &&& line_attacks(g, h, (king.0 as int, king.1 as int), -dx, -dy)
        }),
{
    let x = king.0 as int;
    let y = king.1 as int;
    lemma_ray_hit_props(g, x, y, dx, dy, 8);
    let h = ray_hit(g, x, y, dx, dy, 8)->Some_0;
    let k = choose|k: int|
        1 <= k <= 8 && h == #[trigger] step_on(x, y, dx, dy, k) && on_board(h.0, h.1) && !sq_empty(
            g,
            h.0,
            h.1,
        ) && ray_free_before(g, x, y, dx, dy, k);
    assert(k <= 7) by (nonlinear_arith)
        requires
            h == (x + k * dx, y + k * dy),
            0 <= x < 8,
            0 <= y < 8,
            0 <= h.0 < 8,
            0 <= h.1 < 8,
            -1 <= dx <= 1,
            -1 <= dy <= 1,
            !(dx == 0 && dy == 0),
            k >= 1,
    ;
    assert(x == h.0 + k * (-dx) && y == h.1 + k * (-dy)) by (nonlinear_arith)
        requires
            h == (x + k * dx, y + k * dy),
    ;
    assert forall|j: int| 1 <= j < k implies sq_empty(
        g,
        #[trigger] step_on(h.0, h.1, -dx, -dy, j).0,
        step_on(h.0, h.1, -dx, -dy, j).1,
    ) by {
        let i = k - j;
        assert(step_on(h.0, h.1, -dx, -dy, j) == step_on(x, y, dx, dy, i)) by (nonlinear_arith)
            requires
                h == (x + k * dx, y + k * dy),
                i == k - j,
        ;
        assert(sq_empty(g, step_on(x, y, dx, dy, i).0, step_on(x, y, dx, dy, i).1));
    }
    assert(clear_path(g, h.0, h.1, -dx, -dy, k));
}

/// A clear attacking line onto the king means the ray cast back from the
/// king in the opposite direction meets the attacker first.
proof fn lemma_line_to_ray(g: Seq<Position>, king: (usize, usize), a: (int, int), dx: int, dy: int)
    requires
        on_board(king.0 as int, king.1 as int),
        on_board(a.0, a.1),
        !sq_empty(g, a.0, a.1),
        -1 <= dx <= 1,
        -1 <= dy <= 1,
        !(dx == 0 && dy == 0),
        line_attacks(g, a, (king.0 as int, king.1 as int), dx, dy),
    ensures
        ray_hit(g, king.0 as int, king.1 as int, -dx, -dy, 8) == Some(a),
{
    let x = king.0 as int;
    let y = king.1 as int;
    let k = choose|k: int|
        1 <= k <= 7 && x == a.0 + k * dx && y == a.1 + k * dy && clear_path(g, a.0, a.1, dx, dy, k);
    assert(step_on(x, y, -dx, -dy, k) == a) by (nonlinear_arith)
        requires
            x == a.0 + k * dx,
            y == a.1 + k * dy,
    ;
    assert forall|j: int| 1 <= j < k implies on_board(
        #[trigger] step_on(x, y, -dx, -dy, j).0,
        step_on(x, y, -dx, -dy, j).1,
    ) && sq_empty(g, step_on(x, y, -dx, -dy, j).0, step_on(x, y, -dx, -dy, j).1) by {
        let i = k - j;
        assert(step_on(x, y, -dx, -dy, j) == step_on(a.0, a.1, dx, dy, i)) by (nonlinear_arith)
            requires
                x == a.0 + k * dx,
                y == a.1 + k * dy,
                i == k - j,
        ;
        assert(0 <= a.0 + i * dx < 8 && 0 <= a.1 + i * dy < 8) by (nonlinear_arith)
            requires
                0 <= a.0 < 8,
                0 <= a.1 < 8,
                0 <= x < 8,
                0 <= y < 8,
                x == a.0 + k * dx,
                y == a.1 + k * dy,
                -1 <= dx <= 1,
                -1 <= dy <= 1,
                1 <= i < k,
        ;
        assert(sq_empty(g, step_on(a.0, a.1, dx, dy, i).0, step_on(a.0, a.1, dx, dy, i).1));
    }
    assert(ray_free_before(g, x, y, -dx, -dy, k));
    lemma_ray_hit_complete(g, x, y, -dx, -dy, 8, k);
}

/// One slider ray that reports check exhibits an attacker: the bishop,
/// rook or queen it hit attacks the king along the opposite direction.
proof fn lemma_slider_hit_attacked(
    g: Seq<Position>,
    king: (usize, usize),
    dx: int,
    dy: int,
    diag: bool,
)
    requires
        on_board(king.0 as int, king.1 as int),
        !sq_empty(g, king.0 as int, king.1 as int),
        -1 <= dx <= 1,
        -1 <= dy <= 1,
        !(dx == 0 && dy == 0),
        diag == (dx != 0 && dy != 0),
        ray_gives_check(
            g,
            sq_piece(g, king.0 as int, king.1 as int).color,
            king,
            dx,
            dy,
            8,
            if diag {
                PieceType::BISHIOP
            } else {
                PieceType::ROOK
            },
            PieceType::QUEEN,
        ),
    ensures
        square_attacked(g, king, sq_piece(g, king.0 as int, king.1 as int).color.spec_inverted()),
{
    let c = sq_piece(g, king.0 as int, king.1 as int).color;
    let e = c.spec_inverted();
    lemma_enemy_hit_line(g, king, dx, dy);
    let h = ray_hit(g, king.0 as int, king.1 as int, dx, dy, 8)->Some_0;
    assert(sq_piece(g, h.0, h.1).color != c);
    assert(sq_piece(g, h.0, h.1).color == e) by {
        if c == Color::W {
        } else {
        }
    }
    assert(line_attacks(g, h, (king.0 as int, king.1 as int), -dx, -dy));
    assert(piece_attacks(g, h, (king.0 as int, king.1 as int)));
    assert(on_board(h.0, h.1) && !sq_empty(g, h.0, h.1) && sq_piece(g, h.0, h.1).color == e
        && piece_attacks(g, (h.0, h.1), (king.0 as int, king.1 as int)));
    assert(square_attacked(g, king, e));
}

/// One single-step ray that reports check exhibits an attacker: the
/// knight or king it hit stands one offset away and attacks back.
proof fn lemma_step_hit_attacked(g: Seq<Position>, king: (usize, usize), dx: int, dy: int)
    requires
        on_board(king.0 as int, king.1 as int),
        !sq_empty(g, king.0 as int, king.1 as int),
        -2 <= dx <= 2,
        -2 <= dy <= 2,
        !(dx == 0 && dy == 0),
        (ray_gives_check(
            g,
            sq_piece(g, king.0 as int, king.1 as int).color,
            king,
            dx,
            dy,
            1,
            PieceType::KNIGHT,
            PieceType::KNIGHT,
        ) && knight_jump(
            (king.0 as int + dx, king.1 as int + dy),
            (king.0 as int, king.1 as int),
        )) || (ray_gives_check(
            g,
            sq_piece(g, king.0 as int, king.1 as int).color,
            king,
            dx,
            dy,
            1,
            PieceType::KING,
            PieceType::KING,
        ) && king_adjacent(
            (king.0 as int + dx, king.1 as int + dy),
            (king.0 as int, king.1 as int),
        )),
    ensures
        square_attacked(g, king, sq_piece(g, king.0 as int, king.1 as int).color.spec_inverted()),
{
    let x = king.0 as int;
    let y = king.1 as int;
    let c = sq_piece(g, x, y).color;
    let e = c.spec_inverted();
    lemma_ray_hit_props(g, x, y, dx, dy, 1);
    let h = ray_hit(g, x, y, dx, dy, 1)->Some_0;
    let k = choose|k: int|
        1 <= k <= 1 && h == #[trigger] step_on(x, y, dx, dy, k) && on_board(h.0, h.1) && !sq_empty(
            g,
            h.0,
            h.1,
        ) && ray_free_before(g, x, y, dx, dy, k);
    assert(k == 1);
    assert(1 * dx == dx && 1 * dy == dy);
    assert(h == (x + dx, y + dy));
    assert(sq_piece(g, h.0, h.1).color == e) by {
        if c == Color::W {
        } else {
        }
    }
    assert(piece_attacks(g, h, (x, y)));
    assert(on_board(h.0, h.1) && !sq_empty(g, h.0, h.1) && sq_piece(g, h.0, h.1).color == e
        && piece_attacks(g, (h.0, h.1), (x, y)));
    assert(square_attacked(g, king, e));
}

/// If the ray-casting detector reports check, some enemy piece attacks
/// the king.
#[verifier::rlimit(100)]
#[verifier::spinoff_prover]
proof fn lemma_alg_implies_attacked(g: Seq<Position>, king: (usize, usize))
    requires
        on_board(king.0 as int, king.1 as int),
        !sq_empty(g, king.0 as int, king.1 as int),
        in_check_alg(g, king),
    ensures
        square_attacked(g, king, sq_piece(g, king.0 as int, king.1 as int).color.spec_inverted()),
{
    let x = king.0 as int;
    let y = king.1 as int;
    let c = sq_piece(g, x, y).color;
    let e = c.spec_inverted();
    if ray_gives_check(g, c, king, -1, 1, 8, PieceType::BISHIOP, PieceType::QUEEN) {
        lemma_slider_hit_attacked(g, king, -1, 1, true);
    } else if ray_gives_check(g, c, king, 1, 1, 8, PieceType::BISHIOP, PieceType::QUEEN) {
        lemma_slider_hit_attacked(g, king, 1, 1, true);
    } else if ray_gives_check(g, c, king, -1, -1, 8, PieceType::BISHIOP, PieceType::QUEEN) {
        lemma_slider_hit_attacked(g, king, -1, -1, true);
    } else if ray_gives_check(g, c, king, 1, -1, 8, PieceType::BISHIOP, PieceType::QUEEN) {
        lemma_slider_hit_attacked(g, king, 1, -1, true);
    } else if ray_gives_check(g, c, king, 0, 1, 8, PieceType::ROOK, PieceType::QUEEN) {
        lemma_slider_hit_attacked(g, king, 0, 1, false);
    } else if ray_gives_check(g, c, king, -1, 0, 8, PieceType::ROOK, PieceType::QUEEN) {
        lemma_slider_hit_attacked(g, king, -1, 0, false);
    } else if ray_gives_check(g, c, king, 1, 0, 8, PieceType::ROOK, PieceType::QUEEN) {
        lemma_slider_hit_attacked(g, king, 1, 0, false);
    } else if ray_gives_check(g, c, king, 0, -1, 8, PieceType::ROOK, PieceType::QUEEN) {
        lemma_slider_hit_attacked(g, king, 0, -1, false);
    } else if ray_gives_check(g, c, king, 1, 2, 1, PieceType::KNIGHT, PieceType::KNIGHT) {
        lemma_step_hit_attacked(g, king, 1, 2);
    } else if ray_gives_check(g, c, king, 2, 1, 1, PieceType::KNIGHT, PieceType::KNIGHT) {
        lemma_step_hit_attacked(g, king, 2, 1);
    } else if ray_gives_check(g, c, king, -1, 2, 1, PieceType::KNIGHT, PieceType::KNIGHT) {
        lemma_step_hit_attacked(g, king, -1, 2);
    } else if ray_gives_check(g, c, king, 2, -1, 1, PieceType::KNIGHT, PieceType::KNIGHT) {
        lemma_step_hit_attacked(g, king, 2, -1);
    } else if ray_gives_check(g, c, king, -1, -2, 1, PieceType::KNIGHT, PieceType::KNIGHT) {
        lemma_step_hit_attacked(g, king, -1, -2);
    } else if ray_gives_check(g, c, king, -2, -1, 1, PieceType::KNIGHT, PieceType::KNIGHT) {
        lemma_step_hit_attacked(g, king, -2, -1);
    } else if ray_gives_check(g, c, king, 1, -2, 1, PieceType::KNIGHT, PieceType::KNIGHT) {
        lemma_step_hit_attacked(g, king, 1, -2);
    } else if ray_gives_check(g, c, king, -2, 1, 1, PieceType::KNIGHT, PieceType::KNIGHT) {
        lemma_step_hit_attacked(g, king, -2, 1);
    } else if ray_gives_check(g, c, king, -1, 1, 1, PieceType::KING, PieceType::KING) {
        lemma_step_hit_attacked(g, king, -1, 1);
    } else if ray_gives_check(g, c, king, 0, 1, 1, PieceType::KING, PieceType::KING) {
        lemma_step_hit_attacked(g, king, 0, 1);
    } else if ray_gives_check(g, c, king, 1, 1, 1, PieceType::KING, PieceType::KING) {
        lemma_step_hit_attacked(g, king, 1, 1);
    } else if ray_gives_check(g, c, king, -1, 0, 1, PieceType::KING, PieceType::KING) {
        lemma_step_hit_attacked(g, king, -1, 0);
    } else if ray_gives_check(g, c, king, 1, 0, 1, PieceType::KING, PieceType::KING) {
        lemma_step_hit_attacked(g, king, 1, 0);
    } else if ray_gives_check(g, c, king, -1, -1, 1, PieceType::KING, PieceType::KING) {
        lemma_step_hit_attacked(g, king, -1, -1);
    } else if ray_gives_check(g, c, king, 0, -1, 1, PieceType::KING, PieceType::KING) {
        lemma_step_hit_attacked(g, king, 0, -1);
    } else if ray_gives_check(g, c, king, 1, -1, 1, PieceType::KING, PieceType::KING) {
        lemma_step_hit_attacked(g, king, 1, -1);
    } else if pawn_threat(g, c, king, -1) {
        let d: int = if c == Color::B {
            -1
        } else {
            1
        };
        let a = (x - 1, y + d);
        assert(sq_piece(g, a.0, a.1).variant == PieceType::PAWN);
        assert(y == a.1 + pawn_dir(e)) by {
            if c == Color::W {
            } else {
            }
        }
        assert(piece_attacks(g, a, (x, y)));
        assert(on_board(a.0, a.1) && !sq_empty(g, a.0, a.1) && sq_piece(g, a.0, a.1).color == e
            && piece_attacks(g, (a.0, a.1), (x, y)));
        assert(square_attacked(g, king, e));
    } else {
        assert(pawn_threat(g, c, king, 1));
        let d: int = if c == Color::B {
            -1
        } else {
            1
        };
        let a = (x + 1, y + d);
        assert(sq_piece(g, a.0, a.1).variant == PieceType::PAWN);
        assert(y == a.1 + pawn_dir(e)) by {
            if c == Color::W {
            } else {
            }
        }
        assert(piece_attacks(g, a, (x, y)));
        assert(on_board(a.0, a.1) && !sq_empty(g, a.0, a.1) && sq_piece(g, a.0, a.1).color == e
            && piece_attacks(g, (a.0, a.1), (x, y)));
        assert(square_attacked(g, king, e));
    }
}

/// A single-offset attacker is found by the single-step ray towards it.
proof fn lemma_step_attacker_found(
    g: Seq<Position>,
    king: (usize, usize),
    a: (int, int),
    dx: int,
    dy: int,
)
    requires
        on_board(king.0 as int, king.1 as int),
        on_board(a.0, a.1),
        !sq_empty(g, a.0, a.1),
        a == (king.0 as int + dx, king.1 as int + dy),
        sq_piece(g, a.0, a.1).color != sq_piece(
            g,
            king.0 as int,
            king.1 as int,
        ).color,
    ensures
        ray_enemy_hit(
            g,
            sq_piece(g, king.0 as int, king.1 as int).color,
            king,
            dx,
            dy,
            1,
        ) == Some(a),
{
    let x = king.0 as int;
    let y = king.1 as int;
    assert(1 * dx == dx && 1 * dy == dy);
    assert(step_on(x, y, dx, dy, 1) == a);
    assert(ray_free_before(g, x, y, dx, dy, 1));
    lemma_ray_hit_complete(g, x, y, dx, dy, 1, 1);
}

/// If some enemy piece attacks the king, the ray-casting detector reports
/// check.
#[verifier::rlimit(100)]
#[verifier::spinoff_prover]
proof fn lemma_attacked_implies_alg(g: Seq<Position>, king: (usize, usize))
    requires
        on_board(king.0 as int, king.1 as int),
        !sq_empty(g, king.0 as int, king.1 as int),
        square_attacked(g, king, sq_piece(g, king.0 as int, king.1 as int).color.spec_inverted()),
    ensures
        in_check_alg(g, king),
{
    let x = king.0 as int;
    let y = king.1 as int;
    let c = sq_piece(g, x, y).color;
    let e = c.spec_inverted();
    let (f, r) = choose|f: int, r: int|
        on_board(f, r) && !sq_empty(g, f, r) && sq_piece(g, f, r).color == e && piece_attacks(
            g,
            (f, r),
            (x, y),
        );
    let a = (f, r);
    let p = sq_piece(g, f, r);
    assert(p.color != c) by {
        if c == Color::W {
        } else {
        }
    }
    if p.variant == PieceType::PAWN {
        let dd: int = if c == Color::B {
            -1
        } else {
            1
        };
        assert(dd == -pawn_dir(e)) by {
            if c == Color::W {
            } else {
            }
        }
        assert(y == r + pawn_dir(e));
        assert(r == y + dd);
        if x == f + 1 {
            assert(pawn_threat(g, c, king, -1));
        } else {
            assert(x == f - 1);
            assert(pawn_threat(g, c, king, 1));
        }
    } else if p.variant == PieceType::KNIGHT {
        assert(knight_jump(a, (x, y)));
        if (x, y) == (a.0 + 1, a.1 + 2) {
            lemma_step_attacker_found(g, king, a, -1, -2);
        } else if (x, y) == (a.0 + 2, a.1 + 1) {
            lemma_step_attacker_found(g, king, a, -2, -1);
        } else if (x, y) == (a.0 - 1, a.1 + 2) {
            lemma_step_attacker_found(g, king, a, 1, -2);
        } else if (x, y) == (a.0 + 2, a.1 - 1) {
            lemma_step_attacker_found(g, king, a, -2, 1);
        } else if (x, y) == (a.0 - 1, a.1 - 2) {
            lemma_step_attacker_found(g, king, a, 1, 2);
        } else if (x, y) == (a.0 - 2, a.1 - 1) {
            lemma_step_attacker_found(g, king, a, 2, 1);
        } else if (x, y) == (a.0 + 1, a.1 - 2) {
            lemma_step_attacker_found(g, king, a, -1, 2);
        } else {
            assert((x, y) == (a.0 - 2, a.1 + 1));
            lemma_step_attacker_found(g, king, a, 2, -1);
        }
        assert(in_check_alg(g, king));
    } else if p.variant == PieceType::KING {
        assert(king_adjacent(a, (x, y)));
        if (x, y) == (a.0 - 1, a.1 + 1) {
            lemma_step_attacker_found(g, king, a, 1, -1);
        } else if (x, y) == (a.0, a.1 + 1) {
            lemma_step_attacker_found(g, king, a, 0, -1);
        } else if (x, y) == (a.0 + 1, a.1 + 1) {
            lemma_step_attacker_found(g, king, a, -1, -1);
        } else if (x, y) == (a.0 - 1, a.1) {
            lemma_step_attacker_found(g, king, a, 1, 0);
        } else if (x, y) == (a.0 + 1, a.1) {
            lemma_step_attacker_found(g, king, a, -1, 0);
        } else if (x, y) == (a.0 - 1, a.1 - 1) {
            lemma_step_attacker_found(g, king, a, 1, 1);
        } else if (x, y) == (a.0, a.1 - 1) {
            lemma_step_attacker_found(g, king, a, 0, 1);
        } else {
            assert((x, y) == (a.0 + 1, a.1 - 1));
            lemma_step_attacker_found(g, king, a, -1, 1);
        }
        assert(in_check_alg(g, king));
    } else if p.variant == PieceType::BISHIOP || (p.variant == PieceType::QUEEN && diag_attacks(
        g,
        a,
        (x, y),
    )) {
        assert(diag_attacks(g, a, (x, y)));
        if line_attacks(g, a, (x, y), -1, 1) {
            lemma_line_to_ray(g, king, a, -1, 1);
        } else if line_attacks(g, a, (x, y), 1, 1) {
            lemma_line_to_ray(g, king, a, 1, 1);
        } else if line_attacks(g, a, (x, y), -1, -1) {
            lemma_line_to_ray(g, king, a, -1, -1);
        } else {
            assert(line_attacks(g, a, (x, y), 1, -1));
            lemma_line_to_ray(g, king, a, 1, -1);
        }
        assert(in_check_alg(g, king));
    } else {
        assert(p.variant == PieceType::ROOK || p.variant == PieceType::QUEEN);
        assert(ortho_attacks(g, a, (x, y)));
        if line_attacks(g, a, (x, y), 0, 1) {
            lemma_line_to_ray(g, king, a, 0, 1);
        } else if line_attacks(g, a, (x, y), -1, 0) {
            lemma_line_to_ray(g, king, a, -1, 0);
        } else if line_attacks(g, a, (x, y), 1, 0) {
            lemma_line_to_ray(g, king, a, 1, 0);
        } else {
            assert(line_attacks(g, a, (x, y), 0, -1));
            lemma_line_to_ray(g, king, a, 0, -1);
        }
        assert(in_check_alg(g, king));
    }
}

/// The check detector agrees with a brute-force enumeration of attacking
/// pieces: the king standing at `king` is reported in check exactly when
/// some piece of the opposing side attacks its square.
pub proof fn lemma_in_check_agrees_with_attack(g: Seq<Position>, king: (usize, usize))
    requires
        on_board(king.0 as int, king.1 as int),
        !sq_empty(g, king.0 as int, king.1 as int),
    ensures
        in_check_alg(g, king) == square_attacked(
            g,
            king,
            sq_piece(g, king.0 as int, king.1 as int).color.spec_inverted(),
        ),
{
    if in_check_alg(g, king) {
        lemma_alg_implies_attacked(g, king);
    }
    if square_attacked(g, king, sq_piece(g, king.0 as int, king.1 as int).color.spec_inverted()) {
        lemma_attacked_implies_alg(g, king);
    }
}

} // verus!
