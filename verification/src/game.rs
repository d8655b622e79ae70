//! The game: a board plus turn bookkeeping, capture bookkeeping for the
//! fifty-turn rule, and a tally of board configurations for the threefold
//! repetition rule.
use crate::attack::in_check_alg;
use crate::board::Board;
use crate::board::board_repr;
use crate::board::fm_bk;
use crate::board::fm_grid;
use crate::board::fm_last_pass;
use crate::board::fm_ok;
use crate::board::fm_wk;
use crate::board::sq_empty;
use crate::legal::contains_pos;
use crate::legal::holds_king;
use crate::legal::lemma_legal_dest_on_board;
use crate::legal::lemma_move_preserves_kings;
use crate::notation::decode_notation;
use crate::notation::decode_promo_spec;
use crate::notation::decode_promotion;
use crate::notation::decode_spec;
use crate::notation::cell;
use crate::notation::fen_pos;
use crate::notation::is_fen_char;
use crate::notation::map_fen;
use crate::notation::one_king_char;
use crate::notation::state_text_wf;
use vstd::string::StrSliceExecFns;
use crate::pieces::GameState;
use crate::pieces::PieceType;
use crate::board::clone_grid;
use crate::board::grid_wf;
use crate::board::start_grid;
use crate::pieces::Color;
use crate::pieces::Position;
use vstd::pervasive::VecAdditionalExecFns;
use vstd::prelude::*;

verus! {

/// How often configuration `g` has occurred according to the tally
/// `entries`; 0 when it never has.
pub open spec fn rep_count(entries: Seq<(Vec<Position>, usize)>, g: Seq<Position>) -> int
    decreases entries.len(),
{
    if entries.len() == 0 {
        0
    } else if entries[0].0@ == g {
        entries[0].1 as int
    } else {
        rep_count(entries.drop_first(), g)
    }
}

/// Whether configuration `g` has an entry in the tally.
pub open spec fn rep_has(entries: Seq<(Vec<Position>, usize)>, g: Seq<Position>) -> bool
    decreases entries.len(),
{
    if entries.len() == 0 {
        false
    } else if entries[0].0@ == g {
        true
    } else {
        rep_has(entries.drop_first(), g)
    }
}

/// A configuration has an entry exactly when some index holds its key.
proof fn lemma_rep_has_index(entries: Seq<(Vec<Position>, usize)>, g: Seq<Position>)
    ensures
        rep_has(entries, g) <==> exists|i: int|
            0 <= i < entries.len() && (#[trigger] entries[i]).0@ == g,
    decreases entries.len(),
{
    if entries.len() > 0 {
        lemma_rep_has_index(entries.drop_first(), g);
        if entries[0].0@ == g {
        } else {
            if rep_has(entries, g) {
                let i = choose|i: int|
                    0 <= i < entries.drop_first().len() && (#[trigger] entries.drop_first()[i]).0@
                        == g;
                assert(entries[i + 1].0@ == g);
            }
            if exists|i: int| 0 <= i < entries.len() && (#[trigger] entries[i]).0@ == g {
                let i = choose|i: int| 0 <= i < entries.len() && (#[trigger] entries[i]).0@ == g;
                assert(entries.drop_first()[i - 1].0@ == g);
            }
        }
    }
}

/// The tally after appending an entry.
proof fn lemma_rep_count_push(
    entries: Seq<(Vec<Position>, usize)>,
    e: (Vec<Position>, usize),
    g: Seq<Position>,
)
    ensures
        rep_has(entries, g) ==> rep_count(entries.push(e), g) == rep_count(entries, g) && rep_has(
            entries.push(e),
            g,
        ),
        !rep_has(entries, g) && g == e.0@ ==> rep_count(entries.push(e), g) == e.1 as int
            && rep_has(entries.push(e), g),
        !rep_has(entries, g) && g != e.0@ ==> rep_count(entries.push(e), g) == 0 && !rep_has(
            entries.push(e),
            g,
        ),
    decreases entries.len(),
{
    if entries.len() == 0 {
        assert(entries.push(e)[0] == e);
        assert(entries.push(e).drop_first() =~= Seq::<(Vec<Position>, usize)>::empty());
        assert(entries.push(e).drop_first().len() == 0);
        if g != e.0@ {
            assert(rep_count(entries.push(e), g) == rep_count(entries.push(e).drop_first(), g));
            assert(rep_count(entries.push(e).drop_first(), g) == 0);
            assert(!rep_has(entries.push(e).drop_first(), g));
        }
    } else {
        assert(entries.push(e)[0] == entries[0]);
        assert(entries.push(e).drop_first() =~= entries.drop_first().push(e));
        lemma_rep_count_push(entries.drop_first(), e, g);
        assert(rep_count(entries.push(e), g) == if entries[0].0@ == g {
            entries[0].1 as int
        } else {
            rep_count(entries.drop_first().push(e), g)
        });
        assert(rep_has(entries.push(e), g) == if entries[0].0@ == g {
            true
        } else {
            rep_has(entries.drop_first().push(e), g)
        });
    }
}

/// The tally after replacing the first entry of a key with another entry
/// of the same key.
proof fn lemma_rep_count_update(
    entries: Seq<(Vec<Position>, usize)>,
    i: int,
    e: (Vec<Position>, usize),
    g: Seq<Position>,
)
    requires
        0 <= i < entries.len(),
        e.0@ == entries[i].0@,
        forall|j: int| 0 <= j < i ==> (#[trigger] entries[j]).0@ != entries[i].0@,
    ensures
        rep_count(entries.update(i, e), g) == if g == entries[i].0@ {
            e.1 as int
        } else {
            rep_count(entries, g)
        },
        rep_has(entries.update(i, e), g) == rep_has(entries, g),
    decreases entries.len(),
{
    if i == 0 {
        assert(entries.update(0, e)[0] == e);
        assert(entries.update(0, e).drop_first() =~= entries.drop_first());
    } else {
        assert(entries.update(i, e)[0] == entries[0]);
        assert(entries.update(i, e).drop_first() =~= entries.drop_first().update(i - 1, e));
        assert(entries.drop_first()[i - 1] == entries[i]);
        assert forall|j: int| 0 <= j < i - 1 implies (#[trigger] entries.drop_first()[j]).0@
            != entries.drop_first()[i - 1].0@ by {
            assert(entries.drop_first()[j] == entries[j + 1]);
        }
        lemma_rep_count_update(entries.drop_first(), i - 1, e, g);
    }
}

/// The game.
pub struct Game {
    /// The current turn, starting at 1; odd turns are white's.
    pub turn_counter: usize,
    /// The board.
    pub board: Board,
    /// The turn of the most recent capture (0 when none yet), for the
    /// fifty-turn rule.
    pub last_capture: usize,
    /// The highest occurrence count any configuration has reached through
    /// a repeat, for the threefold rule.
    pub max_repeated: usize,
    /// The occurrence tally of exact board configurations.
    pub repeat_map: Vec<(Vec<Position>, usize)>,
}

impl Game {
    /// Well-formedness: a well-formed board, a turn counter from 1 up, a
    /// capture turn no later than the current turn, and tally counts
    /// between 1 and the current turn.
    pub open spec fn wf(self) -> bool {
        &&& self.board.wf()
        &&& self.turn_counter >= 1
        &&& self.last_capture <= self.turn_counter
        &&& forall|i: int|
            0 <= i < self.repeat_map@.len() ==> 1 <= (#[trigger] self.repeat_map@[i]).1
                <= self.turn_counter
    }

    /// The side whose turn it is: white on odd turns.
    pub open spec fn side_to_move(self) -> Color {
        if self.turn_counter % 2 == 1 {
            Color::W
        } else {
            Color::B
        }
    }

    /// Reinitializes in place: the starting board, turn 1, and cleared
    /// capture and repetition bookkeeping.
    pub fn restart(&mut self)
        ensures
            final(self).wf(),
            final(self).board.grid() == start_grid(),
            final(self).board.wk_pos == (4usize, 0usize),
            final(self).board.bk_pos == (4usize, 7usize),
            final(self).board.last_pass == (0usize, 0usize, 0usize),
            final(self).turn_counter == 1,
            final(self).last_capture == 0,
            final(self).max_repeated == 0,
            final(self).repeat_map@.len() == 0,
    {
        self.board.reset();
        self.turn_counter = 1;
        self.last_capture = 0;
        self.max_repeated = 0;
        self.repeat_map = Vec::new();
    }

    /// Installs the described position on the board: eight rows of eight
    /// square characters separated by newlines, highest rank first, with
    /// exactly one king of each side. Pieces read this way count as never
    /// having moved; the turn and the draw bookkeeping are left as they
    /// are.
    pub fn load_state(&mut self, state: String)
        requires
            old(self).wf(),
            state_text_wf(state@),
            one_king_char(state@, 'K'),
            one_king_char(state@, 'k'),
        ensures
            final(self).wf(),
            forall|f: int, r: int|
                crate::board::on_board(f, r) ==> final(self).board.grid()[crate::board::idx(f, r)]
                    == fen_pos(state@[(7 - r) * 9 + f]),
            final(self).board.last_pass == old(self).board.last_pass,
            final(self).turn_counter == old(self).turn_counter,
            final(self).last_capture == old(self).last_capture,
            final(self).max_repeated == old(self).max_repeated,
            final(self).repeat_map == old(self).repeat_map,
    {
        let ghost s = state@;
        let ghost g0 = self.board.grid();
        let ghost kw = choose|i: int|
            0 <= i < 71 && i % 9 != 8 && s[i] == 'K' && (forall|j: int|
                #![trigger s[j]]
                0 <= j < 71 && j % 9 != 8 && j != i ==> s[j] != 'K');
        let ghost kb = choose|i: int|
            0 <= i < 71 && i % 9 != 8 && s[i] == 'k' && (forall|j: int|
                #![trigger s[j]]
                0 <= j < 71 && j % 9 != 8 && j != i ==> s[j] != 'k');
        let text: &str = state.as_str();
        let mut row: usize = 0;
        while row < 8
            invariant
                state@ == s,
                text@ == s,
                state_text_wf(s),
                self.board.grid().len() == 64,
                row <= 8,
                0 <= kw < 71 && kw % 9 != 8 && s[kw] == 'K',
                forall|j: int| #![trigger s[j]] 0 <= j < 71 && j % 9 != 8 && j != kw ==> s[j] != 'K',
                0 <= kb < 71 && kb % 9 != 8 && s[kb] == 'k',
                forall|j: int| #![trigger s[j]] 0 <= j < 71 && j % 9 != 8 && j != kb ==> s[j] != 'k',
                forall|rr: int, cc: int|
                    #![trigger cell(s, rr, cc)]
                    0 <= rr < row && 0 <= cc < 8 ==> self.board.grid()[crate::board::idx(cc, 7 - rr)]
                        == fen_pos(cell(s, rr, cc)),
                kw / 9 < row ==> self.board.wk_pos.0 == kw % 9 && self.board.wk_pos.1 == 7 - kw / 9,
                kb / 9 < row ==> self.board.bk_pos.0 == kb % 9 && self.board.bk_pos.1 == 7 - kb / 9,
                kw / 9 >= row ==> self.board.wk_pos == old(self).board.wk_pos,
                kb / 9 >= row ==> self.board.bk_pos == old(self).board.bk_pos,
                self.board.last_pass == old(self).board.last_pass,
                self.turn_counter == old(self).turn_counter,
                self.last_capture == old(self).last_capture,
                self.max_repeated == old(self).max_repeated,
                self.repeat_map == old(self).repeat_map,
            decreases 8 - row,
        {
            let mut col: usize = 0;
            while col < 8
                invariant
                    state@ == s,
                    text@ == s,
                    state_text_wf(s),
                    self.board.grid().len() == 64,
                    row < 8,
                    col <= 8,
                    0 <= kw < 71 && kw % 9 != 8 && s[kw] == 'K',
                    forall|j: int| #![trigger s[j]] 0 <= j < 71 && j % 9 != 8 && j != kw ==> s[j] != 'K',
                    0 <= kb < 71 && kb % 9 != 8 && s[kb] == 'k',
                    forall|j: int| #![trigger s[j]] 0 <= j < 71 && j % 9 != 8 && j != kb ==> s[j] != 'k',
                    forall|rr: int, cc: int|
                        #![trigger cell(s, rr, cc)]
                        0 <= rr < 8 && 0 <= cc < 8 && (rr < row || (rr == row && cc < col))
                            ==> self.board.grid()[crate::board::idx(cc, 7 - rr)] == fen_pos(
                            cell(s, rr, cc),
                        ),
                    (kw / 9 < row || (kw / 9 == row && kw % 9 < col)) ==> self.board.wk_pos.0 == kw
                        % 9 && self.board.wk_pos.1 == 7 - kw / 9,
                    (kb / 9 < row || (kb / 9 == row && kb % 9 < col)) ==> self.board.bk_pos.0 == kb
                        % 9 && self.board.bk_pos.1 == 7 - kb / 9,
                    !(kw / 9 < row || (kw / 9 == row && kw % 9 < col)) ==> self.board.wk_pos == old(
                        self,
                    ).board.wk_pos,
                    !(kb / 9 < row || (kb / 9 == row && kb % 9 < col)) ==> self.board.bk_pos == old(
                        self,
                    ).board.bk_pos,
                    self.board.last_pass == old(self).board.last_pass,
                    self.turn_counter == old(self).turn_counter,
                    self.last_capture == old(self).last_capture,
                    self.max_repeated == old(self).max_repeated,
                    self.repeat_map == old(self).repeat_map,
                decreases 8 - col,
            {
                let ti: usize = row * 9 + col;
                proof {
                    assert(ti as int % 9 == col && ti as int / 9 == row) by (nonlinear_arith)
                        requires
                            ti == row * 9 + col,
                            0 <= col < 8,
                            0 <= row < 8,
                    ;
                    assert(is_fen_char(s[ti as int]));
                    assert(cell(s, row as int, col as int) == s[ti as int]);
                }
                let ch: char = text.get_char(ti);
                let rank: usize = 7 - row;
                if ch == 'k' {
                    self.board.bk_pos = (col, rank);
                    proof {
                        assert(kb == ti as int);
                    }
                }
                if ch == 'K' {
                    self.board.wk_pos = (col, rank);
                    proof {
                        assert(kw == ti as int);
                    }
                }
                let p: Position = map_fen(ch);
                self.board.positions.set(col * 8 + rank, p);
                proof {
                    assert(crate::board::idx(col as int, rank as int) == col * 8 + rank);
                    assert forall|f1: int, r1: int, f2: int, r2: int|
                        crate::board::on_board(f1, r1) && crate::board::on_board(f2, r2)
                            && crate::board::idx(f1, r1) == crate::board::idx(f2, r2) implies f1
                        == f2 && r1 == r2 by {
                        crate::board::lemma_idx_inj(f1, r1, f2, r2);
                    }
                }
                col += 1;
            }
            row += 1;
        }
        proof {
            assert forall|f: int, r: int|
                #![trigger crate::board::idx(f, r)]
                crate::board::on_board(f, r) implies self.board.grid()[crate::board::idx(
                f,
                r,
            )] == fen_pos(s[(7 - r) * 9 + f]) by {
                let rr = 7 - r;
                assert(self.board.grid()[crate::board::idx(f, 7 - rr)] == fen_pos(cell(s, rr, f)));
                assert(cell(s, rr, f) == s[(7 - r) * 9 + f]);
            }
            assert(crate::board::grid_wf(self.board.grid())) by {
                assert forall|i: int| 0 <= i < 64 implies crate::pieces::valid_content(
                    #[trigger] self.board.grid()[i],
                ) by {
                    let f = i / 8;
                    let r = i % 8;
                    assert(0 <= f < 8 && 0 <= r < 8 && f * 8 + r == i) by (nonlinear_arith)
                        requires
                            0 <= i < 64,
                            f == i / 8,
                            r == i % 8,
                    ;
                    assert(crate::board::idx(f, r) == i);
                    assert(self.board.grid()[crate::board::idx(f, r)] == fen_pos(s[(7 - r) * 9 + f]));
                    assert(is_fen_char(s[(7 - r) * 9 + f])) by {
                        let rr = 7 - r;
                        assert((rr * 9 + f) % 9 == f && 0 <= rr * 9 + f < 71) by (nonlinear_arith)
                            requires
                                0 <= rr < 8,
                                0 <= f < 8,
                        ;
                        assert(s[(7 - r) * 9 + f] == s[rr * 9 + f]);
                    }
                }
            }
            assert(crate::board::king_at(self.board.grid(), self.board.wk_pos, Color::W)) by {
                let rr = kw / 9;
                let cc = kw % 9;
                assert(0 <= rr < 8 && 0 <= cc < 8) by (nonlinear_arith)
                    requires
                        0 <= kw < 71,
                        kw % 9 != 8,
                        rr == kw / 9,
                        cc == kw % 9,
                ;
                assert(rr * 9 + cc == kw) by (nonlinear_arith)
                    requires
                        rr == kw / 9,
                        cc == kw % 9,
                ;
                assert(cell(s, rr, cc) == s[kw]);
                assert(self.board.grid()[crate::board::idx(cc, 7 - rr)] == fen_pos(s[kw]));
            }
            assert(crate::board::king_at(self.board.grid(), self.board.bk_pos, Color::B)) by {
                let rr = kb / 9;
                let cc = kb % 9;
                assert(0 <= rr < 8 && 0 <= cc < 8) by (nonlinear_arith)
                    requires
                        0 <= kb < 71,
                        kb % 9 != 8,
                        rr == kb / 9,
                        cc == kb % 9,
                ;
                assert(rr * 9 + cc == kb) by (nonlinear_arith)
                    requires
                        rr == kb / 9,
                        cc == kb % 9,
                ;
                assert(cell(s, rr, cc) == s[kb]);
                assert(self.board.grid()[crate::board::idx(cc, 7 - rr)] == fen_pos(s[kb]));
            }
            assert(crate::board::kings_unique(
                self.board.grid(),
                self.board.wk_pos,
                self.board.bk_pos,
            )) by {
                assert forall|f: int, r: int|
                    crate::board::on_board(f, r) && !crate::board::sq_empty(
                        self.board.grid(),
                        f,
                        r,
                    ) && crate::board::sq_piece(self.board.grid(), f, r).variant
                    == PieceType::KING implies ((crate::board::sq_piece(
                    self.board.grid(),
                    f,
                    r,
                ).color == Color::W && f == self.board.wk_pos.0 && r == self.board.wk_pos.1) || (
                crate::board::sq_piece(self.board.grid(), f, r).color == Color::B && f
                    == self.board.bk_pos.0 && r == self.board.bk_pos.1)) by {
                    let rr = 7 - r;
                    let ci = rr * 9 + f;
                    assert(0 <= ci < 71 && ci % 9 == f && ci / 9 == rr) by (nonlinear_arith)
                        requires
                            0 <= rr < 8,
                            0 <= f < 8,
                            ci == rr * 9 + f,
                    ;
                    assert(self.board.grid()[crate::board::idx(f, r)] == fen_pos(s[ci]));
                    assert(is_fen_char(s[ci]));
                    let ch2 = s[ci];
                    assert(ch2 == 'k' || ch2 == 'K');
                    if ch2 == 'K' {
                        assert(ci == kw);
                        assert(f == kw % 9 && rr == kw / 9);
                    } else {
                        assert(ci == kb);
                        assert(f == kb % 9 && rr == kb / 9);
                    }
                }
            }
        }
    }

    /// Returns the board as text: eight rows separated by '/', highest
    /// rank first.
    pub fn get_board_representation(&self) -> (r: String)
        requires
            grid_wf(self.board.grid()),
        ensures
            r@ == board_repr(self.board.grid()),
    {
        self.board.to_string()
    }

    /// Records the current board configuration in the repetition tally:
    /// its count rises by one, and `max_repeated` keeps the highest count
    /// reached through a repeat.
    fn bump_repeat(&mut self)
        requires
            forall|i: int|
                0 <= i < old(self).repeat_map@.len() ==> 1 <= (#[trigger] old(self).repeat_map@[i]).1
                    < usize::MAX,
        ensures
            final(self).board == old(self).board,
            final(self).turn_counter == old(self).turn_counter,
            final(self).last_capture == old(self).last_capture,
            forall|gg: Seq<Position>|
                rep_count(final(self).repeat_map@, gg) == rep_count(old(self).repeat_map@, gg) + (
                if gg == old(self).board.grid() {
                    1int
                } else {
                    0int
                }),
            final(self).max_repeated as int == ({
                let c = rep_count(old(self).repeat_map@, old(self).board.grid()) + 1;
                if rep_has(old(self).repeat_map@, old(self).board.grid()) && c > old(self).max_repeated as int {
                    c
                } else {
                    old(self).max_repeated as int
                }
            }),
            forall|i: int|
                0 <= i < final(self).repeat_map@.len() ==> 1 <= (#[trigger] final(self).repeat_map@[i]).1
                    <= rep_max_entry(old(self).repeat_map@) + 1,
    {
        let ghost m0 = self.repeat_map@;
        let ghost key = self.board.grid();
        let n: usize = self.repeat_map.len();
        let mut i: usize = 0;
        let mut found: bool = false;
        while i < n && !found
            invariant
                self.repeat_map@ == m0,
                n == m0.len(),
                i <= n,
                forall|j: int| 0 <= j < i ==> (#[trigger] m0[j]).0@ != key,
                self.board.grid() == key,
                found ==> i < n && m0[i as int].0@ == key,
            decreases n - i + (if found {
                0int
            } else {
                1int
            }),
        {
            let entry_matches: bool = {
                let entry: &(Vec<Position>, usize) = &self.repeat_map[i];
                grids_equal(&entry.0, &self.board.positions)
            };
            if entry_matches {
                found = true;
            } else {
                i += 1;
            }
        }
        proof {
            lemma_rep_has_index(m0, key);
            lemma_rep_max_entry(m0, key);
        }
        if found {
            let c: usize = self.repeat_map[i].1 + 1;
            let key_copy: Vec<Position> = clone_grid(&self.board.positions);
            let ghost e = (key_copy, c);
            self.repeat_map.set(i, (key_copy, c));
            proof {
                assert forall|gg: Seq<Position>|
                    rep_count(self.repeat_map@, gg) == rep_count(m0, gg) + (if gg == key {
                        1int
                    } else {
                        0int
                    }) by {
                    lemma_rep_count_update(m0, i as int, e, gg);
                    if gg == key {
                        lemma_rep_count_at_first(m0, i as int, gg);
                    }
                }
                lemma_rep_count_at_first(m0, i as int, key);
            }
            if c > self.max_repeated {
                self.max_repeated = c;
            }
        } else {
            let key_copy: Vec<Position> = clone_grid(&self.board.positions);
            let ghost e = (key_copy, 1usize);
            self.repeat_map.push((key_copy, 1));
            proof {
                assert(!rep_has(m0, key));
                assert forall|gg: Seq<Position>|
                    rep_count(self.repeat_map@, gg) == rep_count(m0, gg) + (if gg == key {
                        1int
                    } else {
                        0int
                    }) by {
                    lemma_rep_count_push(m0, e, gg);
                    if !rep_has(m0, gg) {
                        lemma_rep_count_none(m0, gg);
                    }
                }
            }
        }
    }
}

impl Game {
    /// The classification of the game: a draw once more than fifty turns
    /// have passed since the last capture or a configuration has occurred
    /// three times; otherwise, when the side to move has no legal move, a
    /// win for the opponent if that side is in check and a stalemate draw
    /// if not; otherwise the game is still running.
    pub open spec fn state_spec(self) -> GameState {
        if self.turn_counter - self.last_capture > 50 || self.max_repeated >= 3 {
            GameState::DRAW
        } else if !self.has_any_legal_move() {
            if self.turn_counter % 2 == 0 {
                if in_check_alg(self.board.grid(), self.board.bk_pos) {
                    GameState::WIN_W
                } else {
                    GameState::DRAW
                }
            } else {
                if in_check_alg(self.board.grid(), self.board.wk_pos) {
                    GameState::WIN_B
                } else {
                    GameState::DRAW
                }
            }
        } else {
            GameState::ONGOING
        }
    }

    /// Classifies the game.
    pub fn check_state(&self) -> (r: GameState)
        requires
            self.wf(),
        ensures
            r == self.state_spec(),
    {
        if self.turn_counter - self.last_capture > 50 || self.max_repeated >= 3 {
            return GameState::DRAW;
        }
        let all: Vec<(String, String)> = self.get_all_legal_moves();
        if all.len() == 0 {
            if self.turn_counter % 2 == 0 {
                if self.board.is_in_check(self.board.bk_pos) {
                    GameState::WIN_W
                } else {
                    GameState::DRAW
                }
            } else {
                if self.board.is_in_check(self.board.wk_pos) {
                    GameState::WIN_B
                } else {
                    GameState::DRAW
                }
            }
        } else {
            GameState::ONGOING
        }
    }

    /// The submitted move is accepted: the game is still running, both
    /// coordinate texts decode, the destination is a legal destination of
    /// the origin, the move does not capture a king, and a promotion
    /// names its piece.
    pub open spec fn move_accepted(self, from: Seq<char>, to: Seq<char>, promotion: Seq<char>) -> bool {
        &&& self.state_spec() == GameState::ONGOING
        &&& decode_spec(from) is Ok
        &&& decode_spec(to) is Ok
        &&& self.legal_dest(decode_spec(from)->Ok_0, decode_spec(to)->Ok_0)
        &&& !holds_king(self.board.grid(), decode_spec(to)->Ok_0)
        &&& fm_ok(
            self.board.grid(),
            decode_spec(from)->Ok_0,
            decode_spec(to)->Ok_0,
            decode_promo_spec(promotion),
        )
    }

    /// The submitted move is invalid input rather than a plain rejection:
    /// the game is still running, and either a coordinate text is
    /// malformed, or the move would be played but the required promotion
    /// piece is missing.
    pub open spec fn move_input_invalid(
        self,
        from: Seq<char>,
        to: Seq<char>,
        promotion: Seq<char>,
    ) -> bool {
        &&& self.state_spec() == GameState::ONGOING
        &&& {
            ||| decode_spec(from) is Err
            ||| decode_spec(to) is Err
            ||| (self.legal_dest(decode_spec(from)->Ok_0, decode_spec(to)->Ok_0) && !holds_king(
                self.board.grid(),
                decode_spec(to)->Ok_0,
            ) && !fm_ok(
                self.board.grid(),
                decode_spec(from)->Ok_0,
                decode_spec(to)->Ok_0,
                decode_promo_spec(promotion),
            ))
        }
    }

    /// Submits a move in coordinate notation. Invalid input — malformed
    /// coordinate text, or a promotion reached without naming its piece —
    /// fails with an invalid-input error, distinct from an ordinary
    /// rejection. A rejected move (game over, an illegal or out-of-turn
    /// move, or a move onto a king, which no position reached by play
    /// ever offers) returns `Ok(false)`. Neither changes anything. An
    /// accepted move applies the move's board effects, records a capture,
    /// advances the turn, tallies the new configuration for the
    /// repetition rule, and returns `Ok(true)`.
    pub fn move_piece(&mut self, from: &str, to: &str, promotion: &str) -> (r: Result<
        bool,
        crate::notation::ChessError,
    >)
        requires
            old(self).wf(),
            old(self).turn_counter < usize::MAX,
        ensures
            final(self).wf(),
            r == (if old(self).move_input_invalid(from@, to@, promotion@) {
                Err::<bool, crate::notation::ChessError>(crate::notation::ChessError::InvalidInput)
            } else {
                Ok::<bool, crate::notation::ChessError>(
                    old(self).move_accepted(from@, to@, promotion@),
                )
            }),
            r != Ok::<bool, crate::notation::ChessError>(true) ==> *final(self) == *old(self),
            r == Ok::<bool, crate::notation::ChessError>(true) ==> ({
                let f = decode_spec(from@)->Ok_0;
                let t = decode_spec(to@)->Ok_0;
                let pp = decode_promo_spec(promotion@);
                let captured = !sq_empty(old(self).board.grid(), t.0 as int, t.1 as int);
                &&& final(self).board.grid() == fm_grid(old(self).board.grid(), f, t, pp)
                &&& final(self).board.wk_pos == fm_wk(old(self).board, f, t)
                &&& final(self).board.bk_pos == fm_bk(old(self).board, f, t)
                &&& final(self).board.last_pass == fm_last_pass(
                    old(self).board,
                    f,
                    t,
                    old(self).turn_counter,
                )
                &&& final(self).turn_counter == old(self).turn_counter + 1
                &&& final(self).last_capture == (if captured {
                    old(self).turn_counter
                } else {
                    old(self).last_capture
                })
                &&& (forall|gg: Seq<Position>|
                    rep_count(final(self).repeat_map@, gg) == rep_count(old(self).repeat_map@, gg)
                        + (if gg == final(self).board.grid() {
                        1int
                    } else {
                        0int
                    }))
                &&& final(self).max_repeated as int == ({
                    let cnt = rep_count(old(self).repeat_map@, final(self).board.grid()) + 1;
                    if rep_has(old(self).repeat_map@, final(self).board.grid()) && cnt > old(
                        self,
                    ).max_repeated as int {
                        cnt
                    } else {
                        old(self).max_repeated as int
                    }
                })
            }),
    {
        let st: GameState = self.check_state();
        if st != GameState::ONGOING {
            return Ok(false);
        }
        let f_coords: (usize, usize) = match decode_notation(from) {
            Ok(v) => v,
            Err(e) => {
                return Err(e);
            },
        };
        let t_coords: (usize, usize) = match decode_notation(to) {
            Ok(v) => v,
            Err(e) => {
                return Err(e);
            },
        };
        let p_type: PieceType = decode_promotion(promotion);
        let lg_moves: Vec<(usize, usize)> = self.legal_destinations(f_coords);
        if !contains_pos(&lg_moves, t_coords) {
            return Ok(false);
        }
        proof {
            assert(lg_moves@.contains(t_coords));
            assert(self.legal_dest(f_coords, t_coords));
            lemma_legal_dest_on_board(*self, f_coords, t_coords);
        }
        if !self.board.is_empty(t_coords) {
            if self.board.get_piece(t_coords).variant == PieceType::KING {
                return Ok(false);
            }
        }
        proof {
            reveal(Game::legal_dest);
        }
        let ghost pre = *self;
        let res: Result<bool, crate::notation::ChessError> = self.board.force_move(
            f_coords,
            t_coords,
            p_type,
            self.turn_counter,
        );
        match res {
            Err(e) => {
                proof {
                    assert(*self == pre);
                }
                Err(e)
            },
            Ok(has_captured) => {
                proof {
                    assert(p_type != PieceType::KING);
                    lemma_move_preserves_kings(pre, f_coords, t_coords, p_type);
                    crate::legal::lemma_move_preserves_king_uniqueness(
                        pre,
                        f_coords,
                        t_coords,
                        p_type,
                    );
                    lemma_rep_max_bound(pre.repeat_map@, pre.turn_counter as int);
                }
                if has_captured {
                    self.last_capture = self.turn_counter;
                }
                self.turn_counter += 1;
                self.bump_repeat();
                Ok(true)
            },
        }
    }
}

/// A law of the classification: it is a pure function of the game state,
/// so querying it repeatedly without an intervening move returns the same
/// classification.
pub proof fn lemma_check_state_idempotent(g: Game, r1: GameState, r2: GameState)
    requires
        r1 == g.state_spec(),
        r2 == g.state_spec(),
    ensures
        r1 == r2,
{
}

/// Every count of the tally bounds the largest count.
proof fn lemma_rep_max_bound(entries: Seq<(Vec<Position>, usize)>, t: int)
    requires
        forall|i: int| 0 <= i < entries.len() ==> (#[trigger] entries[i]).1 <= t,
    ensures
        rep_max_entry(entries) <= if entries.len() == 0 {
            0
        } else {
            t
        },
    decreases entries.len(),
{
    if entries.len() > 0 {
        assert forall|i: int| 0 <= i < entries.drop_first().len() implies (#[trigger] entries.drop_first()[i]).1
            <= t by {
            assert(entries.drop_first()[i] == entries[i + 1]);
        }
        lemma_rep_max_bound(entries.drop_first(), t);
    }
}

/// The largest count in the tally (0 when empty).
pub open spec fn rep_max_entry(entries: Seq<(Vec<Position>, usize)>) -> int
    decreases entries.len(),
{
    if entries.len() == 0 {
        0
    } else {
        let rest = rep_max_entry(entries.drop_first());
        if entries[0].1 as int > rest {
            entries[0].1 as int
        } else {
            rest
        }
    }
}

/// Counts in the tally are bounded by the largest count, and the count of
/// any configuration as well.
proof fn lemma_rep_max_entry(entries: Seq<(Vec<Position>, usize)>, g: Seq<Position>)
    ensures
        rep_count(entries, g) <= rep_max_entry(entries),
        forall|i: int|
            0 <= i < entries.len() ==> (#[trigger] entries[i]).1 as int <= rep_max_entry(entries),
        0 <= rep_max_entry(entries),
    decreases entries.len(),
{
    if entries.len() > 0 {
        lemma_rep_max_entry(entries.drop_first(), g);
        assert forall|i: int| 0 <= i < entries.len() implies (#[trigger] entries[i]).1 as int
            <= rep_max_entry(entries) by {
            if i > 0 {
                assert(entries.drop_first()[i - 1] == entries[i]);
            }
        }
    }
}

/// A configuration with no entry has count 0.
proof fn lemma_rep_count_none(entries: Seq<(Vec<Position>, usize)>, g: Seq<Position>)
    requires
        !rep_has(entries, g),
    ensures
        rep_count(entries, g) == 0,
    decreases entries.len(),
{
    if entries.len() > 0 {
        lemma_rep_count_none(entries.drop_first(), g);
    }
}

/// When the first `i` entries miss the key and entry `i` holds it, the
/// count is entry `i`'s.
proof fn lemma_rep_count_at_first(entries: Seq<(Vec<Position>, usize)>, i: int, g: Seq<Position>)
    requires
        0 <= i < entries.len(),
        entries[i].0@ == g,
        forall|j: int| 0 <= j < i ==> (#[trigger] entries[j]).0@ != g,
    ensures
        rep_count(entries, g) == entries[i].1 as int,
        rep_has(entries, g),
    decreases entries.len(),
{
    if i == 0 {
    } else {
        assert(entries.drop_first()[i - 1] == entries[i]);
        assert forall|j: int| 0 <= j < i - 1 implies (#[trigger] entries.drop_first()[j]).0@
            != g by {
            assert(entries.drop_first()[j] == entries[j + 1]);
        }
        lemma_rep_count_at_first(entries.drop_first(), i - 1, g);
    }
}

/// Compares two grids square by square.
fn grids_equal(a: &Vec<Position>, b: &Vec<Position>) -> (r: bool)
    ensures
        r == (a@ == b@),
{
    if a.len() != b.len() {
        proof {
            assert(a@ != b@);
        }
        return false;
    }
    let mut i: usize = 0;
    while i < a.len()
        invariant
            a@.len() == b@.len(),
            i <= a@.len(),
            forall|j: int| 0 <= j < i ==> a@[j] == b@[j],
        decreases a@.len() - i,
    {
        if a[i] != b[i] {
            proof {
                assert(a@[i as int] != b@[i as int]);
            }
            return false;
        }
        i += 1;
    }
    proof {
        assert(a@ =~= b@);
    }
    true
}

/// Creates a fresh game in the standard starting position, white to move.
pub fn start() -> (g: Game)
    ensures
        g.wf(),
        g.board.grid() == start_grid(),
        g.board.wk_pos == (4usize, 0usize),
        g.board.bk_pos == (4usize, 7usize),
        g.board.last_pass == (0usize, 0usize, 0usize),
        g.turn_counter == 1,
        g.last_capture == 0,
        g.max_repeated == 0,
        g.repeat_map@.len() == 0,
{
    let board0: Board = Board {
        positions: Vec::new(),
        bk_pos: (4, 7),
        wk_pos: (4, 0),
        last_pass: (0, 0, 0),
    };
    let mut g: Game = Game {
        turn_counter: 1,
        board: board0,
        last_capture: 0,
        max_repeated: 0,
        repeat_map: Vec::new(),
    };
    g.restart();
    g
}

} // verus!
