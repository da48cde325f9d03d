use vstd::prelude::*;

use crate::board::Board;
use crate::board::LastMove;
use crate::board::Occ;
use crate::board::Piece;
use crate::board::occ_at;
use crate::idx;
use crate::in_bounds;
use crate::move_generation::bishop_move_ok;
use crate::move_generation::en_passant_ok;
use crate::move_generation::from_col;
use crate::move_generation::from_row;
use crate::move_generation::gen_all_moves_for_color;
use crate::move_generation::move_pseudo_legal;
use crate::move_generation::pawn_move_ok;
use crate::move_generation::promo_row;
use crate::move_generation::pseudo_legal;
use crate::move_generation::queen_move_ok;
use crate::move_generation::ray_hits;
use crate::move_generation::rook_move_ok;
use crate::move_generation::to_col;
use crate::move_generation::to_row;
use crate::Move;

verus! {

broadcast use vstd::seq_lib::group_seq_properties;

/// The piece kind inside an occupant; meaningful only when one is there.
pub open spec fn occ_piece(o: Occ) -> Piece {
    match o {
        Some((p, pc)) => p,
        None => Piece::P,
    }
}

/// True when some pseudo-legal move of side `by` lands on square (r, c):
/// the square is attacked by that side.
pub open spec fn square_attacked(g: Seq<Occ>, lm: Option<LastMove>, by: bool, r: int, c: int) -> bool {
    exists|fr: int, fc: int| pseudo_legal(g, lm, fr, fc, by, r, c)
}

/// A target of a ray lies on the board.
proof fn lemma_ray_bounds(
    g: Seq<Occ>,
    r: int,
    c: int,
    dr: int,
    dc: int,
    limit: int,
    color: bool,
    tr: int,
    tc: int,
)
    requires
        ray_hits(g, r, c, dr, dc, limit, color, tr, tc),
    ensures
        in_bounds(tr, tc),
    decreases limit,
{
    if limit > 0 && in_bounds(r + dr, c + dc) {
        if occ_at(g, r + dr, c + dc) is None && !(r + dr == tr && c + dc == tc) {
            lemma_ray_bounds(g, r + dr, c + dc, dr, dc, limit - 1, color, tr, tc);
        }
    }
}

/// Source and destination of a pseudo-legal move lie on the board.
pub proof fn lemma_pseudo_legal_bounds(
    g: Seq<Occ>,
    lm: Option<LastMove>,
    fr: int,
    fc: int,
    color: bool,
    tr: int,
    tc: int,
)
    requires
        pseudo_legal(g, lm, fr, fc, color, tr, tc),
    ensures
        in_bounds(fr, fc),
        in_bounds(tr, tc),
{
    match occ_at(g, fr, fc) {
        Some((p, pc)) => {
            match p {
                Piece::P => {
                },
                Piece::N => {
                    knight_bounds(g, fr, fc, color, tr, tc);
                },
                Piece::B => {
                    bishop_bounds(g, fr, fc, color, tr, tc);
                },
                Piece::R => {
                    rook_bounds(g, fr, fc, color, tr, tc);
                },
                Piece::Q => {
                    slide_bounds(g, fr, fc, 7, color, tr, tc);
                },
                Piece::K => {
                    slide_bounds(g, fr, fc, 1, color, tr, tc);
                },
            }
        },
        None => {
        },
    }
}

proof fn rook_bounds(g: Seq<Occ>, fr: int, fc: int, color: bool, tr: int, tc: int)
    requires
        crate::move_generation::rook_move_ok(g, fr, fc, color, tr, tc),
    ensures
        in_bounds(tr, tc),
{
    if ray_hits(g, fr, fc, -1, 0, 7, color, tr, tc) {
        lemma_ray_bounds(g, fr, fc, -1, 0, 7, color, tr, tc);
    } else if ray_hits(g, fr, fc, 1, 0, 7, color, tr, tc) {
        lemma_ray_bounds(g, fr, fc, 1, 0, 7, color, tr, tc);
    } else if ray_hits(g, fr, fc, 0, 1, 7, color, tr, tc) {
        lemma_ray_bounds(g, fr, fc, 0, 1, 7, color, tr, tc);
    } else {
        lemma_ray_bounds(g, fr, fc, 0, -1, 7, color, tr, tc);
    }
}

proof fn bishop_bounds(g: Seq<Occ>, fr: int, fc: int, color: bool, tr: int, tc: int)
    requires
        crate::move_generation::bishop_move_ok(g, fr, fc, color, tr, tc),
    ensures
        in_bounds(tr, tc),
{
    if ray_hits(g, fr, fc, -1, 1, 7, color, tr, tc) {
        lemma_ray_bounds(g, fr, fc, -1, 1, 7, color, tr, tc);
    } else if ray_hits(g, fr, fc, -1, -1, 7, color, tr, tc) {
        lemma_ray_bounds(g, fr, fc, -1, -1, 7, color, tr, tc);
    } else if ray_hits(g, fr, fc, 1, 1, 7, color, tr, tc) {
        lemma_ray_bounds(g, fr, fc, 1, 1, 7, color, tr, tc);
    } else {
        lemma_ray_bounds(g, fr, fc, 1, -1, 7, color, tr, tc);
    }
}

proof fn slide_bounds(g: Seq<Occ>, fr: int, fc: int, limit: int, color: bool, tr: int, tc: int)
    requires
        crate::move_generation::slide8_ok(g, fr, fc, limit, color, tr, tc),
    ensures
        in_bounds(tr, tc),
{
    if ray_hits(g, fr, fc, -1, 1, limit, color, tr, tc) {
        lemma_ray_bounds(g, fr, fc, -1, 1, limit, color, tr, tc);
    } else if ray_hits(g, fr, fc, -1, -1, limit, color, tr, tc) {
        lemma_ray_bounds(g, fr, fc, -1, -1, limit, color, tr, tc);
    } else if ray_hits(g, fr, fc, 1, 1, limit, color, tr, tc) {
        lemma_ray_bounds(g, fr, fc, 1, 1, limit, color, tr, tc);
    } else if ray_hits(g, fr, fc, 1, -1, limit, color, tr, tc) {
        lemma_ray_bounds(g, fr, fc, 1, -1, limit, color, tr, tc);
    } else if ray_hits(g, fr, fc, -1, 0, limit, color, tr, tc) {
        lemma_ray_bounds(g, fr, fc, -1, 0, limit, color, tr, tc);
    } else if ray_hits(g, fr, fc, 1, 0, limit, color, tr, tc) {
        lemma_ray_bounds(g, fr, fc, 1, 0, limit, color, tr, tc);
    } else if ray_hits(g, fr, fc, 0, 1, limit, color, tr, tc) {
        lemma_ray_bounds(g, fr, fc, 0, 1, limit, color, tr, tc);
    } else {
        lemma_ray_bounds(g, fr, fc, 0, -1, limit, color, tr, tc);
    }
}

proof fn knight_bounds(g: Seq<Occ>, fr: int, fc: int, color: bool, tr: int, tc: int)
    requires
        crate::move_generation::knight_move_ok(g, fr, fc, color, tr, tc),
    ensures
        in_bounds(tr, tc),
{
    if ray_hits(g, fr, fc, -1, 2, 1, color, tr, tc) {
        lemma_ray_bounds(g, fr, fc, -1, 2, 1, color, tr, tc);
    } else if ray_hits(g, fr, fc, 1, 2, 1, color, tr, tc) {
        lemma_ray_bounds(g, fr, fc, 1, 2, 1, color, tr, tc);
    } else if ray_hits(g, fr, fc, 2, 1, 1, color, tr, tc) {
        lemma_ray_bounds(g, fr, fc, 2, 1, 1, color, tr, tc);
    } else if ray_hits(g, fr, fc, 2, -1, 1, color, tr, tc) {
        lemma_ray_bounds(g, fr, fc, 2, -1, 1, color, tr, tc);
    } else if ray_hits(g, fr, fc, -1, -2, 1, color, tr, tc) {
        lemma_ray_bounds(g, fr, fc, -1, -2, 1, color, tr, tc);
    } else if ray_hits(g, fr, fc, 1, -2, 1, color, tr, tc) {
        lemma_ray_bounds(g, fr, fc, 1, -2, 1, color, tr, tc);
    } else if ray_hits(g, fr, fc, -2, 1, 1, color, tr, tc) {
        lemma_ray_bounds(g, fr, fc, -2, 1, 1, color, tr, tc);
    } else {
        lemma_ray_bounds(g, fr, fc, -2, -1, 1, color, tr, tc);
    }
}

/// Decides whether side `by` attacks square (r, c), by scanning that
/// side's pseudo-legal moves for one landing there.
pub fn is_square_attacked(board: &Board, r: usize, c: usize, by: bool) -> (res: bool)
    requires
        board.wf(),
        r < 8,
        c < 8,
    ensures
        res == square_attacked(board.grid(), board.last_move, by, r as int, c as int),
{
    let moves = gen_all_moves_for_color(board, by);
    let mut i: usize = 0;
    let mut found = false;
    while i < moves.len()
        invariant
            board.wf(),
            r < 8,
            c < 8,
            i <= moves.view().len(),
            forall|m: Move| #[trigger]
                moves.view().contains(m) <==> move_pseudo_legal(*board, by, m),
            found == (exists|j: int|
                0 <= j < i && (#[trigger] moves.view()[j]).1 == (r, c)),
        decreases moves.view().len() - i,
    {
        let (mf, mt) = moves[i];
        if mt.0 == r && mt.1 == c {
            found = true;
        }
        i += 1;
    }
    proof {
        if found {
            let j = choose|j: int| 0 <= j < moves.view().len() && (#[trigger] moves.view()[j]).1
                == (r, c);
            let m = moves.view()[j];
            assert(moves.view().contains(m));
            assert(pseudo_legal(
                board.grid(),
                board.last_move,
                from_row(m),
                from_col(m),
                by,
                r as int,
                c as int,
            ));
        } else {
            if square_attacked(board.grid(), board.last_move, by, r as int, c as int) {
                let (fr, fc) = choose|fr: int, fc: int|
                    pseudo_legal(board.grid(), board.last_move, fr, fc, by, r as int, c as int);
                let m: Move = (((fr as usize), (fc as usize)), (r, c));
                assert(move_pseudo_legal(*board, by, m));
                assert(moves.view().contains(m));
                let j = choose|j: int| 0 <= j < moves.view().len() && moves.view()[j] == m;
                assert((moves.view()[j]).1 == (r, c));
                assert(false);
            }
        }
    }
    found
}

impl Board {
    /// Recomputes the cached in-check flag of `color`: whether the
    /// opposing side's pseudo-move generator reaches that side's cached
    /// king square. Nothing else changes.
    pub fn update_check_status(&mut self, color: bool)
        requires
            old(self).wf(),
        ensures
            final(self).wf(),
            final(self).grid() == old(self).grid(),
            final(self).squares == old(self).squares,
            final(self).last_move == old(self).last_move,
            final(self).w_king_pos == old(self).w_king_pos,
            final(self).b_king_pos == old(self).b_king_pos,
            final(self).check_flag_of(color) == square_attacked(
                old(self).grid(),
                old(self).last_move,
                !color,
                old(self).king_pos_of(color).0,
                old(self).king_pos_of(color).1,
            ),
            final(self).check_flag_of(!color) == old(self).check_flag_of(!color),
    {
        let kp = if color {
            self.w_king_pos
        } else {
            self.b_king_pos
        };
        let atk = is_square_attacked(self, kp.0, kp.1, !color);
        if color {
            self.w_in_check = atk;
        } else {
            self.b_in_check = atk;
        }
    }
}


/// Absolute difference of two coordinates.
pub open spec fn delta_abs(a: int, b: int) -> int {
    if a >= b {
        a - b
    } else {
        b - a
    }
}

/// The destination holds a piece of the mover's own side.
pub open spec fn own_capture_at(g: Seq<Occ>, color: bool, tr: int, tc: int) -> bool {
    match occ_at(g, tr, tc) {
        Some((p, pc)) => pc == color,
        None => false,
    }
}

/// A pawn of either side stands on (fr, fc).
pub open spec fn is_pawn_at(g: Seq<Occ>, fr: int, fc: int) -> bool {
    match occ_at(g, fr, fc) {
        Some((p, pc)) => p == Piece::P,
        None => false,
    }
}

/// The move validator's geometric acceptance rule: a piece of `color`
/// stands on the source square and the move obeys that piece kind's rule.
/// A bishop, rook or queen follows its full ray rule, so a blocked path or
/// a capture of the mover's own piece is refused; a knight jumps, refused
/// only on an own-piece destination; the king's shape check alone suffices
/// (no own-capture test); pawns follow their full directional rule.
pub open spec fn move_allowed(
    g: Seq<Occ>,
    lm: Option<LastMove>,
    fr: int,
    fc: int,
    color: bool,
    tr: int,
    tc: int,
) -> bool {
    let dra = delta_abs(tr, fr);
    let dca = delta_abs(tc, fc);
    &&& in_bounds(fr, fc)
    &&& in_bounds(tr, tc)
    &&& match occ_at(g, fr, fc) {
        Some((p, pc)) => pc == color && (match p {
            Piece::P => pawn_move_ok(g, lm, fr, fc, color, tr, tc),
            Piece::B => bishop_move_ok(g, fr, fc, color, tr, tc),
            Piece::R => rook_move_ok(g, fr, fc, color, tr, tc),
            Piece::N => ((dra == 2 && dca == 1) || (dra == 1 && dca == 2)) && !own_capture_at(
                g,
                color,
                tr,
                tc,
            ),
            Piece::Q => queen_move_ok(g, fr, fc, color, tr, tc),
            Piece::K => dra <= 1 && dca <= 1 && !(dra == 0 && dca == 0),
        }),
        None => false,
    }
}

/// The accepted move is a pawn reaching its farthest rank, so a promotion
/// choice is owed.
pub open spec fn promotion_required(g: Seq<Occ>, fr: int, fc: int, color: bool, tr: int) -> bool {
    is_pawn_at(g, fr, fc) && tr == promo_row(color)
}

/// A usable promotion choice: one of rook, bishop, knight, queen.
pub open spec fn valid_promo_choice(p: Option<Piece>) -> bool {
    match p {
        Some(q) => q != Piece::K && q != Piece::P,
        None => false,
    }
}

/// What ends up on the destination square: the chosen piece on a
/// successful promotion, otherwise the moving piece itself.
pub open spec fn placed_occ(
    g: Seq<Occ>,
    fr: int,
    fc: int,
    color: bool,
    tr: int,
    promotion: Option<Piece>,
) -> Occ {
    if promotion_required(g, fr, fc, color, tr) && valid_promo_choice(promotion) {
        Some((promotion->0, color))
    } else {
        occ_at(g, fr, fc)
    }
}

/// The grid after executing the move: the source is emptied, `placed`
/// lands on the destination, and an en-passant capture additionally
/// empties the square the captured pawn actually stood on.
pub open spec fn grid_after(
    g: Seq<Occ>,
    lm: Option<LastMove>,
    fr: int,
    fc: int,
    color: bool,
    tr: int,
    tc: int,
    placed: Occ,
) -> Seq<Occ> {
    let g1 = g.update(idx(fr, fc), None).update(idx(tr, tc), placed);
    if is_pawn_at(g, fr, fc) && en_passant_ok(g, lm, fr, fc, color, tr, tc) {
        g1.update(idx(lm->0.position.0 as int, lm->0.position.1 as int), None)
    } else {
        g1
    }
}

/// How the whole board state after an accepted move relates to the state
/// before it: the grid is transformed, the last-move record is set to the
/// destination with the moved piece's kind, the mover's king cache follows
/// a king move, and both in-check flags are recomputed on the new position.
pub open spec fn move_applied(
    pre: Board,
    post: Board,
    fr: int,
    fc: int,
    color: bool,
    tr: int,
    tc: int,
    placed: Occ,
) -> bool {
    let kind = occ_piece(occ_at(pre.grid(), fr, fc));
    &&& post.grid() == grid_after(pre.grid(), pre.last_move, fr, fc, color, tr, tc, placed)
    &&& post.last_move == Some(
        LastMove { position: ((tr as usize), (tc as usize)), piece: kind, color },
    )
    &&& post.w_king_pos == (if color && kind == Piece::K {
        ((tr as usize), (tc as usize))
    } else {
        pre.w_king_pos
    })
    &&& post.b_king_pos == (if !color && kind == Piece::K {
        ((tr as usize), (tc as usize))
    } else {
        pre.b_king_pos
    })
    &&& post.w_in_check == square_attacked(
        post.grid(),
        post.last_move,
        false,
        post.king_pos_of(true).0,
        post.king_pos_of(true).1,
    )
    &&& post.b_in_check == square_attacked(
        post.grid(),
        post.last_move,
        true,
        post.king_pos_of(false).0,
        post.king_pos_of(false).1,
    )
}

/// The three ways a submitted move can come out: applied; rejected with
/// the board untouched (malformed text or an illegal move); or applied but
/// left unpromoted because a required promotion choice was missing or
/// unusable.
#[derive(Clone, Copy, Debug, PartialEq, Eq, Structural)]
pub enum MoveOutcome {
    Applied,
    Rejected,
    PromotionFailed,
}

/// Decides whether the described en-passant capture is available.
fn is_en_passant(board: &Board, from: (usize, usize), to: (usize, usize), color: bool) -> (r:
    bool)
    requires
        board.wf(),
        in_bounds(from.0 as int, from.1 as int),
        in_bounds(to.0 as int, to.1 as int),
    ensures
        r == en_passant_ok(
            board.grid(),
            board.last_move,
            from.0 as int,
            from.1 as int,
            color,
            to.0 as int,
            to.1 as int,
        ),
{
    let dir: isize = if color {
        -1
    } else {
        1
    };
    match board.last_move {
        Some(l) => {
            let dbl: usize = if color {
                3
            } else {
                4
            };
            l.piece == Piece::P && l.color != color && l.position.0 == from.0 && from.0 == dbl
                && l.position.1 < 8 && (l.position.1 + 1 == from.1 || l.position.1 == from.1
                + 1) && to.0 as isize == from.0 as isize + dir && to.1 == l.position.1
                && board.get_square(to.0, to.1).is_none()
        },
        None => false,
    }
}

/// Decides whether a pawn of `color` may move from `from` to `to`:
/// single push, double push, diagonal capture, or en passant.
fn pawn_move_allowed(board: &Board, from: (usize, usize), to: (usize, usize), color: bool) -> (r:
    bool)
    requires
        board.wf(),
        in_bounds(from.0 as int, from.1 as int),
        in_bounds(to.0 as int, to.1 as int),
    ensures
        r == pawn_move_ok(
            board.grid(),
            board.last_move,
            from.0 as int,
            from.1 as int,
            color,
            to.0 as int,
            to.1 as int,
        ),
{
    let dir: isize = if color {
        -1
    } else {
        1
    };
    let fwd = from.0 as isize + dir;
    // single push onto an empty square
    if to.1 == from.1 && to.0 as isize == fwd && board.get_square(to.0, to.1).is_none() {
        return true;
    }
    // double push from the home row
    if to.1 == from.1 && ((color && from.0 == 6) || (!color && from.0 == 1)) && to.0 as isize
        == from.0 as isize + 2 * dir {
        let mid: usize = if color {
            5
        } else {
            2
        };
        if board.get_square(mid, from.1).is_none() && board.get_square(to.0, to.1).is_none() {
            return true;
        }
    }
    // diagonal: a capture, or en passant onto an empty square
    if to.0 as isize == fwd && (to.1 + 1 == from.1 || to.1 == from.1 + 1) {
        match board.get_square(to.0, to.1) {
            Some((p2, pc2)) => {
                if pc2 != color {
                    return true;
                }
            },
            None => {
                if is_en_passant(board, from, to, color) {
                    return true;
                }
            },
        }
    }
    false
}

/// Linear scan deciding membership of a move in a generated vector.
fn vec_contains_move(v: &Vec<Move>, m: Move) -> (r: bool)
    ensures
        r == v.view().contains(m),
{
    let (mf, mt) = m;
    let mut i: usize = 0;
    while i < v.len()
        invariant
            i <= v.view().len(),
            m == (mf, mt),
            forall|j: int| 0 <= j < i ==> v.view()[j] != m,
        decreases v.view().len() - i,
    {
        let (vf, vt) = v[i];
        proof {
            assert(v.view()[i as int] == (vf, vt));
        }
        if vf.0 == mf.0 && vf.1 == mf.1 && vt.0 == mt.0 && vt.1 == mt.1 {
            proof {
                assert(vf == mf && vt == mt);
                assert(v.view()[i as int] == m);
            }
            return true;
        }
        proof {
            assert(v.view()[i as int] != m);
        }
        i += 1;
    }
    proof {
        if v.view().contains(m) {
            let j = choose|j: int| 0 <= j < v.view().len() && v.view()[j] == m;
            assert(false);
        }
    }
    false
}

/// Simulates the execution of the move from `mf` to `mt` on a copy of the
/// board and reports whether the mover's king square is then unattacked.
fn move_escapes_check(board: &Board, mf: (usize, usize), mt: (usize, usize), color: bool) -> (r:
    bool)
    requires
        board.wf(),
        in_bounds(mf.0 as int, mf.1 as int),
        in_bounds(mt.0 as int, mt.1 as int),
    ensures
        r == escapes_check(*board, color, (mf, mt)),
{
    let moved = board.get_square(mf.0, mf.1);
    let kind = match moved {
        Some((k2, c2)) => k2,
        None => Piece::P,
    };
    let ep = match moved {
        Some((k2, c2)) => k2 == Piece::P && is_en_passant(board, mf, mt, color),
        None => false,
    };
    let mut sim = board.clone_board();
    sim.set_square(mf.0, mf.1, None);
    sim.set_square(mt.0, mt.1, moved);
    if ep {
        if let Some(l) = board.last_move {
            sim.set_square(l.position.0, l.position.1, None);
        }
    }
    sim.last_move = Some(LastMove { position: mt, piece: kind, color });
    let kp = if kind == Piece::K {
        mt
    } else if color {
        board.w_king_pos
    } else {
        board.b_king_pos
    };
    !is_square_attacked(&sim, kp.0, kp.1, !color)
}

/// Parses a two-token move string, validates it for `color`, and executes
/// it: relocation, capture, en passant, promotion, last-move record, king
/// cache, and the recomputation of both in-check flags. A move is rejected
/// - and the board left exactly as it was - when the text is malformed,
/// when the piece's rule refuses it (for a bishop, rook or queen that
/// includes a blocked path), or when its simulated execution would leave
/// the mover's own king attacked. A legal pawn move onto the farthest rank
/// without a usable promotion choice is applied with the pawn left
/// unpromoted and reported as a promotion failure.
pub fn parse_and_make_move(
    board: &mut Board,
    move_str: &str,
    color: bool,
    promotion: Option<Piece>,
) -> (outcome: MoveOutcome)
    requires
        old(board).wf(),
    ensures
        final(board).wf(),
        outcome == MoveOutcome::Rejected ==> *final(board) == *old(board),
        match crate::notation::spec_parse_move(move_str.view()) {
            None => outcome == MoveOutcome::Rejected,
            Some((f, t)) => {
                if !(move_allowed(
                    old(board).grid(),
                    old(board).last_move,
                    f.0,
                    f.1,
                    color,
                    t.0,
                    t.1,
                ) && escapes_check(
                    *old(board),
                    color,
                    ((((f.0 as usize)), ((f.1 as usize))), (((t.0 as usize)), ((t.1 as usize)))),
                )) {
                    outcome == MoveOutcome::Rejected
                } else {
                    &&& move_applied(
                        *old(board),
                        *final(board),
                        f.0,
                        f.1,
                        color,
                        t.0,
                        t.1,
                        placed_occ(old(board).grid(), f.0, f.1, color, t.0, promotion),
                    )
                    &&& outcome == (if promotion_required(old(board).grid(), f.0, f.1, color, t.0)
                        && !valid_promo_choice(promotion) {
                        MoveOutcome::PromotionFailed
                    } else {
                        MoveOutcome::Applied
                    })
                }
            },
        },
{
    let parsed = crate::notation::parse_move_text(move_str);
    let (from, to) = match parsed {
        Some(ft) => ft,
        None => {
            return MoveOutcome::Rejected;
        },
    };
    proof {
        assert(in_bounds(from.0 as int, from.1 as int));
        assert(in_bounds(to.0 as int, to.1 as int));
    }
    let occ = board.get_square(from.0, from.1);
    let (piece, piece_color) = match occ {
        Some(pp) => pp,
        None => {
            return MoveOutcome::Rejected;
        },
    };
    if piece_color != color {
        return MoveOutcome::Rejected;
    }
    let row_delta = if to.0 >= from.0 {
        to.0 - from.0
    } else {
        from.0 - to.0
    };
    let col_delta = if to.1 >= from.1 {
        to.1 - from.1
    } else {
        from.1 - to.1
    };
    let own_cap = match board.get_square(to.0, to.1) {
        Some((p2, pc2)) => pc2 == color,
        None => false,
    };
    let allowed: bool = match piece {
        Piece::B => vec_contains_move(
            &crate::move_generation::generate_bishop_moves(board, from, color),
            (from, to),
        ),
        Piece::R => vec_contains_move(
            &crate::move_generation::generate_rook_moves(board, from, color),
            (from, to),
        ),
        Piece::N => ((row_delta == 2 && col_delta == 1) || (row_delta == 1 && col_delta == 2))
            && !own_cap,
        Piece::Q => vec_contains_move(
            &crate::move_generation::generate_queen_or_king_moves(board, from, color, 7),
            (from, to),
        ),
        Piece::K => row_delta <= 1 && col_delta <= 1 && !(row_delta == 0 && col_delta == 0),
        Piece::P => pawn_move_allowed(board, from, to, color),
    };
    if !allowed {
        return MoveOutcome::Rejected;
    }
    // the canonical policy: a move that would leave the mover's own king
    // attacked is refused outright
    if !move_escapes_check(board, from, to, color) {
        return MoveOutcome::Rejected;
    }
    let ep = piece == Piece::P && is_en_passant(board, from, to, color);
    let needs_promo = piece == Piece::P && ((color && to.0 == 0) || (!color && to.0 == 7));
    let promo_ok = match promotion {
        Some(q) => q != Piece::K && q != Piece::P,
        None => false,
    };
    let placed: Occ = if needs_promo && promo_ok {
        match promotion {
            Some(q) => Some((q, color)),
            None => occ,
        }
    } else {
        occ
    };
    let lm_saved = board.last_move;
    board.set_square(from.0, from.1, None);
    board.set_square(to.0, to.1, placed);
    if ep {
        if let Some(l) = lm_saved {
            board.set_square(l.position.0, l.position.1, None);
        }
    }
    board.last_move = Some(LastMove { position: to, piece, color });
    if piece == Piece::K {
        if color {
            board.w_king_pos = to;
        } else {
            board.b_king_pos = to;
        }
    }
    board.update_check_status(true);
    board.update_check_status(false);
    if needs_promo && !promo_ok {
        MoveOutcome::PromotionFailed
    } else {
        MoveOutcome::Applied
    }
}


/// The simulated execution of pseudo-legal move `m` (relocation, capture,
/// en passant; a promotion choice cannot affect where pieces stand) leaves
/// the mover's king unattacked.
pub open spec fn escapes_check(b: Board, color: bool, m: Move) -> bool {
    let moved = occ_at(b.grid(), from_row(m), from_col(m));
    let kind = occ_piece(moved);
    let g2 = grid_after(
        b.grid(),
        b.last_move,
        from_row(m),
        from_col(m),
        color,
        to_row(m),
        to_col(m),
        moved,
    );
    let lm2 = Some(LastMove { position: m.1, piece: kind, color });
    let kr = if kind == Piece::K {
        to_row(m)
    } else {
        b.king_pos_of(color).0
    };
    let kc = if kind == Piece::K {
        to_col(m)
    } else {
        b.king_pos_of(color).1
    };
    !square_attacked(g2, lm2, !color, kr, kc)
}

/// Side `color` has at least one legal move: a pseudo-legal move whose
/// simulated execution does not leave its own king attacked.
pub open spec fn has_legal_escape(b: Board, color: bool) -> bool {
    exists|m: Move| move_pseudo_legal(b, color, m) && #[trigger] escapes_check(b, color, m)
}

impl Board {
    /// Decides whether `color` has any legal move, by simulating each
    /// pseudo-legal move on a copy of the board and testing whether the
    /// king square is then attacked.
    pub fn has_any_legal_move(&self, color: bool) -> (r: bool)
        requires
            self.wf(),
        ensures
            r == has_legal_escape(*self, color),
    {
        let moves = gen_all_moves_for_color(self, color);
        let mut i: usize = 0;
        while i < moves.len()
            invariant
                self.wf(),
                i <= moves.view().len(),
                forall|m: Move| #[trigger]
                    moves.view().contains(m) <==> move_pseudo_legal(*self, color, m),
                forall|j: int| 0 <= j < i ==> !escapes_check(*self, color, #[trigger] moves.view()[j]),
            decreases moves.view().len() - i,
        {
            let m = moves[i];
            let (mf, mt) = m;
            proof {
                assert(moves.view().contains(m));
                lemma_pseudo_legal_bounds(
                    self.grid(),
                    self.last_move,
                    mf.0 as int,
                    mf.1 as int,
                    color,
                    mt.0 as int,
                    mt.1 as int,
                );
            }
            if move_escapes_check(self, mf, mt, color) {
                return true;
            }
            i += 1;
        }
        proof {
            if has_legal_escape(*self, color) {
                let m = choose|m: Move|
                    move_pseudo_legal(*self, color, m) && #[trigger] escapes_check(
                        *self,
                        color,
                        m,
                    );
                assert(moves.view().contains(m));
                let j = choose|j: int| 0 <= j < moves.view().len() && moves.view()[j] == m;
                assert(!escapes_check(*self, color, moves.view()[j]));
                assert(false);
            }
        }
        false
    }

    /// Checkmate for `color`: its king square is attacked and no legal
    /// move gets it out.
    pub fn is_checkmate(&self, color: bool) -> (r: bool)
        requires
            self.wf(),
        ensures
            r == (square_attacked(
                self.grid(),
                self.last_move,
                !color,
                self.king_pos_of(color).0,
                self.king_pos_of(color).1,
            ) && !has_legal_escape(*self, color)),
    {
        let kp = if color {
            self.w_king_pos
        } else {
            self.b_king_pos
        };
        let in_chk = is_square_attacked(self, kp.0, kp.1, !color);
        in_chk && !self.has_any_legal_move(color)
    }

    /// Stalemate for `color`: its king square is not attacked, yet it has
    /// no legal move.
    pub fn is_stalemate(&self, color: bool) -> (r: bool)
        requires
            self.wf(),
        ensures
            r == (!square_attacked(
                self.grid(),
                self.last_move,
                !color,
                self.king_pos_of(color).0,
                self.king_pos_of(color).1,
            ) && !has_legal_escape(*self, color)),
    {
        let kp = if color {
            self.w_king_pos
        } else {
            self.b_king_pos
        };
        let in_chk = is_square_attacked(self, kp.0, kp.1, !color);
        !in_chk && !self.has_any_legal_move(color)
    }
}


/// A king of either side stands on (r, c).
pub open spec fn is_king_at(g: Seq<Occ>, r: int, c: int) -> bool {
    match occ_at(g, r, c) {
        Some((p, pc)) => p == Piece::K,
        None => false,
    }
}

/// Executing an accepted move preserves the board's king invariant: as
/// long as the move does not capture a king (and an en-passant capture
/// removes no king), each side's cached king coordinate still points at
/// its unique king afterwards.
pub proof fn lemma_kings_consistent_preserved(
    pre: Board,
    post: Board,
    fr: int,
    fc: int,
    color: bool,
    tr: int,
    tc: int,
    promotion: Option<Piece>,
)
    requires
        pre.wf(),
        post.wf(),
        pre.kings_consistent(),
        move_allowed(pre.grid(), pre.last_move, fr, fc, color, tr, tc),
        move_applied(
            pre,
            post,
            fr,
            fc,
            color,
            tr,
            tc,
            placed_occ(pre.grid(), fr, fc, color, tr, promotion),
        ),
        !is_king_at(pre.grid(), tr, tc),
        pre.last_move matches Some(l) ==> !is_king_at(
            pre.grid(),
            l.position.0 as int,
            l.position.1 as int,
        ),
    ensures
        post.kings_consistent(),
{
    let g = pre.grid();
    let placed = placed_occ(g, fr, fc, color, tr, promotion);
    let g2 = post.grid();
    let kind = occ_piece(occ_at(g, fr, fc));
    assert(forall|r: int, c: int|
        in_bounds(r, c) && in_bounds(fr, fc) && (r != fr || c != fc) && (r != tr || c != tc)
            && (pre.last_move matches Some(l) ==> !(r == l.position.0 as int && c
            == l.position.1 as int)) ==> #[trigger] occ_at(g2, r, c) == occ_at(g, r, c)) by {
        assert forall|r: int, c: int|
            in_bounds(r, c) && in_bounds(fr, fc) && (r != fr || c != fc) && (r != tr || c != tc)
                && (pre.last_move matches Some(l) ==> !(r == l.position.0 as int && c
                == l.position.1 as int)) implies #[trigger] occ_at(g2, r, c) == occ_at(
            g,
            r,
            c,
        ) by {
            assert(idx(r, c) != idx(fr, fc) && idx(r, c) != idx(tr, tc));
        }
    }
    assert(occ_at(g2, tr, tc) == placed);
    if kind == Piece::K {
        assert(placed == occ_at(g, fr, fc));
    }
}


/// A ray target lies a whole number of steps along the direction and does
/// not hold a piece of the moving side.
proof fn lemma_ray_delta(
    g: Seq<Occ>,
    r: int,
    c: int,
    dr: int,
    dc: int,
    limit: int,
    color: bool,
    tr: int,
    tc: int,
)
    requires
        ray_hits(g, r, c, dr, dc, limit, color, tr, tc),
    ensures
        exists|k: int| 1 <= k <= limit && #[trigger] (k * dr) == tr - r && k * dc == tc - c,
        !own_capture_at(g, color, tr, tc),
    decreases limit,
{
    let nr = r + dr;
    let nc = c + dc;
    if nr == tr && nc == tc {
        assert(1 * dr == tr - r && 1 * dc == tc - c) by (nonlinear_arith)
            requires
                nr == tr && nc == tc && nr == r + dr && nc == c + dc,
        ;
    } else {
        lemma_ray_delta(g, nr, nc, dr, dc, limit - 1, color, tr, tc);
        let k0 = choose|k: int| 1 <= k <= limit - 1 && #[trigger] (k * dr) == tr - nr && k * dc
            == tc - nc;
        assert((k0 + 1) * dr == tr - r && (k0 + 1) * dc == tc - c) by (nonlinear_arith)
            requires
                k0 * dr == tr - nr && k0 * dc == tc - nc && nr == r + dr && nc == c + dc,
        ;
    }
}

/// Every pseudo-legal move satisfies the validator's geometric rule:
/// what the generator produces, move submission accepts, up to the
/// self-check filter.
pub proof fn lemma_pseudo_legal_accepted(
    g: Seq<Occ>,
    lm: Option<LastMove>,
    fr: int,
    fc: int,
    color: bool,
    tr: int,
    tc: int,
)
    requires
        pseudo_legal(g, lm, fr, fc, color, tr, tc),
    ensures
        move_allowed(g, lm, fr, fc, color, tr, tc),
{
    lemma_pseudo_legal_bounds(g, lm, fr, fc, color, tr, tc);
    match occ_at(g, fr, fc) {
        Some((p, pc)) => {
            match p {
                Piece::P => {
                },
                Piece::N => {
                    knight_accepted(g, fr, fc, color, tr, tc);
                },
                Piece::B => {
                },
                Piece::R => {
                },
                Piece::Q => {
                },
                Piece::K => {
                    king_accepted(g, fr, fc, color, tr, tc);
                },
            }
        },
        None => {
        },
    }
}

proof fn king_accepted(g: Seq<Occ>, fr: int, fc: int, color: bool, tr: int, tc: int)
    requires
        crate::move_generation::king_move_ok(g, fr, fc, color, tr, tc),
    ensures
        delta_abs(tr, fr) <= 1 && delta_abs(tc, fc) <= 1 && !(delta_abs(tr, fr) == 0
            && delta_abs(tc, fc) == 0),
{
    if ray_hits(g, fr, fc, -1, 1, 1, color, tr, tc) {
        lemma_ray_delta(g, fr, fc, -1, 1, 1, color, tr, tc);
    } else if ray_hits(g, fr, fc, -1, -1, 1, color, tr, tc) {
        lemma_ray_delta(g, fr, fc, -1, -1, 1, color, tr, tc);
    } else if ray_hits(g, fr, fc, 1, 1, 1, color, tr, tc) {
        lemma_ray_delta(g, fr, fc, 1, 1, 1, color, tr, tc);
    } else if ray_hits(g, fr, fc, 1, -1, 1, color, tr, tc) {
        lemma_ray_delta(g, fr, fc, 1, -1, 1, color, tr, tc);
    } else if ray_hits(g, fr, fc, -1, 0, 1, color, tr, tc) {
        lemma_ray_delta(g, fr, fc, -1, 0, 1, color, tr, tc);
    } else if ray_hits(g, fr, fc, 1, 0, 1, color, tr, tc) {
        lemma_ray_delta(g, fr, fc, 1, 0, 1, color, tr, tc);
    } else if ray_hits(g, fr, fc, 0, 1, 1, color, tr, tc) {
        lemma_ray_delta(g, fr, fc, 0, 1, 1, color, tr, tc);
    } else {
        lemma_ray_delta(g, fr, fc, 0, -1, 1, color, tr, tc);
    }
}

proof fn knight_accepted(g: Seq<Occ>, fr: int, fc: int, color: bool, tr: int, tc: int)
    requires
        crate::move_generation::knight_move_ok(g, fr, fc, color, tr, tc),
    ensures
        ((delta_abs(tr, fr) == 2 && delta_abs(tc, fc) == 1) || (delta_abs(tr, fr) == 1
            && delta_abs(tc, fc) == 2)) && !own_capture_at(g, color, tr, tc),
{
    if ray_hits(g, fr, fc, -1, 2, 1, color, tr, tc) {
        lemma_ray_delta(g, fr, fc, -1, 2, 1, color, tr, tc);
    } else if ray_hits(g, fr, fc, 1, 2, 1, color, tr, tc) {
        lemma_ray_delta(g, fr, fc, 1, 2, 1, color, tr, tc);
    } else if ray_hits(g, fr, fc, 2, 1, 1, color, tr, tc) {
        lemma_ray_delta(g, fr, fc, 2, 1, 1, color, tr, tc);
    } else if ray_hits(g, fr, fc, 2, -1, 1, color, tr, tc) {
        lemma_ray_delta(g, fr, fc, 2, -1, 1, color, tr, tc);
    } else if ray_hits(g, fr, fc, -1, -2, 1, color, tr, tc) {
        lemma_ray_delta(g, fr, fc, -1, -2, 1, color, tr, tc);
    } else if ray_hits(g, fr, fc, 1, -2, 1, color, tr, tc) {
        lemma_ray_delta(g, fr, fc, 1, -2, 1, color, tr, tc);
    } else if ray_hits(g, fr, fc, -2, 1, 1, color, tr, tc) {
        lemma_ray_delta(g, fr, fc, -2, 1, 1, color, tr, tc);
    } else {
        lemma_ray_delta(g, fr, fc, -2, -1, 1, color, tr, tc);
    }
}

} // verus!
