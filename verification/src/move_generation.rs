use vstd::prelude::*;

use crate::board::Board;
use crate::board::LastMove;
use crate::board::Occ;
use crate::board::Piece;
use crate::board::occ_at;
use crate::in_bounds;
use crate::Move;

verus! {

broadcast use vstd::seq_lib::group_seq_properties;

/// True when the square (tr, tc) can be reached from (r, c) by stepping
/// repeatedly by (dr, dc), at most `limit` steps, over empty squares only,
/// stopping at the board edge, before a piece of `color`, and on (and
/// including) a capture of an enemy piece.
pub open spec fn ray_hits(
    g: Seq<Occ>,
    r: int,
    c: int,
    dr: int,
    dc: int,
    limit: int,
    color: bool,
    tr: int,
    tc: int,
) -> bool
    decreases limit,
{
    if limit <= 0 {
        false
    } else {
        let nr = r + dr;
        let nc = c + dc;
        if !in_bounds(nr, nc) {
            false
        } else {
            match occ_at(g, nr, nc) {
                None => (nr == tr && nc == tc) || ray_hits(
                    g,
                    nr,
                    nc,
                    dr,
                    dc,
                    limit - 1,
                    color,
                    tr,
                    tc,
                ),
                Some((p, pc)) => nr == tr && nc == tc && pc != color,
            }
        }
    }
}

/// A rook move: a ray along one of the four orthogonal directions.
pub open spec fn rook_move_ok(g: Seq<Occ>, fr: int, fc: int, color: bool, tr: int, tc: int) -> bool {
    ||| ray_hits(g, fr, fc, -1, 0, 7, color, tr, tc)
    ||| ray_hits(g, fr, fc, 1, 0, 7, color, tr, tc)
    ||| ray_hits(g, fr, fc, 0, 1, 7, color, tr, tc)
    ||| ray_hits(g, fr, fc, 0, -1, 7, color, tr, tc)
}

/// A bishop move: a ray along one of the four diagonal directions.
pub open spec fn bishop_move_ok(g: Seq<Occ>, fr: int, fc: int, color: bool, tr: int, tc: int) -> bool {
    ||| ray_hits(g, fr, fc, -1, 1, 7, color, tr, tc)
    ||| ray_hits(g, fr, fc, -1, -1, 7, color, tr, tc)
    ||| ray_hits(g, fr, fc, 1, 1, 7, color, tr, tc)
    ||| ray_hits(g, fr, fc, 1, -1, 7, color, tr, tc)
}

/// A queen or king move: a ray along one of all eight directions, of at
/// most `limit` steps (7 for the queen, 1 for the king).
pub open spec fn slide8_ok(
    g: Seq<Occ>,
    fr: int,
    fc: int,
    limit: int,
    color: bool,
    tr: int,
    tc: int,
) -> bool {
    ||| ray_hits(g, fr, fc, -1, 1, limit, color, tr, tc)
    ||| ray_hits(g, fr, fc, -1, -1, limit, color, tr, tc)
    ||| ray_hits(g, fr, fc, 1, 1, limit, color, tr, tc)
    ||| ray_hits(g, fr, fc, 1, -1, limit, color, tr, tc)
    ||| ray_hits(g, fr, fc, -1, 0, limit, color, tr, tc)
    ||| ray_hits(g, fr, fc, 1, 0, limit, color, tr, tc)
    ||| ray_hits(g, fr, fc, 0, 1, limit, color, tr, tc)
    ||| ray_hits(g, fr, fc, 0, -1, limit, color, tr, tc)
}

/// A queen move.
pub open spec fn queen_move_ok(g: Seq<Occ>, fr: int, fc: int, color: bool, tr: int, tc: int) -> bool {
    slide8_ok(g, fr, fc, 7, color, tr, tc)
}

/// A king move: a single step in any of the eight directions.
pub open spec fn king_move_ok(g: Seq<Occ>, fr: int, fc: int, color: bool, tr: int, tc: int) -> bool {
    slide8_ok(g, fr, fc, 1, color, tr, tc)
}

/// A knight move: one of the eight fixed L-shaped jumps, blocked only by a
/// piece of the knight's own side on the destination.
pub open spec fn knight_move_ok(g: Seq<Occ>, fr: int, fc: int, color: bool, tr: int, tc: int) -> bool {
    ||| ray_hits(g, fr, fc, -1, 2, 1, color, tr, tc)
    ||| ray_hits(g, fr, fc, 1, 2, 1, color, tr, tc)
    ||| ray_hits(g, fr, fc, 2, 1, 1, color, tr, tc)
    ||| ray_hits(g, fr, fc, 2, -1, 1, color, tr, tc)
    ||| ray_hits(g, fr, fc, -1, -2, 1, color, tr, tc)
    ||| ray_hits(g, fr, fc, 1, -2, 1, color, tr, tc)
    ||| ray_hits(g, fr, fc, -2, 1, 1, color, tr, tc)
    ||| ray_hits(g, fr, fc, -2, -1, 1, color, tr, tc)
}

/// The row direction a pawn of `color` advances in: White (true) moves
/// toward row 0, Black toward row 7.
pub open spec fn pawn_dir(color: bool) -> int {
    if color {
        -1
    } else {
        1
    }
}

/// The row a pawn of `color` starts on.
pub open spec fn home_row(color: bool) -> int {
    if color {
        6
    } else {
        1
    }
}

/// The farthest row for `color`, where a pawn promotes.
pub open spec fn promo_row(color: bool) -> int {
    if color {
        0
    } else {
        7
    }
}

/// The row a two-square pawn push of `color` lands on.
pub open spec fn double_row(color: bool) -> int {
    if color {
        4
    } else {
        3
    }
}

/// A single pawn push onto the empty square ahead.
pub open spec fn pawn_push_ok(g: Seq<Occ>, fr: int, fc: int, color: bool, tr: int, tc: int) -> bool {
    &&& tc == fc
    &&& tr == fr + pawn_dir(color)
    &&& in_bounds(tr, tc)
    &&& occ_at(g, tr, tc) is None
}

/// A two-square pawn push from the home row over an empty intermediate
/// square onto an empty destination.
pub open spec fn pawn_double_ok(g: Seq<Occ>, fr: int, fc: int, color: bool, tr: int, tc: int) -> bool {
    &&& fr == home_row(color)
    &&& tc == fc
    &&& tr == fr + 2 * pawn_dir(color)
    &&& occ_at(g, fr + pawn_dir(color), fc) is None
    &&& occ_at(g, tr, tc) is None
}

/// A diagonal pawn capture onto a square occupied by the enemy.
pub open spec fn pawn_capture_ok(g: Seq<Occ>, fr: int, fc: int, color: bool, tr: int, tc: int) -> bool {
    &&& tr == fr + pawn_dir(color)
    &&& (tc == fc - 1 || tc == fc + 1)
    &&& in_bounds(tr, tc)
    &&& match occ_at(g, tr, tc) {
        Some((p, pc)) => pc != color,
        None => false,
    }
}

/// An en-passant capture: the opposing side's immediately preceding move
/// was a pawn landing on its two-square-push row beside this pawn, and the
/// capture lands diagonally on the empty square behind that pawn.
pub open spec fn en_passant_ok(
    g: Seq<Occ>,
    lm: Option<LastMove>,
    fr: int,
    fc: int,
    color: bool,
    tr: int,
    tc: int,
) -> bool {
    &&& lm matches Some(l)
    &&& lm->0.piece == Piece::P
    &&& lm->0.color == !color
    &&& lm->0.position.0 as int == fr
    &&& fr == double_row(!color)
    &&& (lm->0.position.1 as int == fc - 1 || lm->0.position.1 as int == fc + 1)
    &&& tr == fr + pawn_dir(color)
    &&& tc == lm->0.position.1 as int
    &&& in_bounds(tr, tc)
    &&& occ_at(g, tr, tc) is None
}

/// Any pseudo-legal pawn move.
pub open spec fn pawn_move_ok(
    g: Seq<Occ>,
    lm: Option<LastMove>,
    fr: int,
    fc: int,
    color: bool,
    tr: int,
    tc: int,
) -> bool {
    ||| pawn_push_ok(g, fr, fc, color, tr, tc)
    ||| pawn_double_ok(g, fr, fc, color, tr, tc)
    ||| pawn_capture_ok(g, fr, fc, color, tr, tc)
    ||| en_passant_ok(g, lm, fr, fc, color, tr, tc)
}

/// The geometric move rule of piece kind `p`.
pub open spec fn piece_move_ok(
    g: Seq<Occ>,
    lm: Option<LastMove>,
    p: Piece,
    fr: int,
    fc: int,
    color: bool,
    tr: int,
    tc: int,
) -> bool {
    match p {
        Piece::P => pawn_move_ok(g, lm, fr, fc, color, tr, tc),
        Piece::N => knight_move_ok(g, fr, fc, color, tr, tc),
        Piece::B => bishop_move_ok(g, fr, fc, color, tr, tc),
        Piece::R => rook_move_ok(g, fr, fc, color, tr, tc),
        Piece::Q => queen_move_ok(g, fr, fc, color, tr, tc),
        Piece::K => king_move_ok(g, fr, fc, color, tr, tc),
    }
}

/// A pseudo-legal move of `color`: a piece of that side stands on the
/// source square and the move obeys its geometric rule. Whether the mover's
/// own king is left in check is deliberately ignored here.
pub open spec fn pseudo_legal(
    g: Seq<Occ>,
    lm: Option<LastMove>,
    fr: int,
    fc: int,
    color: bool,
    tr: int,
    tc: int,
) -> bool {
    &&& in_bounds(fr, fc)
    &&& match occ_at(g, fr, fc) {
        Some((p, pc)) => pc == color && piece_move_ok(g, lm, p, fr, fc, color, tr, tc),
        None => false,
    }
}

/// The source row of a move, as a mathematical integer.
pub open spec fn from_row(m: Move) -> int {
    let (f, t) = m;
    f.0 as int
}

/// The source column of a move.
pub open spec fn from_col(m: Move) -> int {
    let (f, t) = m;
    f.1 as int
}

/// The destination row of a move.
pub open spec fn to_row(m: Move) -> int {
    let (f, t) = m;
    t.0 as int
}

/// The destination column of a move.
pub open spec fn to_col(m: Move) -> int {
    let (f, t) = m;
    t.1 as int
}

/// `pseudo_legal` restated over a `Move` value of a board.
pub open spec fn move_pseudo_legal(b: Board, color: bool, m: Move) -> bool {
    pseudo_legal(b.grid(), b.last_move, from_row(m), from_col(m), color, to_row(m), to_col(m))
}

/// The squares a walk in one direction visits, in step order: each empty
/// square stepped onto, ending with the square of an enemy piece if one
/// stops the walk, and nothing past the board edge, a piece of `color`,
/// or `limit` steps.
pub open spec fn ray_targets(
    g: Seq<Occ>,
    r: int,
    c: int,
    dr: int,
    dc: int,
    limit: int,
    color: bool,
) -> Seq<(usize, usize)>
    decreases limit,
{
    if limit <= 0 {
        Seq::empty()
    } else {
        let nr = r + dr;
        let nc = c + dc;
        if !in_bounds(nr, nc) {
            Seq::empty()
        } else {
            match occ_at(g, nr, nc) {
                None => seq![(((nr as usize)), ((nc as usize)))] + ray_targets(
                    g,
                    nr,
                    nc,
                    dr,
                    dc,
                    limit - 1,
                    color,
                ),
                Some((p, pc)) => if pc != color {
                    seq![(((nr as usize)), ((nc as usize)))]
                } else {
                    Seq::empty()
                },
            }
        }
    }
}

/// Pairs each destination square with a fixed source square, giving a move.
pub open spec fn with_source(from: (usize, usize)) -> spec_fn((usize, usize)) -> Move {
    |t: (usize, usize)| (from, t)
}

/// A square of a walk is on the board and coincides with `ray_hits`.
pub proof fn lemma_ray_targets_mem(
    g: Seq<Occ>,
    r: int,
    c: int,
    dr: int,
    dc: int,
    limit: int,
    color: bool,
    tr: usize,
    tc: usize,
)
    ensures
        ray_targets(g, r, c, dr, dc, limit, color).contains((tr, tc)) == ray_hits(
            g,
            r,
            c,
            dr,
            dc,
            limit,
            color,
            tr as int,
            tc as int,
        ),
    decreases limit,
{
    if limit > 0 {
        let nr = r + dr;
        let nc = c + dc;
        if in_bounds(nr, nc) {
            let head = seq![(((nr as usize)), ((nc as usize)))];
            assert(head[0] == (((nr as usize)), ((nc as usize))));
            match occ_at(g, nr, nc) {
                None => {
                    lemma_ray_targets_mem(g, nr, nc, dr, dc, limit - 1, color, tr, tc);
                },
                Some((p, pc)) => {
                },
            }
        }
    }
}

/// Each square of a walk lies strictly beyond the start in the walked
/// direction (or on the same row or column for a zero component).
spec fn beyond(t: (usize, usize), r: int, c: int, dr: int, dc: int) -> bool {
    &&& in_bounds(t.0 as int, t.1 as int)
    &&& (if dr > 0 {
        (t.0 as int) > r
    } else if dr < 0 {
        (t.0 as int) < r
    } else {
        (t.0 as int) == r
    })
    &&& (if dc > 0 {
        (t.1 as int) > c
    } else if dc < 0 {
        (t.1 as int) < c
    } else {
        (t.1 as int) == c
    })
}

proof fn lemma_ray_targets_span(g: Seq<Occ>, r: int, c: int, dr: int, dc: int, limit: int, color: bool)
    ensures
        forall|i: int|
            0 <= i < ray_targets(g, r, c, dr, dc, limit, color).len() ==> beyond(
                #[trigger] ray_targets(g, r, c, dr, dc, limit, color)[i],
                r,
                c,
                dr,
                dc,
            ),
    decreases limit,
{
    if limit > 0 {
        let nr = r + dr;
        let nc = c + dc;
        if in_bounds(nr, nc) {
            let full = ray_targets(g, r, c, dr, dc, limit, color);
            match occ_at(g, nr, nc) {
                None => {
                    lemma_ray_targets_span(g, nr, nc, dr, dc, limit - 1, color);
                    let tail = ray_targets(g, nr, nc, dr, dc, limit - 1, color);
                    assert forall|i: int| 0 <= i < full.len() implies beyond(
                        #[trigger] full[i],
                        r,
                        c,
                        dr,
                        dc,
                    ) by {
                        if i == 0 {
                            assert(full[0] == (((nr as usize)), ((nc as usize))));
                        } else {
                            assert(full[i] == tail[i - 1]);
                            assert(beyond(tail[i - 1], nr, nc, dr, dc));
                        }
                    }
                },
                Some((p, pc)) => {
                    if pc != color {
                        assert(full[0] == (((nr as usize)), ((nc as usize))));
                    }
                },
            }
        }
    }
}

/// A walk never visits the same square twice.
proof fn lemma_ray_targets_no_dup(
    g: Seq<Occ>,
    r: int,
    c: int,
    dr: int,
    dc: int,
    limit: int,
    color: bool,
)
    requires
        !(dr == 0 && dc == 0),
    ensures
        ray_targets(g, r, c, dr, dc, limit, color).no_duplicates(),
    decreases limit,
{
    if limit > 0 {
        let nr = r + dr;
        let nc = c + dc;
        if in_bounds(nr, nc) && occ_at(g, nr, nc) is None {
            lemma_ray_targets_no_dup(g, nr, nc, dr, dc, limit - 1, color);
            lemma_ray_targets_span(g, nr, nc, dr, dc, limit - 1, color);
        }
    }
}

/// A walk of a single step visits only the square one step away.
proof fn lemma_ray_targets_single(g: Seq<Occ>, r: int, c: int, dr: int, dc: int, color: bool)
    ensures
        ray_targets(g, r, c, dr, dc, 1, color).len() <= 1,
        forall|i: int|
            0 <= i < ray_targets(g, r, c, dr, dc, 1, color).len() ==> ((#[trigger] ray_targets(
                g,
                r,
                c,
                dr,
                dc,
                1,
                color,
            )[i]).0 as int == r + dr && (ray_targets(g, r, c, dr, dc, 1, color)[i]).1 as int == c
                + dc),
{
    assert(ray_targets(g, r + dr, c + dc, dr, dc, 0, color) =~= Seq::<(usize, usize)>::empty());
}

/// Pairing destinations with one fixed source never identifies two
/// destinations.
proof fn lemma_with_source_injective(from: (usize, usize))
    ensures
        vstd::relations::injective(with_source(from)),
{
    assert forall|t1: (usize, usize), t2: (usize, usize)|
        #[trigger] with_source(from)(t1) == #[trigger] with_source(from)(t2) implies t1
        == t2 by {
        assert(with_source(from)(t1) == (from, t1));
        assert(with_source(from)(t2) == (from, t2));
    }
}

/// A duplicate-free destination sequence stays duplicate-free when each
/// destination is paired with the source square.
proof fn lemma_map_no_dup(s: Seq<(usize, usize)>, from: (usize, usize))
    requires
        s.no_duplicates(),
    ensures
        s.map_values(with_source(from)).no_duplicates(),
{
    lemma_with_source_injective(from);
    s.lemma_no_duplicates_injective(with_source(from));
}

/// Concatenating duplicate-free, disjoint sequences yields a
/// duplicate-free sequence.
proof fn lemma_no_dup_concat<A>(a: Seq<A>, b: Seq<A>)
    requires
        a.no_duplicates(),
        b.no_duplicates(),
        a.disjoint(b),
    ensures
        (a + b).no_duplicates(),
{
    assert forall|i: int, j: int|
        0 <= i < (a + b).len() && 0 <= j < (a + b).len() && i != j implies (a + b)[i] != (a
        + b)[j] by {
        if i < a.len() && j >= a.len() {
            assert(a[i] != b[j - a.len()]);
        } else if j < a.len() && i >= a.len() {
            assert(a[j] != b[i - a.len()]);
        }
    }
}

/// Walks one direction from `from`, appending exactly the squares the walk
/// visits, in step order, to the end of the vector.
pub fn add_moves_in_direction(
    board: &Board,
    from: (usize, usize),
    dr: isize,
    dc: isize,
    limit: usize,
    color: bool,
    moves: &mut Vec<Move>,
)
    requires
        board.wf(),
        in_bounds(from.0 as int, from.1 as int),
        -2 <= dr as int <= 2,
        -2 <= dc as int <= 2,
        !(dr == 0 && dc == 0),
        limit <= 7,
    ensures
        final(moves).view() == old(moves).view() + ray_targets(
            board.grid(),
            from.0 as int,
            from.1 as int,
            dr as int,
            dc as int,
            limit as int,
            color,
        ).map_values(with_source(from)),
        forall|m: Move| #[trigger]
            final(moves).view().contains(m) <==> old(moves).view().contains(m) || (m.0 == from
                && ray_hits(
                board.grid(),
                from.0 as int,
                from.1 as int,
                dr as int,
                dc as int,
                limit as int,
                color,
                to_row(m),
                to_col(m),
            )),
{
    let ghost g = board.grid();
    let ghost orig = moves.view();
    let ghost full = ray_targets(
        g,
        from.0 as int,
        from.1 as int,
        dr as int,
        dc as int,
        limit as int,
        color,
    );
    let mut r = from.0;
    let mut c = from.1;
    let mut steps: usize = 0;
    let ghost mut added: Seq<(usize, usize)> = Seq::empty();
    proof {
        assert(moves.view() =~= orig + added.map_values(with_source(from)));
        assert(full =~= added + ray_targets(
            g,
            r as int,
            c as int,
            dr as int,
            dc as int,
            limit - steps,
            color,
        ));
    }
    loop
        invariant_except_break
            steps <= limit,
            in_bounds(r as int, c as int),
            full == added + ray_targets(
                g,
                r as int,
                c as int,
                dr as int,
                dc as int,
                limit - steps,
                color,
            ),
        invariant
            board.wf(),
            g == board.grid(),
            orig == old(moves).view(),
            full == ray_targets(
                g,
                from.0 as int,
                from.1 as int,
                dr as int,
                dc as int,
                limit as int,
                color,
            ),
            in_bounds(from.0 as int, from.1 as int),
            -2 <= dr as int <= 2,
            -2 <= dc as int <= 2,
            !(dr == 0 && dc == 0),
            limit <= 7,
            moves.view() == orig + added.map_values(with_source(from)),
        ensures
            moves.view() == orig + full.map_values(with_source(from)),
        decreases limit - steps,
    {
        if steps >= limit {
            proof {
                assert(ray_targets(g, r as int, c as int, dr as int, dc as int, limit - steps, color)
                    =~= Seq::<(usize, usize)>::empty());
                assert(full =~= added);
            }
            break;
        }
        let nr_i = r as isize + dr;
        let nc_i = c as isize + dc;
        if nr_i < 0 || nr_i >= 8 || nc_i < 0 || nc_i >= 8 {
            proof {
                assert(ray_targets(g, r as int, c as int, dr as int, dc as int, limit - steps, color)
                    =~= Seq::<(usize, usize)>::empty());
                assert(full =~= added);
            }
            break;
        }
        let nr = nr_i as usize;
        let nc = nc_i as usize;
        match board.get_square(nr, nc) {
            None => {
                let ghost r0 = r;
                let ghost c0 = c;
                let ghost s0 = steps;
                moves.push((from, (nr, nc)));
                r = nr;
                c = nc;
                steps = steps + 1;
                proof {
                    assert(ray_targets(g, r0 as int, c0 as int, dr as int, dc as int, limit - s0, color)
                        == seq![(nr, nc)] + ray_targets(
                        g,
                        nr as int,
                        nc as int,
                        dr as int,
                        dc as int,
                        limit - s0 - 1,
                        color,
                    ));
                    assert(ray_targets(g, nr as int, nc as int, dr as int, dc as int, limit - s0 - 1, color)
                        == ray_targets(
                        g,
                        r as int,
                        c as int,
                        dr as int,
                        dc as int,
                        limit - steps,
                        color,
                    ));
                    let ghost prev = added;
                    added = added.push((nr, nc));
                    assert(full =~= added + ray_targets(
                        g,
                        r as int,
                        c as int,
                        dr as int,
                        dc as int,
                        limit - steps,
                        color,
                    ));
                    assert(moves.view() =~= orig + added.map_values(with_source(from)));
                }
            },
            Some((p, pc)) => {
                if pc != color {
                    moves.push((from, (nr, nc)));
                    proof {
                        assert(ray_targets(g, r as int, c as int, dr as int, dc as int, limit - steps, color)
                            == seq![(nr, nc)]);
                        added = added.push((nr, nc));
                        assert(full =~= added);
                        assert(moves.view() =~= orig + added.map_values(with_source(from)));
                    }
                } else {
                    proof {
                        assert(ray_targets(g, r as int, c as int, dr as int, dc as int, limit - steps, color)
                            =~= Seq::<(usize, usize)>::empty());
                        assert(full =~= added);
                    }
                }
                break;
            },
        }
    }
    proof {
        let mapped = full.map_values(with_source(from));
        assert forall|m: Move|
            moves.view().contains(m) <==> (orig.contains(m) || (m.0 == from && ray_hits(
                g,
                from.0 as int,
                from.1 as int,
                dr as int,
                dc as int,
                limit as int,
                color,
                to_row(m),
                to_col(m),
            ))) by {
            let (mf, mt) = m;
            lemma_ray_targets_mem(
                g,
                from.0 as int,
                from.1 as int,
                dr as int,
                dc as int,
                limit as int,
                color,
                mt.0,
                mt.1,
            );
            if moves.view().contains(m) && !orig.contains(m) {
                let i = choose|i: int| 0 <= i < moves.view().len() && moves.view()[i] == m;
                assert(mapped[i - orig.len()] == m);
                assert(full.contains(full[i - orig.len()]));
            }
            if m.0 == from && full.contains(mt) {
                let i = choose|i: int| 0 <= i < full.len() && full[i] == mt;
                assert(mapped[i] == m);
                assert(moves.view()[orig.len() + i] == m);
                assert(moves.view().contains(m));
            }
        }
    }
}


/// The rook's destination squares: the four orthogonal walks, in the order
/// the generator takes them.
pub open spec fn rook_targets(g: Seq<Occ>, fr: int, fc: int, color: bool) -> Seq<(usize, usize)> {
    ray_targets(g, fr, fc, -1, 0, 7, color) + ray_targets(g, fr, fc, 1, 0, 7, color)
        + ray_targets(g, fr, fc, 0, 1, 7, color) + ray_targets(g, fr, fc, 0, -1, 7, color)
}

/// The bishop's destination squares: the four diagonal walks, in order.
pub open spec fn bishop_targets(g: Seq<Occ>, fr: int, fc: int, color: bool) -> Seq<(usize, usize)> {
    ray_targets(g, fr, fc, -1, 1, 7, color) + ray_targets(g, fr, fc, -1, -1, 7, color)
        + ray_targets(g, fr, fc, 1, 1, 7, color) + ray_targets(g, fr, fc, 1, -1, 7, color)
}

/// The queen's or king's destination squares: all eight walks, in order,
/// of at most `limit` steps each.
pub open spec fn slide8_targets(g: Seq<Occ>, fr: int, fc: int, limit: int, color: bool) -> Seq<
    (usize, usize),
> {
    ray_targets(g, fr, fc, -1, 1, limit, color) + ray_targets(g, fr, fc, -1, -1, limit, color)
        + ray_targets(g, fr, fc, 1, 1, limit, color) + ray_targets(g, fr, fc, 1, -1, limit, color)
        + ray_targets(g, fr, fc, -1, 0, limit, color) + ray_targets(g, fr, fc, 1, 0, limit, color)
        + ray_targets(g, fr, fc, 0, 1, limit, color) + ray_targets(g, fr, fc, 0, -1, limit, color)
}

/// The knight's destination squares: the eight single-step jumps, in order.
pub open spec fn knight_targets(g: Seq<Occ>, fr: int, fc: int, color: bool) -> Seq<(usize, usize)> {
    ray_targets(g, fr, fc, -1, 2, 1, color) + ray_targets(g, fr, fc, 1, 2, 1, color)
        + ray_targets(g, fr, fc, 2, 1, 1, color) + ray_targets(g, fr, fc, 2, -1, 1, color)
        + ray_targets(g, fr, fc, -1, -2, 1, color) + ray_targets(g, fr, fc, 1, -2, 1, color)
        + ray_targets(g, fr, fc, -2, 1, 1, color) + ray_targets(g, fr, fc, -2, -1, 1, color)
}

/// No rook walk visits a square twice, across all four directions.
proof fn lemma_rook_targets_no_dup(g: Seq<Occ>, fr: int, fc: int, color: bool)
    ensures
        rook_targets(g, fr, fc, color).no_duplicates(),
{
    let s0 = ray_targets(g, fr, fc, -1, 0, 7, color);
    let s1 = ray_targets(g, fr, fc, 1, 0, 7, color);
    let s2 = ray_targets(g, fr, fc, 0, 1, 7, color);
    let s3 = ray_targets(g, fr, fc, 0, -1, 7, color);
    lemma_ray_targets_no_dup(g, fr, fc, -1, 0, 7, color);
    lemma_ray_targets_span(g, fr, fc, -1, 0, 7, color);
    lemma_ray_targets_no_dup(g, fr, fc, 1, 0, 7, color);
    lemma_ray_targets_span(g, fr, fc, 1, 0, 7, color);
    lemma_ray_targets_no_dup(g, fr, fc, 0, 1, 7, color);
    lemma_ray_targets_span(g, fr, fc, 0, 1, 7, color);
    lemma_ray_targets_no_dup(g, fr, fc, 0, -1, 7, color);
    lemma_ray_targets_span(g, fr, fc, 0, -1, 7, color);
    assert((s0).disjoint(s1)) by {
        assert forall|i: int, j: int|
            0 <= i < (s0).len() && 0 <= j < s1.len() implies (s0)[i] != s1[j] by {
            assert(beyond(s1[j], fr, fc, 1, 0));
            assert(beyond(s0[i], fr, fc, -1, 0));
        }
    }
    lemma_no_dup_concat(s0, s1);
    assert((s0 + s1).disjoint(s2)) by {
        assert forall|i: int, j: int|
            0 <= i < (s0 + s1).len() && 0 <= j < s2.len() implies (s0 + s1)[i] != s2[j] by {
            assert(beyond(s2[j], fr, fc, 0, 1));
            if i < s0.len() {
                assert((s0 + s1)[i] == s0[i]);
                assert(beyond(s0[i], fr, fc, -1, 0));
            } else {
                assert((s0 + s1)[i] == s1[i - (s0.len())]);
                assert(beyond(s1[i - (s0.len())], fr, fc, 1, 0));
            }
        }
    }
    lemma_no_dup_concat(s0 + s1, s2);
    assert((s0 + s1 + s2).disjoint(s3)) by {
        assert forall|i: int, j: int|
            0 <= i < (s0 + s1 + s2).len() && 0 <= j < s3.len() implies (s0 + s1 + s2)[i] != s3[j] by {
            assert(beyond(s3[j], fr, fc, 0, -1));
            if i < s0.len() {
                assert((s0 + s1 + s2)[i] == s0[i]);
                assert(beyond(s0[i], fr, fc, -1, 0));
            } else if i < s0.len() + s1.len() {
                assert((s0 + s1 + s2)[i] == s1[i - (s0.len())]);
                assert(beyond(s1[i - (s0.len())], fr, fc, 1, 0));
            } else {
                assert((s0 + s1 + s2)[i] == s2[i - (s0.len() + s1.len())]);
                assert(beyond(s2[i - (s0.len() + s1.len())], fr, fc, 0, 1));
            }
        }
    }
    lemma_no_dup_concat(s0 + s1 + s2, s3);
}

/// No bishop walk visits a square twice, across all four diagonals.
proof fn lemma_bishop_targets_no_dup(g: Seq<Occ>, fr: int, fc: int, color: bool)
    ensures
        bishop_targets(g, fr, fc, color).no_duplicates(),
{
    let s0 = ray_targets(g, fr, fc, -1, 1, 7, color);
    let s1 = ray_targets(g, fr, fc, -1, -1, 7, color);
    let s2 = ray_targets(g, fr, fc, 1, 1, 7, color);
    let s3 = ray_targets(g, fr, fc, 1, -1, 7, color);
    lemma_ray_targets_no_dup(g, fr, fc, -1, 1, 7, color);
    lemma_ray_targets_span(g, fr, fc, -1, 1, 7, color);
    lemma_ray_targets_no_dup(g, fr, fc, -1, -1, 7, color);
    lemma_ray_targets_span(g, fr, fc, -1, -1, 7, color);
    lemma_ray_targets_no_dup(g, fr, fc, 1, 1, 7, color);
    lemma_ray_targets_span(g, fr, fc, 1, 1, 7, color);
    lemma_ray_targets_no_dup(g, fr, fc, 1, -1, 7, color);
    lemma_ray_targets_span(g, fr, fc, 1, -1, 7, color);
    assert((s0).disjoint(s1)) by {
        assert forall|i: int, j: int|
            0 <= i < (s0).len() && 0 <= j < s1.len() implies (s0)[i] != s1[j] by {
            assert(beyond(s1[j], fr, fc, -1, -1));
            assert(beyond(s0[i], fr, fc, -1, 1));
        }
    }
    lemma_no_dup_concat(s0, s1);
    assert((s0 + s1).disjoint(s2)) by {
        assert forall|i: int, j: int|
            0 <= i < (s0 + s1).len() && 0 <= j < s2.len() implies (s0 + s1)[i] != s2[j] by {
            assert(beyond(s2[j], fr, fc, 1, 1));
            if i < s0.len() {
                assert((s0 + s1)[i] == s0[i]);
                assert(beyond(s0[i], fr, fc, -1, 1));
            } else {
                assert((s0 + s1)[i] == s1[i - (s0.len())]);
                assert(beyond(s1[i - (s0.len())], fr, fc, -1, -1));
            }
        }
    }
    lemma_no_dup_concat(s0 + s1, s2);
    assert((s0 + s1 + s2).disjoint(s3)) by {
        assert forall|i: int, j: int|
            0 <= i < (s0 + s1 + s2).len() && 0 <= j < s3.len() implies (s0 + s1 + s2)[i] != s3[j] by {
            assert(beyond(s3[j], fr, fc, 1, -1));
            if i < s0.len() {
                assert((s0 + s1 + s2)[i] == s0[i]);
                assert(beyond(s0[i], fr, fc, -1, 1));
            } else if i < s0.len() + s1.len() {
                assert((s0 + s1 + s2)[i] == s1[i - (s0.len())]);
                assert(beyond(s1[i - (s0.len())], fr, fc, -1, -1));
            } else {
                assert((s0 + s1 + s2)[i] == s2[i - (s0.len() + s1.len())]);
                assert(beyond(s2[i - (s0.len() + s1.len())], fr, fc, 1, 1));
            }
        }
    }
    lemma_no_dup_concat(s0 + s1 + s2, s3);
}

/// No queen or king walk visits a square twice, across all eight
/// directions.
proof fn lemma_slide8_targets_no_dup(g: Seq<Occ>, fr: int, fc: int, limit: int, color: bool)
    ensures
        slide8_targets(g, fr, fc, limit, color).no_duplicates(),
{
    let s0 = ray_targets(g, fr, fc, -1, 1, limit, color);
    let s1 = ray_targets(g, fr, fc, -1, -1, limit, color);
    let s2 = ray_targets(g, fr, fc, 1, 1, limit, color);
    let s3 = ray_targets(g, fr, fc, 1, -1, limit, color);
    let s4 = ray_targets(g, fr, fc, -1, 0, limit, color);
    let s5 = ray_targets(g, fr, fc, 1, 0, limit, color);
    let s6 = ray_targets(g, fr, fc, 0, 1, limit, color);
    let s7 = ray_targets(g, fr, fc, 0, -1, limit, color);
    lemma_ray_targets_no_dup(g, fr, fc, -1, 1, limit, color);
    lemma_ray_targets_span(g, fr, fc, -1, 1, limit, color);
    lemma_ray_targets_no_dup(g, fr, fc, -1, -1, limit, color);
    lemma_ray_targets_span(g, fr, fc, -1, -1, limit, color);
    lemma_ray_targets_no_dup(g, fr, fc, 1, 1, limit, color);
    lemma_ray_targets_span(g, fr, fc, 1, 1, limit, color);
    lemma_ray_targets_no_dup(g, fr, fc, 1, -1, limit, color);
    lemma_ray_targets_span(g, fr, fc, 1, -1, limit, color);
    lemma_ray_targets_no_dup(g, fr, fc, -1, 0, limit, color);
    lemma_ray_targets_span(g, fr, fc, -1, 0, limit, color);
    lemma_ray_targets_no_dup(g, fr, fc, 1, 0, limit, color);
    lemma_ray_targets_span(g, fr, fc, 1, 0, limit, color);
    lemma_ray_targets_no_dup(g, fr, fc, 0, 1, limit, color);
    lemma_ray_targets_span(g, fr, fc, 0, 1, limit, color);
    lemma_ray_targets_no_dup(g, fr, fc, 0, -1, limit, color);
    lemma_ray_targets_span(g, fr, fc, 0, -1, limit, color);
    assert((s0).disjoint(s1)) by {
        assert forall|i: int, j: int|
            0 <= i < (s0).len() && 0 <= j < s1.len() implies (s0)[i] != s1[j] by {
            assert(beyond(s1[j], fr, fc, -1, -1));
            assert(beyond(s0[i], fr, fc, -1, 1));
        }
    }
    lemma_no_dup_concat(s0, s1);
    assert((s0 + s1).disjoint(s2)) by {
        assert forall|i: int, j: int|
            0 <= i < (s0 + s1).len() && 0 <= j < s2.len() implies (s0 + s1)[i] != s2[j] by {
            assert(beyond(s2[j], fr, fc, 1, 1));
            if i < s0.len() {
                assert((s0 + s1)[i] == s0[i]);
                assert(beyond(s0[i], fr, fc, -1, 1));
            } else {
                assert((s0 + s1)[i] == s1[i - (s0.len())]);
                assert(beyond(s1[i - (s0.len())], fr, fc, -1, -1));
            }
        }
    }
    lemma_no_dup_concat(s0 + s1, s2);
    assert((s0 + s1 + s2).disjoint(s3)) by {
        assert forall|i: int, j: int|
            0 <= i < (s0 + s1 + s2).len() && 0 <= j < s3.len() implies (s0 + s1 + s2)[i] != s3[j] by {
            assert(beyond(s3[j], fr, fc, 1, -1));
            if i < s0.len() {
                assert((s0 + s1 + s2)[i] == s0[i]);
                assert(beyond(s0[i], fr, fc, -1, 1));
            } else if i < s0.len() + s1.len() {
                assert((s0 + s1 + s2)[i] == s1[i - (s0.len())]);
                assert(beyond(s1[i - (s0.len())], fr, fc, -1, -1));
            } else {
                assert((s0 + s1 + s2)[i] == s2[i - (s0.len() + s1.len())]);
                assert(beyond(s2[i - (s0.len() + s1.len())], fr, fc, 1, 1));
            }
        }
    }
    lemma_no_dup_concat(s0 + s1 + s2, s3);
    assert((s0 + s1 + s2 + s3).disjoint(s4)) by {
        assert forall|i: int, j: int|
            0 <= i < (s0 + s1 + s2 + s3).len() && 0 <= j < s4.len() implies (s0 + s1 + s2 + s3)[i] != s4[j] by {
            assert(beyond(s4[j], fr, fc, -1, 0));
            if i < s0.len() {
                assert((s0 + s1 + s2 + s3)[i] == s0[i]);
                assert(beyond(s0[i], fr, fc, -1, 1));
            } else if i < s0.len() + s1.len() {
                assert((s0 + s1 + s2 + s3)[i] == s1[i - (s0.len())]);
                assert(beyond(s1[i - (s0.len())], fr, fc, -1, -1));
            } else if i < s0.len() + s1.len() + s2.len() {
                assert((s0 + s1 + s2 + s3)[i] == s2[i - (s0.len() + s1.len())]);
                assert(beyond(s2[i - (s0.len() + s1.len())], fr, fc, 1, 1));
            } else {
                assert((s0 + s1 + s2 + s3)[i] == s3[i - (s0.len() + s1.len() + s2.len())]);
                assert(beyond(s3[i - (s0.len() + s1.len() + s2.len())], fr, fc, 1, -1));
            }
        }
    }
    lemma_no_dup_concat(s0 + s1 + s2 + s3, s4);
    assert((s0 + s1 + s2 + s3 + s4).disjoint(s5)) by {
        assert forall|i: int, j: int|
            0 <= i < (s0 + s1 + s2 + s3 + s4).len() && 0 <= j < s5.len() implies (s0 + s1 + s2 + s3 + s4)[i] != s5[j] by {
            assert(beyond(s5[j], fr, fc, 1, 0));
            if i < s0.len() {
                assert((s0 + s1 + s2 + s3 + s4)[i] == s0[i]);
                assert(beyond(s0[i], fr, fc, -1, 1));
            } else if i < s0.len() + s1.len() {
                assert((s0 + s1 + s2 + s3 + s4)[i] == s1[i - (s0.len())]);
                assert(beyond(s1[i - (s0.len())], fr, fc, -1, -1));
            } else if i < s0.len() + s1.len() + s2.len() {
                assert((s0 + s1 + s2 + s3 + s4)[i] == s2[i - (s0.len() + s1.len())]);
                assert(beyond(s2[i - (s0.len() + s1.len())], fr, fc, 1, 1));
            } else if i < s0.len() + s1.len() + s2.len() + s3.len() {
                assert((s0 + s1 + s2 + s3 + s4)[i] == s3[i - (s0.len() + s1.len() + s2.len())]);
                assert(beyond(s3[i - (s0.len() + s1.len() + s2.len())], fr, fc, 1, -1));
            } else {
                assert((s0 + s1 + s2 + s3 + s4)[i] == s4[i - (s0.len() + s1.len() + s2.len() + s3.len())]);
                assert(beyond(s4[i - (s0.len() + s1.len() + s2.len() + s3.len())], fr, fc, -1, 0));
            }
        }
    }
    lemma_no_dup_concat(s0 + s1 + s2 + s3 + s4, s5);
    assert((s0 + s1 + s2 + s3 + s4 + s5).disjoint(s6)) by {
        assert forall|i: int, j: int|
            0 <= i < (s0 + s1 + s2 + s3 + s4 + s5).len() && 0 <= j < s6.len() implies (s0 + s1 + s2 + s3 + s4 + s5)[i] != s6[j] by {
            assert(beyond(s6[j], fr, fc, 0, 1));
            if i < s0.len() {
                assert((s0 + s1 + s2 + s3 + s4 + s5)[i] == s0[i]);
                assert(beyond(s0[i], fr, fc, -1, 1));
            } else if i < s0.len() + s1.len() {
                assert((s0 + s1 + s2 + s3 + s4 + s5)[i] == s1[i - (s0.len())]);
                assert(beyond(s1[i - (s0.len())], fr, fc, -1, -1));
            } else if i < s0.len() + s1.len() + s2.len() {
                assert((s0 + s1 + s2 + s3 + s4 + s5)[i] == s2[i - (s0.len() + s1.len())]);
                assert(beyond(s2[i - (s0.len() + s1.len())], fr, fc, 1, 1));
            } else if i < s0.len() + s1.len() + s2.len() + s3.len() {
                assert((s0 + s1 + s2 + s3 + s4 + s5)[i] == s3[i - (s0.len() + s1.len() + s2.len())]);
                assert(beyond(s3[i - (s0.len() + s1.len() + s2.len())], fr, fc, 1, -1));
            } else if i < s0.len() + s1.len() + s2.len() + s3.len() + s4.len() {
                assert((s0 + s1 + s2 + s3 + s4 + s5)[i] == s4[i - (s0.len() + s1.len() + s2.len() + s3.len())]);
                assert(beyond(s4[i - (s0.len() + s1.len() + s2.len() + s3.len())], fr, fc, -1, 0));
            } else {
                assert((s0 + s1 + s2 + s3 + s4 + s5)[i] == s5[i - (s0.len() + s1.len() + s2.len() + s3.len() + s4.len())]);
                assert(beyond(s5[i - (s0.len() + s1.len() + s2.len() + s3.len() + s4.len())], fr, fc, 1, 0));
            }
        }
    }
    lemma_no_dup_concat(s0 + s1 + s2 + s3 + s4 + s5, s6);
    assert((s0 + s1 + s2 + s3 + s4 + s5 + s6).disjoint(s7)) by {
        assert forall|i: int, j: int|
            0 <= i < (s0 + s1 + s2 + s3 + s4 + s5 + s6).len() && 0 <= j < s7.len() implies (s0 + s1 + s2 + s3 + s4 + s5 + s6)[i] != s7[j] by {
            assert(beyond(s7[j], fr, fc, 0, -1));
            if i < s0.len() {
                assert((s0 + s1 + s2 + s3 + s4 + s5 + s6)[i] == s0[i]);
                assert(beyond(s0[i], fr, fc, -1, 1));
            } else if i < s0.len() + s1.len() {
                assert((s0 + s1 + s2 + s3 + s4 + s5 + s6)[i] == s1[i - (s0.len())]);
                assert(beyond(s1[i - (s0.len())], fr, fc, -1, -1));
            } else if i < s0.len() + s1.len() + s2.len() {
                assert((s0 + s1 + s2 + s3 + s4 + s5 + s6)[i] == s2[i - (s0.len() + s1.len())]);
                assert(beyond(s2[i - (s0.len() + s1.len())], fr, fc, 1, 1));
            } else if i < s0.len() + s1.len() + s2.len() + s3.len() {
                assert((s0 + s1 + s2 + s3 + s4 + s5 + s6)[i] == s3[i - (s0.len() + s1.len() + s2.len())]);
                assert(beyond(s3[i - (s0.len() + s1.len() + s2.len())], fr, fc, 1, -1));
            } else if i < s0.len() + s1.len() + s2.len() + s3.len() + s4.len() {
                assert((s0 + s1 + s2 + s3 + s4 + s5 + s6)[i] == s4[i - (s0.len() + s1.len() + s2.len() + s3.len())]);
                assert(beyond(s4[i - (s0.len() + s1.len() + s2.len() + s3.len())], fr, fc, -1, 0));
            } else if i < s0.len() + s1.len() + s2.len() + s3.len() + s4.len() + s5.len() {
                assert((s0 + s1 + s2 + s3 + s4 + s5 + s6)[i] == s5[i - (s0.len() + s1.len() + s2.len() + s3.len() + s4.len())]);
                assert(beyond(s5[i - (s0.len() + s1.len() + s2.len() + s3.len() + s4.len())], fr, fc, 1, 0));
            } else {
                assert((s0 + s1 + s2 + s3 + s4 + s5 + s6)[i] == s6[i - (s0.len() + s1.len() + s2.len() + s3.len() + s4.len() + s5.len())]);
                assert(beyond(s6[i - (s0.len() + s1.len() + s2.len() + s3.len() + s4.len() + s5.len())], fr, fc, 0, 1));
            }
        }
    }
    lemma_no_dup_concat(s0 + s1 + s2 + s3 + s4 + s5 + s6, s7);
}

/// The eight knight jumps land on eight different squares.
proof fn lemma_knight_targets_no_dup(g: Seq<Occ>, fr: int, fc: int, color: bool)
    ensures
        knight_targets(g, fr, fc, color).no_duplicates(),
{
    let s0 = ray_targets(g, fr, fc, -1, 2, 1, color);
    let s1 = ray_targets(g, fr, fc, 1, 2, 1, color);
    let s2 = ray_targets(g, fr, fc, 2, 1, 1, color);
    let s3 = ray_targets(g, fr, fc, 2, -1, 1, color);
    let s4 = ray_targets(g, fr, fc, -1, -2, 1, color);
    let s5 = ray_targets(g, fr, fc, 1, -2, 1, color);
    let s6 = ray_targets(g, fr, fc, -2, 1, 1, color);
    let s7 = ray_targets(g, fr, fc, -2, -1, 1, color);
    lemma_ray_targets_single(g, fr, fc, -1, 2, color);
    lemma_ray_targets_single(g, fr, fc, 1, 2, color);
    lemma_ray_targets_single(g, fr, fc, 2, 1, color);
    lemma_ray_targets_single(g, fr, fc, 2, -1, color);
    lemma_ray_targets_single(g, fr, fc, -1, -2, color);
    lemma_ray_targets_single(g, fr, fc, 1, -2, color);
    lemma_ray_targets_single(g, fr, fc, -2, 1, color);
    lemma_ray_targets_single(g, fr, fc, -2, -1, color);
    assert((s0).disjoint(s1)) by {
        assert forall|i: int, j: int|
            0 <= i < (s0).len() && 0 <= j < s1.len() implies (s0)[i] != s1[j] by {
            assert((s1[j].0 as int) == fr + 1 && (s1[j].1 as int) == fc + 2);
            assert(((s0)[i].0 as int) == fr + -1 && ((s0)[i].1 as int) == fc + 2);
        }
    }
    lemma_no_dup_concat(s0, s1);
    assert((s0 + s1).disjoint(s2)) by {
        assert forall|i: int, j: int|
            0 <= i < (s0 + s1).len() && 0 <= j < s2.len() implies (s0 + s1)[i] != s2[j] by {
            assert((s2[j].0 as int) == fr + 2 && (s2[j].1 as int) == fc + 1);
            if i < s0.len() {
                assert((s0 + s1)[i] == s0[i]);
                assert(((s0 + s1)[i].0 as int) == fr + -1 && ((s0 + s1)[i].1 as int) == fc + 2);
            } else {
                assert((s0 + s1)[i] == s1[i - (s0.len())]);
                assert(((s0 + s1)[i].0 as int) == fr + 1 && ((s0 + s1)[i].1 as int) == fc + 2);
            }
        }
    }
    lemma_no_dup_concat(s0 + s1, s2);
    assert((s0 + s1 + s2).disjoint(s3)) by {
        assert forall|i: int, j: int|
            0 <= i < (s0 + s1 + s2).len() && 0 <= j < s3.len() implies (s0 + s1 + s2)[i] != s3[j] by {
            assert((s3[j].0 as int) == fr + 2 && (s3[j].1 as int) == fc + -1);
            if i < s0.len() {
                assert((s0 + s1 + s2)[i] == s0[i]);
                assert(((s0 + s1 + s2)[i].0 as int) == fr + -1 && ((s0 + s1 + s2)[i].1 as int) == fc + 2);
            } else if i < s0.len() + s1.len() {
                assert((s0 + s1 + s2)[i] == s1[i - (s0.len())]);
                assert(((s0 + s1 + s2)[i].0 as int) == fr + 1 && ((s0 + s1 + s2)[i].1 as int) == fc + 2);
            } else {
                assert((s0 + s1 + s2)[i] == s2[i - (s0.len() + s1.len())]);
                assert(((s0 + s1 + s2)[i].0 as int) == fr + 2 && ((s0 + s1 + s2)[i].1 as int) == fc + 1);
            }
        }
    }
    lemma_no_dup_concat(s0 + s1 + s2, s3);
    assert((s0 + s1 + s2 + s3).disjoint(s4)) by {
        assert forall|i: int, j: int|
            0 <= i < (s0 + s1 + s2 + s3).len() && 0 <= j < s4.len() implies (s0 + s1 + s2 + s3)[i] != s4[j] by {
            assert((s4[j].0 as int) == fr + -1 && (s4[j].1 as int) == fc + -2);
            if i < s0.len() {
                assert((s0 + s1 + s2 + s3)[i] == s0[i]);
                assert(((s0 + s1 + s2 + s3)[i].0 as int) == fr + -1 && ((s0 + s1 + s2 + s3)[i].1 as int) == fc + 2);
            } else if i < s0.len() + s1.len() {
                assert((s0 + s1 + s2 + s3)[i] == s1[i - (s0.len())]);
                assert(((s0 + s1 + s2 + s3)[i].0 as int) == fr + 1 && ((s0 + s1 + s2 + s3)[i].1 as int) == fc + 2);
            } else if i < s0.len() + s1.len() + s2.len() {
                assert((s0 + s1 + s2 + s3)[i] == s2[i - (s0.len() + s1.len())]);
                assert(((s0 + s1 + s2 + s3)[i].0 as int) == fr + 2 && ((s0 + s1 + s2 + s3)[i].1 as int) == fc + 1);
            } else {
                assert((s0 + s1 + s2 + s3)[i] == s3[i - (s0.len() + s1.len() + s2.len())]);
                assert(((s0 + s1 + s2 + s3)[i].0 as int) == fr + 2 && ((s0 + s1 + s2 + s3)[i].1 as int) == fc + -1);
            }
        }
    }
    lemma_no_dup_concat(s0 + s1 + s2 + s3, s4);
    assert((s0 + s1 + s2 + s3 + s4).disjoint(s5)) by {
        assert forall|i: int, j: int|
            0 <= i < (s0 + s1 + s2 + s3 + s4).len() && 0 <= j < s5.len() implies (s0 + s1 + s2 + s3 + s4)[i] != s5[j] by {
            assert((s5[j].0 as int) == fr + 1 && (s5[j].1 as int) == fc + -2);
            if i < s0.len() {
                assert((s0 + s1 + s2 + s3 + s4)[i] == s0[i]);
                assert(((s0 + s1 + s2 + s3 + s4)[i].0 as int) == fr + -1 && ((s0 + s1 + s2 + s3 + s4)[i].1 as int) == fc + 2);
            } else if i < s0.len() + s1.len() {
                assert((s0 + s1 + s2 + s3 + s4)[i] == s1[i - (s0.len())]);
                assert(((s0 + s1 + s2 + s3 + s4)[i].0 as int) == fr + 1 && ((s0 + s1 + s2 + s3 + s4)[i].1 as int) == fc + 2);
            } else if i < s0.len() + s1.len() + s2.len() {
                assert((s0 + s1 + s2 + s3 + s4)[i] == s2[i - (s0.len() + s1.len())]);
                assert(((s0 + s1 + s2 + s3 + s4)[i].0 as int) == fr + 2 && ((s0 + s1 + s2 + s3 + s4)[i].1 as int) == fc + 1);
            } else if i < s0.len() + s1.len() + s2.len() + s3.len() {
                assert((s0 + s1 + s2 + s3 + s4)[i] == s3[i - (s0.len() + s1.len() + s2.len())]);
                assert(((s0 + s1 + s2 + s3 + s4)[i].0 as int) == fr + 2 && ((s0 + s1 + s2 + s3 + s4)[i].1 as int) == fc + -1);
            } else {
                assert((s0 + s1 + s2 + s3 + s4)[i] == s4[i - (s0.len() + s1.len() + s2.len() + s3.len())]);
                assert(((s0 + s1 + s2 + s3 + s4)[i].0 as int) == fr + -1 && ((s0 + s1 + s2 + s3 + s4)[i].1 as int) == fc + -2);
            }
        }
    }
    lemma_no_dup_concat(s0 + s1 + s2 + s3 + s4, s5);
    assert((s0 + s1 + s2 + s3 + s4 + s5).disjoint(s6)) by {
        assert forall|i: int, j: int|
            0 <= i < (s0 + s1 + s2 + s3 + s4 + s5).len() && 0 <= j < s6.len() implies (s0 + s1 + s2 + s3 + s4 + s5)[i] != s6[j] by {
            assert((s6[j].0 as int) == fr + -2 && (s6[j].1 as int) == fc + 1);
            if i < s0.len() {
                assert((s0 + s1 + s2 + s3 + s4 + s5)[i] == s0[i]);
                assert(((s0 + s1 + s2 + s3 + s4 + s5)[i].0 as int) == fr + -1 && ((s0 + s1 + s2 + s3 + s4 + s5)[i].1 as int) == fc + 2);
            } else if i < s0.len() + s1.len() {
                assert((s0 + s1 + s2 + s3 + s4 + s5)[i] == s1[i - (s0.len())]);
                assert(((s0 + s1 + s2 + s3 + s4 + s5)[i].0 as int) == fr + 1 && ((s0 + s1 + s2 + s3 + s4 + s5)[i].1 as int) == fc + 2);
            } else if i < s0.len() + s1.len() + s2.len() {
                assert((s0 + s1 + s2 + s3 + s4 + s5)[i] == s2[i - (s0.len() + s1.len())]);
                assert(((s0 + s1 + s2 + s3 + s4 + s5)[i].0 as int) == fr + 2 && ((s0 + s1 + s2 + s3 + s4 + s5)[i].1 as int) == fc + 1);
            } else if i < s0.len() + s1.len() + s2.len() + s3.len() {
                assert((s0 + s1 + s2 + s3 + s4 + s5)[i] == s3[i - (s0.len() + s1.len() + s2.len())]);
                assert(((s0 + s1 + s2 + s3 + s4 + s5)[i].0 as int) == fr + 2 && ((s0 + s1 + s2 + s3 + s4 + s5)[i].1 as int) == fc + -1);
            } else if i < s0.len() + s1.len() + s2.len() + s3.len() + s4.len() {
                assert((s0 + s1 + s2 + s3 + s4 + s5)[i] == s4[i - (s0.len() + s1.len() + s2.len() + s3.len())]);
                assert(((s0 + s1 + s2 + s3 + s4 + s5)[i].0 as int) == fr + -1 && ((s0 + s1 + s2 + s3 + s4 + s5)[i].1 as int) == fc + -2);
            } else {
                assert((s0 + s1 + s2 + s3 + s4 + s5)[i] == s5[i - (s0.len() + s1.len() + s2.len() + s3.len() + s4.len())]);
                assert(((s0 + s1 + s2 + s3 + s4 + s5)[i].0 as int) == fr + 1 && ((s0 + s1 + s2 + s3 + s4 + s5)[i].1 as int) == fc + -2);
            }
        }
    }
    lemma_no_dup_concat(s0 + s1 + s2 + s3 + s4 + s5, s6);
    assert((s0 + s1 + s2 + s3 + s4 + s5 + s6).disjoint(s7)) by {
        assert forall|i: int, j: int|
            0 <= i < (s0 + s1 + s2 + s3 + s4 + s5 + s6).len() && 0 <= j < s7.len() implies (s0 + s1 + s2 + s3 + s4 + s5 + s6)[i] != s7[j] by {
            assert((s7[j].0 as int) == fr + -2 && (s7[j].1 as int) == fc + -1);
            if i < s0.len() {
                assert((s0 + s1 + s2 + s3 + s4 + s5 + s6)[i] == s0[i]);
                assert(((s0 + s1 + s2 + s3 + s4 + s5 + s6)[i].0 as int) == fr + -1 && ((s0 + s1 + s2 + s3 + s4 + s5 + s6)[i].1 as int) == fc + 2);
            } else if i < s0.len() + s1.len() {
                assert((s0 + s1 + s2 + s3 + s4 + s5 + s6)[i] == s1[i - (s0.len())]);
                assert(((s0 + s1 + s2 + s3 + s4 + s5 + s6)[i].0 as int) == fr + 1 && ((s0 + s1 + s2 + s3 + s4 + s5 + s6)[i].1 as int) == fc + 2);
            } else if i < s0.len() + s1.len() + s2.len() {
                assert((s0 + s1 + s2 + s3 + s4 + s5 + s6)[i] == s2[i - (s0.len() + s1.len())]);
                assert(((s0 + s1 + s2 + s3 + s4 + s5 + s6)[i].0 as int) == fr + 2 && ((s0 + s1 + s2 + s3 + s4 + s5 + s6)[i].1 as int) == fc + 1);
            } else if i < s0.len() + s1.len() + s2.len() + s3.len() {
                assert((s0 + s1 + s2 + s3 + s4 + s5 + s6)[i] == s3[i - (s0.len() + s1.len() + s2.len())]);
                assert(((s0 + s1 + s2 + s3 + s4 + s5 + s6)[i].0 as int) == fr + 2 && ((s0 + s1 + s2 + s3 + s4 + s5 + s6)[i].1 as int) == fc + -1);
            } else if i < s0.len() + s1.len() + s2.len() + s3.len() + s4.len() {
                assert((s0 + s1 + s2 + s3 + s4 + s5 + s6)[i] == s4[i - (s0.len() + s1.len() + s2.len() + s3.len())]);
                assert(((s0 + s1 + s2 + s3 + s4 + s5 + s6)[i].0 as int) == fr + -1 && ((s0 + s1 + s2 + s3 + s4 + s5 + s6)[i].1 as int) == fc + -2);
            } else if i < s0.len() + s1.len() + s2.len() + s3.len() + s4.len() + s5.len() {
                assert((s0 + s1 + s2 + s3 + s4 + s5 + s6)[i] == s5[i - (s0.len() + s1.len() + s2.len() + s3.len() + s4.len())]);
                assert(((s0 + s1 + s2 + s3 + s4 + s5 + s6)[i].0 as int) == fr + 1 && ((s0 + s1 + s2 + s3 + s4 + s5 + s6)[i].1 as int) == fc + -2);
            } else {
                assert((s0 + s1 + s2 + s3 + s4 + s5 + s6)[i] == s6[i - (s0.len() + s1.len() + s2.len() + s3.len() + s4.len() + s5.len())]);
                assert(((s0 + s1 + s2 + s3 + s4 + s5 + s6)[i].0 as int) == fr + -2 && ((s0 + s1 + s2 + s3 + s4 + s5 + s6)[i].1 as int) == fc + 1);
            }
        }
    }
    lemma_no_dup_concat(s0 + s1 + s2 + s3 + s4 + s5 + s6, s7);
}

/// All pseudo-legal rook moves from `from`.
#[verifier::rlimit(100)]
#[verifier::spinoff_prover]
pub fn generate_rook_moves(board: &Board, from: (usize, usize), color: bool) -> (moves: Vec<
    Move,
>)
    requires
        board.wf(),
        in_bounds(from.0 as int, from.1 as int),
    ensures
        moves.view() == rook_targets(board.grid(), from.0 as int, from.1 as int, color).map_values(with_source(from)),
        moves.view().no_duplicates(),
        forall|m: Move| #[trigger]
            moves.view().contains(m) <==> (m.0 == from && rook_move_ok(
                board.grid(),
                from.0 as int,
                from.1 as int,
                color,
                to_row(m),
                to_col(m),
            )),
{
    let ghost g = board.grid();
    let mut moves: Vec<Move> = Vec::new();
    add_moves_in_direction(board, from, -1, 0, 7, color, &mut moves);
    add_moves_in_direction(board, from, 1, 0, 7, color, &mut moves);
    add_moves_in_direction(board, from, 0, 1, 7, color, &mut moves);
    add_moves_in_direction(board, from, 0, -1, 7, color, &mut moves);
    proof {
        assert(moves.view() =~= rook_targets(g, from.0 as int, from.1 as int, color).map_values(with_source(from)));
        lemma_rook_targets_no_dup(g, from.0 as int, from.1 as int, color);
        lemma_map_no_dup(rook_targets(g, from.0 as int, from.1 as int, color), from);
    }
    moves
}

/// All pseudo-legal bishop moves from `from`.
#[verifier::rlimit(100)]
#[verifier::spinoff_prover]
pub fn generate_bishop_moves(board: &Board, from: (usize, usize), color: bool) -> (moves: Vec<
    Move,
>)
    requires
        board.wf(),
        in_bounds(from.0 as int, from.1 as int),
    ensures
        moves.view() == bishop_targets(board.grid(), from.0 as int, from.1 as int, color).map_values(with_source(from)),
        moves.view().no_duplicates(),
        forall|m: Move| #[trigger]
            moves.view().contains(m) <==> (m.0 == from && bishop_move_ok(
                board.grid(),
                from.0 as int,
                from.1 as int,
                color,
                to_row(m),
                to_col(m),
            )),
{
    let ghost g = board.grid();
    let mut moves: Vec<Move> = Vec::new();
    add_moves_in_direction(board, from, -1, 1, 7, color, &mut moves);
    add_moves_in_direction(board, from, -1, -1, 7, color, &mut moves);
    add_moves_in_direction(board, from, 1, 1, 7, color, &mut moves);
    add_moves_in_direction(board, from, 1, -1, 7, color, &mut moves);
    proof {
        assert(moves.view() =~= bishop_targets(g, from.0 as int, from.1 as int, color).map_values(with_source(from)));
        lemma_bishop_targets_no_dup(g, from.0 as int, from.1 as int, color);
        lemma_map_no_dup(bishop_targets(g, from.0 as int, from.1 as int, color), from);
    }
    moves
}

/// All pseudo-legal queen or king moves from `from`: the queen and the king
/// share their eight directions, the king being limited to a single step
/// (`limit` is 7 for the queen, 1 for the king).
#[verifier::rlimit(100)]
#[verifier::spinoff_prover]
pub fn generate_queen_or_king_moves(
    board: &Board,
    from: (usize, usize),
    color: bool,
    limit: usize,
) -> (moves: Vec<Move>)
    requires
        board.wf(),
        in_bounds(from.0 as int, from.1 as int),
        limit <= 7,
    ensures
        moves.view() == slide8_targets(board.grid(), from.0 as int, from.1 as int, limit as int, color).map_values(with_source(from)),
        moves.view().no_duplicates(),
        forall|m: Move| #[trigger]
            moves.view().contains(m) <==> (m.0 == from && slide8_ok(
                board.grid(),
                from.0 as int,
                from.1 as int,
                limit as int,
                color,
                to_row(m),
                to_col(m),
            )),
{
    let ghost g = board.grid();
    let mut moves: Vec<Move> = Vec::new();
    add_moves_in_direction(board, from, -1, 1, limit, color, &mut moves);
    add_moves_in_direction(board, from, -1, -1, limit, color, &mut moves);
    add_moves_in_direction(board, from, 1, 1, limit, color, &mut moves);
    add_moves_in_direction(board, from, 1, -1, limit, color, &mut moves);
    add_moves_in_direction(board, from, -1, 0, limit, color, &mut moves);
    add_moves_in_direction(board, from, 1, 0, limit, color, &mut moves);
    add_moves_in_direction(board, from, 0, 1, limit, color, &mut moves);
    add_moves_in_direction(board, from, 0, -1, limit, color, &mut moves);
    proof {
        assert(moves.view() =~= slide8_targets(g, from.0 as int, from.1 as int, limit as int, color).map_values(with_source(from)));
        lemma_slide8_targets_no_dup(g, from.0 as int, from.1 as int, limit as int, color);
        lemma_map_no_dup(slide8_targets(g, from.0 as int, from.1 as int, limit as int, color), from);
    }
    moves
}

/// All pseudo-legal knight moves from `from`.
#[verifier::rlimit(100)]
#[verifier::spinoff_prover]
pub fn generate_knight_moves(board: &Board, from: (usize, usize), color: bool) -> (moves: Vec<
    Move,
>)
    requires
        board.wf(),
        in_bounds(from.0 as int, from.1 as int),
    ensures
        moves.view() == knight_targets(board.grid(), from.0 as int, from.1 as int, color).map_values(with_source(from)),
        moves.view().no_duplicates(),
        forall|m: Move| #[trigger]
            moves.view().contains(m) <==> (m.0 == from && knight_move_ok(
                board.grid(),
                from.0 as int,
                from.1 as int,
                color,
                to_row(m),
                to_col(m),
            )),
{
    let ghost g = board.grid();
    let mut moves: Vec<Move> = Vec::new();
    add_moves_in_direction(board, from, -1, 2, 1, color, &mut moves);
    add_moves_in_direction(board, from, 1, 2, 1, color, &mut moves);
    add_moves_in_direction(board, from, 2, 1, 1, color, &mut moves);
    add_moves_in_direction(board, from, 2, -1, 1, color, &mut moves);
    add_moves_in_direction(board, from, -1, -2, 1, color, &mut moves);
    add_moves_in_direction(board, from, 1, -2, 1, color, &mut moves);
    add_moves_in_direction(board, from, -2, 1, 1, color, &mut moves);
    add_moves_in_direction(board, from, -2, -1, 1, color, &mut moves);
    proof {
        assert(moves.view() =~= knight_targets(g, from.0 as int, from.1 as int, color).map_values(with_source(from)));
        lemma_knight_targets_no_dup(g, from.0 as int, from.1 as int, color);
        lemma_map_no_dup(knight_targets(g, from.0 as int, from.1 as int, color), from);
    }
    moves
}

/// Disjointness from a third sequence survives concatenation.
proof fn lemma_disjoint_concat_left<A>(a: Seq<A>, b: Seq<A>, c: Seq<A>)
    requires
        a.disjoint(c),
        b.disjoint(c),
    ensures
        (a + b).disjoint(c),
{
    assert forall|i: int, j: int|
        0 <= i < (a + b).len() && 0 <= j < c.len() implies (a + b)[i] != c[j] by {
        if i < a.len() {
            assert(a[i] != c[j]);
        } else {
            assert(b[i - a.len()] != c[j]);
        }
    }
}

/// The pawn's destination squares, in the order the generator produces
/// them: single push, double push, the two diagonal captures, en passant.
pub open spec fn pawn_targets(
    g: Seq<Occ>,
    lm: Option<LastMove>,
    fr: int,
    fc: int,
    color: bool,
) -> Seq<(usize, usize)> {
    let r1 = fr + pawn_dir(color);
    if r1 < 0 || r1 >= 8 {
        Seq::empty()
    } else {
        (if occ_at(g, r1, fc) is None {
            seq![(((r1 as usize)), ((fc as usize)))]
        } else {
            Seq::empty()
        }) + (if fr == home_row(color) && occ_at(g, r1, fc) is None && occ_at(
            g,
            fr + 2 * pawn_dir(color),
            fc,
        ) is None {
            seq![((((fr + 2 * pawn_dir(color)) as usize)), ((fc as usize)))]
        } else {
            Seq::empty()
        }) + (if fc >= 1 {
            match occ_at(g, r1, fc - 1) {
                Some((p, pc)) => if pc != color {
                    seq![(((r1 as usize)), (((fc - 1) as usize)))]
                } else {
                    Seq::empty()
                },
                None => Seq::empty(),
            }
        } else {
            Seq::empty()
        }) + (if fc + 1 < 8 {
            match occ_at(g, r1, fc + 1) {
                Some((p, pc)) => if pc != color {
                    seq![(((r1 as usize)), (((fc + 1) as usize)))]
                } else {
                    Seq::empty()
                },
                None => Seq::empty(),
            }
        } else {
            Seq::empty()
        }) + (match lm {
            Some(l) => if l.piece == Piece::P && l.color != color && l.position.0 as int == fr
                && fr == double_row(!color) && (l.position.1 as int) < 8 && ((l.position.1 as int)
                == fc - 1 || (l.position.1 as int) == fc + 1) && occ_at(
                g,
                r1,
                l.position.1 as int,
            ) is None {
                seq![(((r1 as usize)), l.position.1)]
            } else {
                Seq::empty()
            },
            None => Seq::empty(),
        })
    }
}

/// A pawn's destinations are pairwise distinct: the pushes differ in row,
/// the captures differ in column, and an en-passant square is empty where
/// a capture square is occupied.
#[verifier::rlimit(60)]
proof fn lemma_pawn_targets_no_dup(
    g: Seq<Occ>,
    lm: Option<LastMove>,
    fr: int,
    fc: int,
    color: bool,
)
    requires
        in_bounds(fr, fc),
    ensures
        pawn_targets(g, lm, fr, fc, color).no_duplicates(),
{
    let r1 = fr + pawn_dir(color);
    if !(r1 < 0 || r1 >= 8) {
        let a = (if occ_at(g, r1, fc) is None {
            seq![(((r1 as usize)), ((fc as usize)))]
        } else {
            Seq::<(usize, usize)>::empty()
        });
        let b = (if fr == home_row(color) && occ_at(g, r1, fc) is None && occ_at(
            g,
            fr + 2 * pawn_dir(color),
            fc,
        ) is None {
            seq![((((fr + 2 * pawn_dir(color)) as usize)), ((fc as usize)))]
        } else {
            Seq::<(usize, usize)>::empty()
        });
        let cl = (if fc >= 1 {
            match occ_at(g, r1, fc - 1) {
                Some((p, pc)) => if pc != color {
                    seq![(((r1 as usize)), (((fc - 1) as usize)))]
                } else {
                    Seq::<(usize, usize)>::empty()
                },
                None => Seq::<(usize, usize)>::empty(),
            }
        } else {
            Seq::<(usize, usize)>::empty()
        });
        let cr = (if fc + 1 < 8 {
            match occ_at(g, r1, fc + 1) {
                Some((p, pc)) => if pc != color {
                    seq![(((r1 as usize)), (((fc + 1) as usize)))]
                } else {
                    Seq::<(usize, usize)>::empty()
                },
                None => Seq::<(usize, usize)>::empty(),
            }
        } else {
            Seq::<(usize, usize)>::empty()
        });
        let e = (match lm {
            Some(l) => if l.piece == Piece::P && l.color != color && l.position.0 as int == fr
                && fr == double_row(!color) && (l.position.1 as int) < 8 && ((l.position.1 as int)
                == fc - 1 || (l.position.1 as int) == fc + 1) && occ_at(
                g,
                r1,
                l.position.1 as int,
            ) is None {
                seq![(((r1 as usize)), l.position.1)]
            } else {
                Seq::<(usize, usize)>::empty()
            },
            None => Seq::<(usize, usize)>::empty(),
        });
        assert(pawn_targets(g, lm, fr, fc, color) == a + b + cl + cr + e);
        assert(a.disjoint(b) && a.disjoint(cl) && a.disjoint(cr) && a.disjoint(e));
        assert(b.disjoint(cl) && b.disjoint(cr) && b.disjoint(e));
        assert(cl.disjoint(cr) && cl.disjoint(e));
        assert(cr.disjoint(e));
        lemma_no_dup_concat(a, b);
        lemma_disjoint_concat_left(a, b, cl);
        lemma_no_dup_concat(a + b, cl);
        lemma_disjoint_concat_left(a, b, cr);
        lemma_disjoint_concat_left(a + b, cl, cr);
        lemma_no_dup_concat(a + b + cl, cr);
        lemma_disjoint_concat_left(a, b, e);
        lemma_disjoint_concat_left(a + b, cl, e);
        lemma_disjoint_concat_left(a + b + cl, cr, e);
        lemma_no_dup_concat(a + b + cl + cr, e);
    }
}

/// All pseudo-legal pawn moves from `from`: single push, double push from
/// the home row, diagonal captures, and en passant.
#[verifier::rlimit(100)]
#[verifier::spinoff_prover]
pub fn generate_pawn_moves(board: &Board, from: (usize, usize), color: bool) -> (moves: Vec<
    Move,
>)
    requires
        board.wf(),
        in_bounds(from.0 as int, from.1 as int),
    ensures
        moves.view() == pawn_targets(
            board.grid(),
            board.last_move,
            from.0 as int,
            from.1 as int,
            color,
        ).map_values(with_source(from)),
        moves.view().no_duplicates(),
        forall|m: Move| #[trigger]
            moves.view().contains(m) <==> (m.0 == from && pawn_move_ok(
                board.grid(),
                board.last_move,
                from.0 as int,
                from.1 as int,
                color,
                to_row(m),
                to_col(m),
            )),
{
    let ghost g = board.grid();
    let ghost lm = board.last_move;
    let ghost fri = from.0 as int;
    let ghost fci = from.1 as int;
    let ghost r1s = fri + pawn_dir(color);
    let ghost sa = (if occ_at(g, r1s, fci) is None {
        seq![(((r1s as usize)), ((fci as usize)))]
    } else {
        Seq::<(usize, usize)>::empty()
    });
    let ghost sb = (if fri == home_row(color) && occ_at(g, r1s, fci) is None && occ_at(
        g,
        fri + 2 * pawn_dir(color),
        fci,
    ) is None {
        seq![((((fri + 2 * pawn_dir(color)) as usize)), ((fci as usize)))]
    } else {
        Seq::<(usize, usize)>::empty()
    });
    let ghost scl = (if fci >= 1 {
        match occ_at(g, r1s, fci - 1) {
            Some((p, pc)) => if pc != color {
                seq![(((r1s as usize)), (((fci - 1) as usize)))]
            } else {
                Seq::<(usize, usize)>::empty()
            },
            None => Seq::<(usize, usize)>::empty(),
        }
    } else {
        Seq::<(usize, usize)>::empty()
    });
    let ghost scr = (if fci + 1 < 8 {
        match occ_at(g, r1s, fci + 1) {
            Some((p, pc)) => if pc != color {
                seq![(((r1s as usize)), (((fci + 1) as usize)))]
            } else {
                Seq::<(usize, usize)>::empty()
            },
            None => Seq::<(usize, usize)>::empty(),
        }
    } else {
        Seq::<(usize, usize)>::empty()
    });
    let ghost se = (match lm {
        Some(l) => if l.piece == Piece::P && l.color != color && l.position.0 as int == fri
            && fri == double_row(!color) && (l.position.1 as int) < 8 && ((l.position.1 as int)
            == fci - 1 || (l.position.1 as int) == fci + 1) && occ_at(
            g,
            r1s,
            l.position.1 as int,
        ) is None {
            seq![(((r1s as usize)), l.position.1)]
        } else {
            Seq::<(usize, usize)>::empty()
        },
        None => Seq::<(usize, usize)>::empty(),
    });
    let mut moves: Vec<Move> = Vec::new();
    let dir: isize = if color {
        -1
    } else {
        1
    };
    let r1i = from.0 as isize + dir;
    if r1i >= 0 && r1i < 8 {
        let r1 = r1i as usize;
        // single push onto an empty square
        if board.get_square(r1, from.1).is_none() {
            moves.push((from, (r1, from.1)));
        }
        proof {
            assert(moves.view() =~= sa.map_values(with_source(from)));
        }
        // double push from the home row
        if (color && from.0 == 6) || (!color && from.0 == 1) {
            let r2: usize = if color {
                4
            } else {
                3
            };
            if board.get_square(r1, from.1).is_none() && board.get_square(r2, from.1).is_none() {
                moves.push((from, (r2, from.1)));
            }
        }
        proof {
            assert(moves.view() =~= (sa + sb).map_values(with_source(from)));
        }
        // diagonal captures
        if from.1 >= 1 {
            let cl = from.1 - 1;
            match board.get_square(r1, cl) {
                Some((p, pc)) => {
                    if pc != color {
                        moves.push((from, (r1, cl)));
                    }
                },
                None => {},
            }
        }
        proof {
            assert(moves.view() =~= (sa + sb + scl).map_values(with_source(from)));
        }
        if from.1 + 1 < 8 {
            let cr = from.1 + 1;
            match board.get_square(r1, cr) {
                Some((p, pc)) => {
                    if pc != color {
                        moves.push((from, (r1, cr)));
                    }
                },
                None => {},
            }
        }
        proof {
            assert(moves.view() =~= (sa + sb + scl + scr).map_values(with_source(from)));
        }
        // en passant behind the opponent pawn that just pushed two squares
        match board.last_move {
            Some(l) => {
                let dbl: usize = if color {
                    3
                } else {
                    4
                };
                if l.piece == Piece::P && l.color != color && l.position.0 == from.0 && from.0
                    == dbl && l.position.1 < 8 && (l.position.1 + 1 == from.1 || l.position.1
                    == from.1 + 1) && board.get_square(
                    r1,
                    l.position.1,
                ).is_none() {
                    moves.push((from, (r1, l.position.1)));
                }
            },
            None => {},
        }
        proof {
            assert(moves.view() =~= (sa + sb + scl + scr + se).map_values(with_source(from)));
            assert(pawn_targets(g, lm, fri, fci, color) == sa + sb + scl + scr + se);
        }
    } else {
        proof {
            assert(pawn_targets(g, lm, fri, fci, color) =~= Seq::<(usize, usize)>::empty());
            assert(moves.view() =~= pawn_targets(g, lm, fri, fci, color).map_values(
                with_source(from),
            ));
        }
    }
    proof {
        lemma_pawn_targets_no_dup(g, lm, fri, fci, color);
        lemma_map_no_dup(pawn_targets(g, lm, fri, fci, color), from);
    }
    moves
}


/// The destination squares of piece kind `p` from (fr, fc), in generation
/// order.
pub open spec fn piece_targets(
    g: Seq<Occ>,
    lm: Option<LastMove>,
    p: Piece,
    fr: int,
    fc: int,
    color: bool,
) -> Seq<(usize, usize)> {
    match p {
        Piece::P => pawn_targets(g, lm, fr, fc, color),
        Piece::N => knight_targets(g, fr, fc, color),
        Piece::B => bishop_targets(g, fr, fc, color),
        Piece::R => rook_targets(g, fr, fc, color),
        Piece::Q => slide8_targets(g, fr, fc, 7, color),
        Piece::K => slide8_targets(g, fr, fc, 1, color),
    }
}

/// The moves generated from square (r, c): empty unless a piece of `color`
/// stands there.
pub open spec fn square_moves(b: Board, color: bool, r: int, c: int) -> Seq<Move> {
    match occ_at(b.grid(), r, c) {
        Some((p, pc)) => if pc == color {
            piece_targets(b.grid(), b.last_move, p, r, c, color).map_values(
                with_source((((r as usize)), ((c as usize)))),
            )
        } else {
            Seq::empty()
        },
        None => Seq::empty(),
    }
}

/// The moves generated from the first `c` squares of row `r`, in order.
pub open spec fn row_moves(b: Board, color: bool, r: int, c: int) -> Seq<Move>
    decreases c,
{
    if c <= 0 {
        Seq::empty()
    } else {
        row_moves(b, color, r, c - 1) + square_moves(b, color, r, c - 1)
    }
}

/// The moves generated from the first `r` full rows, in order.
pub open spec fn scan_moves(b: Board, color: bool, r: int) -> Seq<Move>
    decreases r,
{
    if r <= 0 {
        Seq::empty()
    } else {
        scan_moves(b, color, r - 1) + row_moves(b, color, r - 1, 8)
    }
}

/// The exact sequence the generator returns: a row-major scan of the
/// board, each piece contributing its destinations in its fixed order.
pub open spec fn all_moves(b: Board, color: bool) -> Seq<Move> {
    scan_moves(b, color, 8)
}

proof fn lemma_square_moves_props(b: Board, color: bool, r: int, c: int)
    requires
        in_bounds(r, c),
    ensures
        square_moves(b, color, r, c).no_duplicates(),
        forall|i: int|
            0 <= i < square_moves(b, color, r, c).len() ==> from_row(
                #[trigger] square_moves(b, color, r, c)[i],
            ) == r && from_col(square_moves(b, color, r, c)[i]) == c,
{
    let from = ((((r as usize))), (((c as usize))));
    match occ_at(b.grid(), r, c) {
        Some((p, pc)) => {
            if pc == color {
                let tseq = piece_targets(b.grid(), b.last_move, p, r, c, color);
                match p {
                    Piece::P => {
                        lemma_pawn_targets_no_dup(b.grid(), b.last_move, r, c, color);
                    },
                    Piece::N => {
                        lemma_knight_targets_no_dup(b.grid(), r, c, color);
                    },
                    Piece::B => {
                        lemma_bishop_targets_no_dup(b.grid(), r, c, color);
                    },
                    Piece::R => {
                        lemma_rook_targets_no_dup(b.grid(), r, c, color);
                    },
                    Piece::Q => {
                        lemma_slide8_targets_no_dup(b.grid(), r, c, 7, color);
                    },
                    Piece::K => {
                        lemma_slide8_targets_no_dup(b.grid(), r, c, 1, color);
                    },
                }
                lemma_map_no_dup(tseq, from);
                assert forall|i: int|
                    0 <= i < square_moves(b, color, r, c).len() implies from_row(
                    #[trigger] square_moves(b, color, r, c)[i],
                ) == r && from_col(square_moves(b, color, r, c)[i]) == c by {
                    assert(square_moves(b, color, r, c)[i] == with_source(from)(tseq[i]));
                }
            }
        },
        None => {
        },
    }
}

proof fn lemma_row_moves_props(b: Board, color: bool, r: int, c: int)
    requires
        0 <= r < 8,
        0 <= c <= 8,
    ensures
        row_moves(b, color, r, c).no_duplicates(),
        forall|i: int|
            0 <= i < row_moves(b, color, r, c).len() ==> from_row(
                #[trigger] row_moves(b, color, r, c)[i],
            ) == r && from_col(row_moves(b, color, r, c)[i]) < c,
    decreases c,
{
    if c > 0 {
        lemma_row_moves_props(b, color, r, c - 1);
        lemma_square_moves_props(b, color, r, c - 1);
        let pre = row_moves(b, color, r, c - 1);
        let sq = square_moves(b, color, r, c - 1);
        assert(pre.disjoint(sq)) by {
            assert forall|i: int, j: int|
                0 <= i < pre.len() && 0 <= j < sq.len() implies pre[i] != sq[j] by {
                assert(from_col(pre[i]) < c - 1);
                assert(from_col(sq[j]) == c - 1);
            }
        }
        lemma_no_dup_concat(pre, sq);
        assert forall|i: int|
            0 <= i < row_moves(b, color, r, c).len() implies from_row(
            #[trigger] row_moves(b, color, r, c)[i],
        ) == r && from_col(row_moves(b, color, r, c)[i]) < c by {
            if i < pre.len() {
                assert(row_moves(b, color, r, c)[i] == pre[i]);
            } else {
                assert(row_moves(b, color, r, c)[i] == sq[i - pre.len()]);
            }
        }
    }
}

proof fn lemma_scan_moves_props(b: Board, color: bool, r: int)
    requires
        0 <= r <= 8,
    ensures
        scan_moves(b, color, r).no_duplicates(),
        forall|i: int|
            0 <= i < scan_moves(b, color, r).len() ==> from_row(
                #[trigger] scan_moves(b, color, r)[i],
            ) < r,
    decreases r,
{
    if r > 0 {
        lemma_scan_moves_props(b, color, r - 1);
        lemma_row_moves_props(b, color, r - 1, 8);
        let pre = scan_moves(b, color, r - 1);
        let rw = row_moves(b, color, r - 1, 8);
        assert(pre.disjoint(rw)) by {
            assert forall|i: int, j: int|
                0 <= i < pre.len() && 0 <= j < rw.len() implies pre[i] != rw[j] by {
                assert(from_row(pre[i]) < r - 1);
                assert(from_row(rw[j]) == r - 1);
            }
        }
        lemma_no_dup_concat(pre, rw);
        assert forall|i: int|
            0 <= i < scan_moves(b, color, r).len() implies from_row(
            #[trigger] scan_moves(b, color, r)[i],
        ) < r by {
            if i < pre.len() {
                assert(scan_moves(b, color, r)[i] == pre[i]);
            } else {
                assert(scan_moves(b, color, r)[i] == rw[i - pre.len()]);
            }
        }
    }
}

/// The full generated sequence holds no move twice.
proof fn lemma_all_moves_no_dup(b: Board, color: bool)
    ensures
        all_moves(b, color).no_duplicates(),
{
    lemma_scan_moves_props(b, color, 8);
}

/// Every pseudo-legal move of `color`, gathered by a row-major scan of the
/// board. The order of the result is not meaningful; the contract pins its
/// contents exactly.
pub fn gen_all_moves_for_color(board: &Board, color: bool) -> (moves: Vec<Move>)
    requires
        board.wf(),
    ensures
        moves.view() == all_moves(*board, color),
        moves.view().no_duplicates(),
        forall|m: Move| #[trigger] moves.view().contains(m) <==> move_pseudo_legal(*board, color, m),
{
    let mut moves: Vec<Move> = Vec::new();
    let mut row: usize = 0;
    proof {
        assert(moves.view() =~= scan_moves(*board, color, 0));
    }
    while row < 8
        invariant
            board.wf(),
            row <= 8,
            moves.view() == scan_moves(*board, color, row as int),
            forall|m: Move| #[trigger]
                moves.view().contains(m) ==> move_pseudo_legal(*board, color, m) && from_row(m)
                    < row,
            forall|m: Move|
                move_pseudo_legal(*board, color, m) && from_row(m) < row ==> #[trigger]
                    moves.view().contains(m),
        decreases 8 - row,
    {
        let mut col: usize = 0;
        proof {
            assert(moves.view() =~= scan_moves(*board, color, row as int) + row_moves(
                *board,
                color,
                row as int,
                0,
            ));
        }
        while col < 8
            invariant
                board.wf(),
                row < 8,
                col <= 8,
                moves.view() == scan_moves(*board, color, row as int) + row_moves(
                    *board,
                    color,
                    row as int,
                    col as int,
                ),
                forall|m: Move| #[trigger]
                    moves.view().contains(m) ==> move_pseudo_legal(*board, color, m) && (
                    from_row(m) < row || (from_row(m) == row && from_col(m) < col)),
                forall|m: Move|
                    move_pseudo_legal(*board, color, m) && (from_row(m) < row || (from_row(m)
                        == row && from_col(m) < col)) ==> #[trigger] moves.view().contains(m),
            decreases 8 - col,
        {
            let ghost c0 = col as int;
            let ghost before = moves.view();
            match board.get_square(row, col) {
                Some((p, pc)) => {
                    if pc == color {
                        let mut sub = match p {
                            Piece::P => generate_pawn_moves(board, (row, col), color),
                            Piece::N => generate_knight_moves(board, (row, col), color),
                            Piece::B => generate_bishop_moves(board, (row, col), color),
                            Piece::R => generate_rook_moves(board, (row, col), color),
                            Piece::Q => generate_queen_or_king_moves(board, (row, col), color, 7),
                            Piece::K => generate_queen_or_king_moves(board, (row, col), color, 1),
                        };
                        proof {
                            assert(sub.view() == square_moves(*board, color, row as int, c0));
                        }
                        moves.append(&mut sub);
                    } else {
                        proof {
                            assert(square_moves(*board, color, row as int, c0) =~= Seq::<
                                Move,
                            >::empty());
                        }
                    }
                },
                None => {
                    proof {
                        assert(square_moves(*board, color, row as int, c0) =~= Seq::<
                            Move,
                        >::empty());
                    }
                },
            }
            col += 1;
            proof {
                assert(row_moves(*board, color, row as int, col as int) == row_moves(
                    *board,
                    color,
                    row as int,
                    c0,
                ) + square_moves(*board, color, row as int, c0));
                assert(moves.view() =~= scan_moves(*board, color, row as int) + row_moves(
                    *board,
                    color,
                    row as int,
                    col as int,
                ));
            }
        }
        let ghost r0 = row as int;
        row += 1;
        proof {
            assert(scan_moves(*board, color, row as int) == scan_moves(*board, color, r0)
                + row_moves(*board, color, r0, 8));
        }
    }
    proof {
        lemma_all_moves_no_dup(*board, color);
    }
    moves
}

/// Every pseudo-legal move of `color`. Same contents as
/// `gen_all_moves_for_color`; kept as the generator entry point.
pub fn generate_valid_moves(board: &Board, color: bool) -> (moves: Vec<Move>)
    requires
        board.wf(),
    ensures
        moves.view() == all_moves(*board, color),
        moves.view().no_duplicates(),
        forall|m: Move| #[trigger] moves.view().contains(m) <==> move_pseudo_legal(*board, color, m),
{
    gen_all_moves_for_color(board, color)
}


} // verus!
