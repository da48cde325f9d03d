use vstd::prelude::*;

use rand::Rng;

use crate::board::Board;
use crate::move_generation::from_col;
use crate::move_generation::from_row;
use crate::move_generation::generate_valid_moves;
use crate::move_generation::move_pseudo_legal;
use crate::move_generation::to_col;
use crate::move_generation::to_row;
use crate::notation::encode_position;
use crate::notation::spec_move_text;
use crate::placement::lemma_pseudo_legal_accepted;
use crate::placement::lemma_pseudo_legal_bounds;
use crate::placement::move_allowed;
use crate::Move;

verus! {

/// Relies on rand's `Rng::gen_range` on `0..n`: it returns a uniformly
/// sampled value of the range, and panics only on an empty range, which
/// the precondition rules out. Nothing about which value comes back is
/// assumed beyond its bound.
#[verifier::external_body]
fn random_below(n: usize) -> (r: usize)
    requires
        0 < n,
    ensures
        r < n,
{
    rand::thread_rng().gen_range(0..n)
}

/// Picks a uniformly random pseudo-legal move for Black and renders it as
/// a two-token move string, or reports that Black has no pseudo-legal move
/// at all. Whatever text comes back is one of Black's pseudo-legal moves;
/// parsing it again yields that move, and it satisfies the validator's
/// geometric rule on this board. Whether it is finally applied still
/// depends on the self-check filter, so the caller replays it and may have
/// to draw again.
pub fn choose_bot_move(board: &Board) -> (r: Option<String>)
    requires
        board.wf(),
    ensures
        r is None <==> (forall|m: Move| !move_pseudo_legal(*board, false, m)),
        r matches Some(s) ==> exists|m: Move|
            {
                &&& #[trigger] move_pseudo_legal(*board, false, m)
                &&& s.view() == spec_move_text(from_row(m), from_col(m), to_row(m), to_col(m))
                &&& crate::notation::spec_parse_move(s.view()) == Some(
                    ((from_row(m), from_col(m)), (to_row(m), to_col(m))),
                )
                &&& move_allowed(
                    board.grid(),
                    board.last_move,
                    from_row(m),
                    from_col(m),
                    false,
                    to_row(m),
                    to_col(m),
                )
            },
{
    let moves = generate_valid_moves(board, false);
    if moves.len() == 0 {
        proof {
            assert forall|m: Move| !move_pseudo_legal(*board, false, m) by {
                if move_pseudo_legal(*board, false, m) {
                    assert(moves.view().contains(m));
                }
            }
        }
        return None;
    }
    let i = random_below(moves.len());
    let m = moves[i];
    let (mf, mt) = m;
    proof {
        assert(moves.view().contains(m));
        lemma_pseudo_legal_bounds(
            board.grid(),
            board.last_move,
            mf.0 as int,
            mf.1 as int,
            false,
            mt.0 as int,
            mt.1 as int,
        );
    }
    let s1 = encode_position(mf.0, mf.1);
    let s2 = encode_position(mt.0, mt.1);
    let text = s1.concat(" ").concat(s2.as_str());
    proof {
        reveal_strlit(" ");
        assert(text.view() =~= spec_move_text(
            from_row(m),
            from_col(m),
            to_row(m),
            to_col(m),
        ));
        crate::notation::lemma_move_text_roundtrip(
            from_row(m),
            from_col(m),
            to_row(m),
            to_col(m),
        );
        lemma_pseudo_legal_accepted(
            board.grid(),
            board.last_move,
            mf.0 as int,
            mf.1 as int,
            false,
            mt.0 as int,
            mt.1 as int,
        );
    }
    Some(text)
}

} // verus!
