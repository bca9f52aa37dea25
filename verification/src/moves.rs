//! The state generator: every successor board state for one side's turn,
//! piece type by piece type — sliding pieces through the move map cache,
//! pawns through the pawn generator.

use vstd::prelude::*;

use crate::bits::indices;
use crate::bits::lemma_index_of;
use crate::bits::lemma_indices_from_props;
use crate::board::all_occ;
use crate::board::board_ok;
use crate::board::get_all_occupation;
use crate::board::get_not_ally_occupation;
use crate::board::get_slice_occupation;
use crate::board::not_ally_occ;
use crate::constants::BBISHOP;
use crate::constants::BKING;
use crate::constants::BKNIGHT;
use crate::constants::BLACK_TEAM;
use crate::constants::BPAWN;
use crate::constants::BQUEEN;
use crate::constants::BROOK;
use crate::constants::WBISHOP;
use crate::constants::WHITE_TEAM;
use crate::constants::WKING;
use crate::constants::WKNIGHT;
use crate::constants::WPAWN;
use crate::constants::WQUEEN;
use crate::constants::WROOK;
use crate::map::make_move_map;
use crate::map::masked_key;
use crate::map::shape_open;
use crate::map::MoveMap;
use crate::map::Shape;
use crate::pawn_move::append_states;
use crate::pawn_move::bpawn_all;
use crate::pawn_move::pawn_states;
use crate::pawn_move::wpawn_all;
use crate::split_state::matches_states;
use crate::split_state::split_board_into_updated_states;
use crate::split_state::split_slice_into_slices;
use crate::split_state::split_states;

verus! {

/// The squares one piece at square `i` may move to: the shape's reachable
/// squares on the masked occupancy, less the moving side's own pieces.
pub open spec fn piece_dests(b: Seq<u64>, i: u64, shape: Shape, team: u8) -> u64 {
    shape_open(shape, masked_key(shape, all_occ(b), i), i) & not_ally_occ(b, team)
}

/// Successor states of the pieces at the given squares, in square order.
pub open spec fn states_for_pieces(
    b: Seq<u64>,
    pieces: Seq<u64>,
    slice: int,
    shape: Shape,
    team: u8,
) -> Seq<Seq<u64>>
    decreases pieces.len(),
{
    if pieces.len() == 0 {
        Seq::<Seq<u64>>::empty()
    } else {
        states_for_pieces(b, pieces.drop_last(), slice, shape, team) + split_states(
            b,
            1u64 << pieces.last(),
            piece_dests(b, pieces.last(), shape, team),
            slice,
        )
    }
}

/// All successor states produced by the pieces of one slice moving with one
/// shape.
pub open spec fn sliding_states(b: Seq<u64>, slice: int, shape: Shape, team: u8) -> Seq<Seq<u64>> {
    states_for_pieces(b, indices(b[slice]), slice, shape, team)
}

/// All successor states of one side, in the order the generator emits them:
/// rooks, bishops, queens (cross then diagonal), pawns, king, knights.
pub open spec fn side_states(b: Seq<u64>, team: u8) -> Seq<Seq<u64>> {
    if team % 2 == 1 {
        sliding_states(b, WROOK as int, Shape::Cross, WHITE_TEAM) + sliding_states(
            b,
            WBISHOP as int,
            Shape::Diagonal,
            WHITE_TEAM,
        ) + sliding_states(b, WQUEEN as int, Shape::Cross, WHITE_TEAM) + sliding_states(
            b,
            WQUEEN as int,
            Shape::Diagonal,
            WHITE_TEAM,
        ) + pawn_states(b, WHITE_TEAM, WPAWN as int) + sliding_states(
            b,
            WKING as int,
            Shape::King,
            WHITE_TEAM,
        ) + sliding_states(b, WKNIGHT as int, Shape::Knight, WHITE_TEAM)
    } else {
        sliding_states(b, BROOK as int, Shape::Cross, BLACK_TEAM) + sliding_states(
            b,
            BBISHOP as int,
            Shape::Diagonal,
            BLACK_TEAM,
        ) + sliding_states(b, BQUEEN as int, Shape::Cross, BLACK_TEAM) + sliding_states(
            b,
            BQUEEN as int,
            Shape::Diagonal,
            BLACK_TEAM,
        ) + pawn_states(b, BLACK_TEAM, BPAWN as int) + sliding_states(
            b,
            BKING as int,
            Shape::King,
            BLACK_TEAM,
        ) + sliding_states(b, BKNIGHT as int, Shape::Knight, BLACK_TEAM)
    }
}

/// The full successor set for the side whose turn it is: even turns play
/// black, odd turns play white.
pub open spec fn successors(b: Seq<u64>, turn: u8) -> Seq<Seq<u64>> {
    if turn % 2 == 0 {
        side_states(b, BLACK_TEAM)
    } else {
        side_states(b, WHITE_TEAM)
    }
}

proof fn lemma_states_for_pieces_ok(
    b: Seq<u64>,
    pieces: Seq<u64>,
    slice: int,
    shape: Shape,
    team: u8,
)
    requires
        board_ok(b),
        0 <= slice < 12,
    ensures
        forall|k: int|
            0 <= k < states_for_pieces(b, pieces, slice, shape, team).len() ==> board_ok(
                #[trigger] states_for_pieces(b, pieces, slice, shape, team)[k],
            ),
    decreases pieces.len(),
{
    if pieces.len() > 0 {
        lemma_states_for_pieces_ok(b, pieces.drop_last(), slice, shape, team);
        let s = states_for_pieces(b, pieces, slice, shape, team);
        let front = states_for_pieces(b, pieces.drop_last(), slice, shape, team);
        let back = split_states(
            b,
            1u64 << pieces.last(),
            piece_dests(b, pieces.last(), shape, team),
            slice,
        );
        assert forall|k: int| 0 <= k < s.len() implies board_ok(#[trigger] s[k]) by {
            if k < front.len() {
                assert(s[k] == front[k]);
            } else {
                assert(s[k] == back[k - front.len()]);
                crate::split_state::lemma_apply_move_ok(
                    b,
                    1u64 << pieces.last(),
                    1u64 << indices(piece_dests(b, pieces.last(), shape, team))[k - front.len()],
                    slice,
                );
            }
        }
    }
}

proof fn lemma_states_from_endings_ok(b: Seq<u64>, endings: u64, shift: int, slice: int)
    requires
        board_ok(b),
        0 <= slice < 12,
    ensures
        forall|k: int|
            0 <= k < crate::pawn_move::states_from_endings(b, endings, shift, slice).len()
                ==> board_ok(
                #[trigger] crate::pawn_move::states_from_endings(b, endings, shift, slice)[k],
            ),
{
    let s = crate::pawn_move::states_from_endings(b, endings, shift, slice);
    assert forall|k: int| 0 <= k < s.len() implies board_ok(#[trigger] s[k]) by {
        crate::split_state::lemma_apply_move_ok(
            b,
            crate::utility::two_way(1u64 << indices(endings)[k], -shift),
            1u64 << indices(endings)[k],
            slice,
        );
    }
}

proof fn lemma_pawn_states_ok(b: Seq<u64>, team: u8, slice: int)
    requires
        board_ok(b),
        0 <= slice < 12,
    ensures
        forall|k: int|
            0 <= k < pawn_states(b, team, slice).len() ==> board_ok(
                #[trigger] pawn_states(b, team, slice)[k],
            ),
{
    let not_occ = all_occ(b) ^ crate::constants::WHOLE_BOARD;
    let enemy = crate::board::enemy_occ(b, team);
    let p = b[slice];
    if team % 2 == 1 {
        lemma_states_from_endings_ok(b, crate::pawn_move::w_one(p, not_occ), 8, slice);
        lemma_states_from_endings_ok(b, crate::pawn_move::w_two(p, not_occ), 16, slice);
        lemma_states_from_endings_ok(b, crate::pawn_move::w_right(p, enemy), 9, slice);
        lemma_states_from_endings_ok(b, crate::pawn_move::w_left(p, enemy), 7, slice);
    } else {
        lemma_states_from_endings_ok(b, crate::pawn_move::b_one(p, not_occ), -8, slice);
        lemma_states_from_endings_ok(b, crate::pawn_move::b_two(p, not_occ), -16, slice);
        lemma_states_from_endings_ok(b, crate::pawn_move::b_right(p, enemy), -7, slice);
        lemma_states_from_endings_ok(b, crate::pawn_move::b_left(p, enemy), -9, slice);
    }
}

/// Every state the generator produces from a valid board is itself valid.
pub proof fn lemma_successors_ok(b: Seq<u64>, turn: u8)
    requires
        board_ok(b),
    ensures
        forall|k: int|
            0 <= k < successors(b, turn).len() ==> board_ok(#[trigger] successors(b, turn)[k]),
{
    let team: u8 = if turn % 2 == 0 {
        BLACK_TEAM
    } else {
        WHITE_TEAM
    };
    if team % 2 == 1 {
        lemma_states_for_pieces_ok(b, indices(b[WROOK as int]), WROOK as int, Shape::Cross, team);
        lemma_states_for_pieces_ok(
            b,
            indices(b[WBISHOP as int]),
            WBISHOP as int,
            Shape::Diagonal,
            team,
        );
        lemma_states_for_pieces_ok(b, indices(b[WQUEEN as int]), WQUEEN as int, Shape::Cross, team);
        lemma_states_for_pieces_ok(
            b,
            indices(b[WQUEEN as int]),
            WQUEEN as int,
            Shape::Diagonal,
            team,
        );
        lemma_pawn_states_ok(b, team, WPAWN as int);
        lemma_states_for_pieces_ok(b, indices(b[WKING as int]), WKING as int, Shape::King, team);
        lemma_states_for_pieces_ok(
            b,
            indices(b[WKNIGHT as int]),
            WKNIGHT as int,
            Shape::Knight,
            team,
        );
    } else {
        lemma_states_for_pieces_ok(b, indices(b[BROOK as int]), BROOK as int, Shape::Cross, team);
        lemma_states_for_pieces_ok(
            b,
            indices(b[BBISHOP as int]),
            BBISHOP as int,
            Shape::Diagonal,
            team,
        );
        lemma_states_for_pieces_ok(b, indices(b[BQUEEN as int]), BQUEEN as int, Shape::Cross, team);
        lemma_states_for_pieces_ok(
            b,
            indices(b[BQUEEN as int]),
            BQUEEN as int,
            Shape::Diagonal,
            team,
        );
        lemma_pawn_states_ok(b, team, BPAWN as int);
        lemma_states_for_pieces_ok(b, indices(b[BKING as int]), BKING as int, Shape::King, team);
        lemma_states_for_pieces_ok(
            b,
            indices(b[BKNIGHT as int]),
            BKNIGHT as int,
            Shape::Knight,
            team,
        );
    }
    assert forall|k: int| 0 <= k < successors(b, turn).len() implies board_ok(
        #[trigger] successors(b, turn)[k],
    ) by {
        let s = successors(b, turn);
        if team % 2 == 1 {
            lemma_concat7_ok(
                sliding_states(b, WROOK as int, Shape::Cross, team),
                sliding_states(b, WBISHOP as int, Shape::Diagonal, team),
                sliding_states(b, WQUEEN as int, Shape::Cross, team),
                sliding_states(b, WQUEEN as int, Shape::Diagonal, team),
                pawn_states(b, team, WPAWN as int),
                sliding_states(b, WKING as int, Shape::King, team),
                sliding_states(b, WKNIGHT as int, Shape::Knight, team),
                k,
            );
        } else {
            lemma_concat7_ok(
                sliding_states(b, BROOK as int, Shape::Cross, team),
                sliding_states(b, BBISHOP as int, Shape::Diagonal, team),
                sliding_states(b, BQUEEN as int, Shape::Cross, team),
                sliding_states(b, BQUEEN as int, Shape::Diagonal, team),
                pawn_states(b, team, BPAWN as int),
                sliding_states(b, BKING as int, Shape::King, team),
                sliding_states(b, BKNIGHT as int, Shape::Knight, team),
                k,
            );
        }
    }
}

proof fn lemma_concat7_ok(
    u1: Seq<Seq<u64>>,
    u2: Seq<Seq<u64>>,
    u3: Seq<Seq<u64>>,
    u4: Seq<Seq<u64>>,
    u5: Seq<Seq<u64>>,
    u6: Seq<Seq<u64>>,
    u7: Seq<Seq<u64>>,
    k: int,
)
    requires
        0 <= k < (u1 + u2 + u3 + u4 + u5 + u6 + u7).len(),
        forall|m: int| 0 <= m < u1.len() ==> board_ok(#[trigger] u1[m]),
        forall|m: int| 0 <= m < u2.len() ==> board_ok(#[trigger] u2[m]),
        forall|m: int| 0 <= m < u3.len() ==> board_ok(#[trigger] u3[m]),
        forall|m: int| 0 <= m < u4.len() ==> board_ok(#[trigger] u4[m]),
        forall|m: int| 0 <= m < u5.len() ==> board_ok(#[trigger] u5[m]),
        forall|m: int| 0 <= m < u6.len() ==> board_ok(#[trigger] u6[m]),
        forall|m: int| 0 <= m < u7.len() ==> board_ok(#[trigger] u7[m]),
    ensures
        board_ok((u1 + u2 + u3 + u4 + u5 + u6 + u7)[k]),
{
    let s = u1 + u2 + u3 + u4 + u5 + u6 + u7;
    let n1 = u1.len() as int;
    let n2 = n1 + u2.len();
    let n3 = n2 + u3.len();
    let n4 = n3 + u4.len();
    let n5 = n4 + u5.len();
    let n6 = n5 + u6.len();
    if k < n1 {
        assert(s[k] == u1[k]);
    } else if k < n2 {
        assert(s[k] == u2[k - n1]);
    } else if k < n3 {
        assert(s[k] == u3[k - n2]);
    } else if k < n4 {
        assert(s[k] == u4[k - n3]);
    } else if k < n5 {
        assert(s[k] == u5[k - n4]);
    } else if k < n6 {
        assert(s[k] == u6[k - n5]);
    } else {
        assert(s[k] == u7[k - n6]);
    }
}

proof fn lemma_states_for_pieces_count(
    b: Seq<u64>,
    pieces: Seq<u64>,
    slice: int,
    shape: Shape,
    team: u8,
)
    requires
        0 <= slice < 12,
        forall|m: int|
            0 <= m < pieces.len() ==> #[trigger] pieces[m] < 64 && crate::bits::bit(
                b[slice],
                pieces[m],
            ),
    ensures
        forall|k: int|
            0 <= k < states_for_pieces(b, pieces, slice, shape, team).len()
                ==> crate::split_state::piece_count(
                #[trigger] states_for_pieces(b, pieces, slice, shape, team)[k],
            ) <= crate::split_state::piece_count(b),
    decreases pieces.len(),
{
    if pieces.len() > 0 {
        lemma_states_for_pieces_count(b, pieces.drop_last(), slice, shape, team);
        let s = states_for_pieces(b, pieces, slice, shape, team);
        let front = states_for_pieces(b, pieces.drop_last(), slice, shape, team);
        let dests = piece_dests(b, pieces.last(), shape, team);
        let back = crate::split_state::split_states(b, 1u64 << pieces.last(), dests, slice);
        assert forall|k: int| 0 <= k < s.len() implies crate::split_state::piece_count(
            #[trigger] s[k],
        ) <= crate::split_state::piece_count(b) by {
            if k < front.len() {
                assert(s[k] == front[k]);
            } else {
                assert(s[k] == back[k - front.len()]);
                let p: u64 = pieces[pieces.len() - 1];
                let di: u64 = indices(dests)[k - front.len()];
                crate::bits::lemma_indices_from_props(dests, 0);
                crate::bits::lemma_index_of(p);
                crate::bits::lemma_index_of(di);
                crate::split_state::lemma_apply_move_count(b, 1u64 << p, 1u64 << di, slice);
            }
        }
    }
}

proof fn lemma_states_from_endings_count(b: Seq<u64>, endings: u64, shift: int, slice: int)
    requires
        0 <= slice < 12,
        -63 <= shift <= 63,
        forall|j: u64|
            j < 64 && #[trigger] crate::bits::bit(endings, j) ==> 0 <= j - shift < 64
                && crate::bits::bit(b[slice], ((j - shift) as u64)),
    ensures
        forall|k: int|
            0 <= k < crate::pawn_move::states_from_endings(b, endings, shift, slice).len()
                ==> crate::split_state::piece_count(
                #[trigger] crate::pawn_move::states_from_endings(b, endings, shift, slice)[k],
            ) <= crate::split_state::piece_count(b),
{
    let s = crate::pawn_move::states_from_endings(b, endings, shift, slice);
    assert forall|k: int| 0 <= k < s.len() implies crate::split_state::piece_count(
        #[trigger] s[k],
    ) <= crate::split_state::piece_count(b) by {
        let e: u64 = indices(endings)[k];
        crate::bits::lemma_indices_from_props(endings, 0);
        assert(crate::bits::bit(endings, e));
        crate::utility::lemma_two_way_props(1u64 << e, -shift, 0, e);
        assert(crate::utility::two_way(1u64 << e, -shift) == 1u64 << ((e - shift) as u64));
        crate::bits::lemma_index_of(((e - shift) as u64));
        crate::bits::lemma_index_of(e);
        crate::split_state::lemma_apply_move_count(
            b,
            crate::utility::two_way(1u64 << e, -shift),
            1u64 << e,
            slice,
        );
    }
}

proof fn lemma_pawn_family_origins(p: u64, m: u64, occ: u64, shift: int)
    requires
        -63 <= shift <= 63,
    ensures
        forall|j: u64|
            j < 64 && #[trigger] crate::bits::bit(
                crate::utility::two_way(p & m, shift) & occ,
                j,
            ) ==> 0 <= j - shift < 64 && crate::bits::bit(p, ((j - shift) as u64)),
{
    assert forall|j: u64|
        j < 64 && #[trigger] crate::bits::bit(
            crate::utility::two_way(p & m, shift) & occ,
            j,
        ) implies 0 <= j - shift < 64 && crate::bits::bit(p, ((j - shift) as u64)) by {
        crate::bits::lemma_bit_ops(crate::utility::two_way(p & m, shift), occ, j);
        crate::utility::lemma_two_way_props(p & m, shift, j, 0);
        crate::bits::lemma_bit_ops(p, m, ((j - shift) as u64));
    }
}

proof fn lemma_pawn_states_count(b: Seq<u64>, team: u8, slice: int)
    requires
        0 <= slice < 12,
    ensures
        forall|k: int|
            0 <= k < pawn_states(b, team, slice).len() ==> crate::split_state::piece_count(
                #[trigger] pawn_states(b, team, slice)[k],
            ) <= crate::split_state::piece_count(b),
{
    let not_occ = all_occ(b) ^ crate::constants::WHOLE_BOARD;
    let enemy = crate::board::enemy_occ(b, team);
    let p = b[slice];
    let lr = crate::constants::ALL_BUT_LAST_RANK;
    let fr = crate::constants::ALL_BUT_FIRST_RANK;
    let lf = crate::constants::ALL_BUT_LAST_FILE;
    let ff = crate::constants::ALL_BUT_FIRST_FILE;
    if team % 2 == 1 {
        let e1 = crate::pawn_move::w_one(p, not_occ);
        let e2 = crate::pawn_move::w_two(p, not_occ);
        let e3 = crate::pawn_move::w_right(p, enemy);
        let e4 = crate::pawn_move::w_left(p, enemy);
        lemma_pawn_family_origins(p, lr, not_occ, 8);
        lemma_pawn_family_origins(p, lr & lf, enemy, 9);
        lemma_pawn_family_origins(p, lr & ff, enemy, 7);
        lemma_pawn_family_origins(crate::pawn_move::w_one(p, not_occ), lr, not_occ, 8);
        assert forall|j: u64|
            j < 64 && #[trigger] crate::bits::bit(e2, j) implies 0 <= j - 16 < 64
            && crate::bits::bit(p, ((j - 16) as u64)) by {
            crate::bits::lemma_bit_ops(
                crate::pawn_move::w_one(crate::pawn_move::w_one(p, not_occ), not_occ),
                crate::constants::FOURTH_RANK,
                j,
            );
        }
        lemma_states_from_endings_count(b, e1, 8, slice);
        lemma_states_from_endings_count(b, e2, 16, slice);
        lemma_states_from_endings_count(b, e3, 9, slice);
        lemma_states_from_endings_count(b, e4, 7, slice);
        let s1 = crate::pawn_move::states_from_endings(b, e1, 8, slice);
        let s2 = crate::pawn_move::states_from_endings(b, e2, 16, slice);
        let s3 = crate::pawn_move::states_from_endings(b, e3, 9, slice);
        let s4 = crate::pawn_move::states_from_endings(b, e4, 7, slice);
        assert forall|k: int| 0 <= k < pawn_states(b, team, slice).len()
            implies crate::split_state::piece_count(#[trigger] pawn_states(b, team, slice)[k])
            <= crate::split_state::piece_count(b) by {
            let s = pawn_states(b, team, slice);
            if k < s1.len() {
                assert(s[k] == s1[k]);
            } else if k < s1.len() + s2.len() {
                assert(s[k] == s2[k - s1.len()]);
            } else if k < s1.len() + s2.len() + s3.len() {
                assert(s[k] == s3[k - s1.len() - s2.len()]);
            } else {
                assert(s[k] == s4[k - s1.len() - s2.len() - s3.len()]);
            }
        }
    } else {
        let e1 = crate::pawn_move::b_one(p, not_occ);
        let e2 = crate::pawn_move::b_two(p, not_occ);
        let e3 = crate::pawn_move::b_right(p, enemy);
        let e4 = crate::pawn_move::b_left(p, enemy);
        lemma_pawn_family_origins(p, fr, not_occ, -8);
        lemma_pawn_family_origins(p, fr & lf, enemy, -7);
        lemma_pawn_family_origins(p, fr & ff, enemy, -9);
        lemma_pawn_family_origins(crate::pawn_move::b_one(p, not_occ), fr, not_occ, -8);
        assert forall|j: u64|
            j < 64 && #[trigger] crate::bits::bit(e2, j) implies 0 <= j + 16 < 64
            && crate::bits::bit(p, ((j + 16) as u64)) by {
            crate::bits::lemma_bit_ops(
                crate::pawn_move::b_one(crate::pawn_move::b_one(p, not_occ), not_occ),
                crate::constants::FIFTH_RANK,
                j,
            );
        }
        lemma_states_from_endings_count(b, e1, -8, slice);
        lemma_states_from_endings_count(b, e2, -16, slice);
        lemma_states_from_endings_count(b, e3, -7, slice);
        lemma_states_from_endings_count(b, e4, -9, slice);
        let s1 = crate::pawn_move::states_from_endings(b, e1, -8, slice);
        let s2 = crate::pawn_move::states_from_endings(b, e2, -16, slice);
        let s3 = crate::pawn_move::states_from_endings(b, e3, -7, slice);
        let s4 = crate::pawn_move::states_from_endings(b, e4, -9, slice);
        assert forall|k: int| 0 <= k < pawn_states(b, team, slice).len()
            implies crate::split_state::piece_count(#[trigger] pawn_states(b, team, slice)[k])
            <= crate::split_state::piece_count(b) by {
            let s = pawn_states(b, team, slice);
            if k < s1.len() {
                assert(s[k] == s1[k]);
            } else if k < s1.len() + s2.len() {
                assert(s[k] == s2[k - s1.len()]);
            } else if k < s1.len() + s2.len() + s3.len() {
                assert(s[k] == s3[k - s1.len() - s2.len()]);
            } else {
                assert(s[k] == s4[k - s1.len() - s2.len() - s3.len()]);
            }
        }
    }
}

/// Captures only remove pieces and moves never add them: every successor
/// state holds at most as many pieces as the position it came from.
pub proof fn lemma_successor_piece_count(b: Seq<u64>, turn: u8, k: int)
    requires
        0 <= k < successors(b, turn).len(),
    ensures
        crate::split_state::piece_count(successors(b, turn)[k])
            <= crate::split_state::piece_count(b),
{
    let team: u8 = if turn % 2 == 0 {
        BLACK_TEAM
    } else {
        WHITE_TEAM
    };
    let rook_slice: int = if team % 2 == 1 {
        WROOK as int
    } else {
        BROOK as int
    };
    let bishop_slice: int = if team % 2 == 1 {
        WBISHOP as int
    } else {
        BBISHOP as int
    };
    let queen_slice: int = if team % 2 == 1 {
        WQUEEN as int
    } else {
        BQUEEN as int
    };
    let pawn_slice: int = if team % 2 == 1 {
        WPAWN as int
    } else {
        BPAWN as int
    };
    let king_slice: int = if team % 2 == 1 {
        WKING as int
    } else {
        BKING as int
    };
    let knight_slice: int = if team % 2 == 1 {
        WKNIGHT as int
    } else {
        BKNIGHT as int
    };
    crate::bits::lemma_indices_from_props(b[rook_slice], 0);
    crate::bits::lemma_indices_from_props(b[bishop_slice], 0);
    crate::bits::lemma_indices_from_props(b[queen_slice], 0);
    crate::bits::lemma_indices_from_props(b[king_slice], 0);
    crate::bits::lemma_indices_from_props(b[knight_slice], 0);
    lemma_states_for_pieces_count(b, indices(b[rook_slice]), rook_slice, Shape::Cross, team);
    lemma_states_for_pieces_count(b, indices(b[bishop_slice]), bishop_slice, Shape::Diagonal, team);
    lemma_states_for_pieces_count(b, indices(b[queen_slice]), queen_slice, Shape::Cross, team);
    lemma_states_for_pieces_count(b, indices(b[queen_slice]), queen_slice, Shape::Diagonal, team);
    lemma_pawn_states_count(b, team, pawn_slice);
    lemma_states_for_pieces_count(b, indices(b[king_slice]), king_slice, Shape::King, team);
    lemma_states_for_pieces_count(b, indices(b[knight_slice]), knight_slice, Shape::Knight, team);
    let u1 = sliding_states(b, rook_slice, Shape::Cross, team);
    let u2 = sliding_states(b, bishop_slice, Shape::Diagonal, team);
    let u3 = sliding_states(b, queen_slice, Shape::Cross, team);
    let u4 = sliding_states(b, queen_slice, Shape::Diagonal, team);
    let u5 = pawn_states(b, team, pawn_slice);
    let u6 = sliding_states(b, king_slice, Shape::King, team);
    let u7 = sliding_states(b, knight_slice, Shape::Knight, team);
    let s = successors(b, turn);
    assert(s == u1 + u2 + u3 + u4 + u5 + u6 + u7);
    let n1 = u1.len() as int;
    let n2 = n1 + u2.len();
    let n3 = n2 + u3.len();
    let n4 = n3 + u4.len();
    let n5 = n4 + u5.len();
    let n6 = n5 + u6.len();
    if k < n1 {
        assert(s[k] == u1[k]);
    } else if k < n2 {
        assert(s[k] == u2[k - n1]);
    } else if k < n3 {
        assert(s[k] == u3[k - n2]);
    } else if k < n4 {
        assert(s[k] == u4[k - n3]);
    } else if k < n5 {
        assert(s[k] == u5[k - n4]);
    } else if k < n6 {
        assert(s[k] == u6[k - n5]);
    } else {
        assert(s[k] == u7[k - n6]);
    }
}

/// The four move map caches the generator draws on, one per shape.
pub struct MoveMaps {
    pub cross: MoveMap,
    pub diagonal: MoveMap,
    pub knight: MoveMap,
    pub king: MoveMap,
}

/// Each cache is sound and serves its own shape.
pub open spec fn maps_wf(m: &MoveMaps) -> bool {
    m.cross.wf() && m.cross.spec_shape() == Shape::Cross && m.diagonal.wf()
        && m.diagonal.spec_shape() == Shape::Diagonal && m.knight.wf() && m.knight.spec_shape()
        == Shape::Knight && m.king.wf() && m.king.spec_shape() == Shape::King
}

/// Fresh, empty caches for all four shapes.
pub fn make_move_maps() -> (m: MoveMaps)
    ensures
        maps_wf(&m),
{
    MoveMaps {
        cross: make_move_map(Shape::Cross),
        diagonal: make_move_map(Shape::Diagonal),
        knight: make_move_map(Shape::Knight),
        king: make_move_map(Shape::King),
    }
}

/// Element-wise agreement carries over concatenation.
pub proof fn lemma_matches_concat(
    v1: Seq<[u64; 13]>,
    v2: Seq<[u64; 13]>,
    s1: Seq<Seq<u64>>,
    s2: Seq<Seq<u64>>,
)
    requires
        matches_states(v1, s1),
        matches_states(v2, s2),
    ensures
        matches_states(v1 + v2, s1 + s2),
{
    let v = v1 + v2;
    let s = s1 + s2;
    assert forall|k: int| 0 <= k < v.len() implies #[trigger] v[k]@ == s[k] by {
        if k < v1.len() {
            assert(v[k] == v1[k]);
            assert(s[k] == s1[k]);
        } else {
            assert(v[k] == v2[k - v1.len()]);
            assert(s[k] == s2[k - v1.len()]);
        }
    }
}

/// Successor states of every piece in one slice, moving with the map's
/// shape: reachable squares are looked up through the cache, own-side
/// captures are removed, and each remaining destination yields one state.
pub fn sliding_move_general(board: [u64; 13], slice_index: u8, map: &mut MoveMap, team: u8) -> (r:
    Vec<[u64; 13]>)
    requires
        board_ok(board@),
        slice_index < 12,
        old(map).wf(),
    ensures
        final(map).wf(),
        final(map).spec_shape() == old(map).spec_shape(),
        matches_states(
            r@,
            sliding_states(board@, slice_index as int, old(map).spec_shape(), team),
        ),
{
    let ghost shape: Shape = map.spec_shape();
    let ghost b: Seq<u64> = board@;
    let mut possible_states: Vec<[u64; 13]> = Vec::new();
    let occ: u64 = get_all_occupation(board);
    let pieces: Vec<u64> = split_slice_into_slices(get_slice_occupation(board, slice_index));
    let ghost piece_idx: Seq<u64> = indices(b[slice_index as int]);
    proof {
        lemma_indices_from_props(b[slice_index as int], 0);
        assert(states_for_pieces(b, piece_idx.take(0), slice_index as int, shape, team)
            =~= Seq::<Seq<u64>>::empty());
    }
    let mut k: usize = 0;
    while k < pieces.len()
        invariant
            board_ok(b),
            b == board@,
            b.len() == 13,
            occ == all_occ(b),
            slice_index < 12,
            map.wf(),
            map.spec_shape() == shape,
            pieces@.len() == piece_idx.len(),
            piece_idx == indices(b[slice_index as int]),
            forall|m: int| 0 <= m < piece_idx.len() ==> #[trigger] piece_idx[m] < 64,
            forall|m: int| 0 <= m < pieces@.len() ==> pieces@[m] == (1u64 << piece_idx[m]),
            k <= pieces@.len(),
            matches_states(
                possible_states@,
                states_for_pieces(b, piece_idx.take(k as int), slice_index as int, shape, team),
            ),
        decreases pieces@.len() - k,
    {
        let piece: u64 = pieces[k];
        proof {
            lemma_index_of(piece_idx[k as int]);
        }
        let mut open_squares: u64 = map.get_value(piece, occ);
        open_squares = open_squares & get_not_ally_occupation(board, team);
        proof {
            assert(open_squares == piece_dests(b, piece_idx[k as int], shape, team));
        }
        let states: Vec<[u64; 13]> = split_board_into_updated_states(
            piece,
            open_squares,
            board,
            slice_index,
        );
        let ghost prev = possible_states@;
        append_states(&mut possible_states, states);
        proof {
            let taken = piece_idx.take(k as int + 1);
            assert(taken.drop_last() =~= piece_idx.take(k as int));
            assert(taken.last() == piece_idx[k as int]);
            lemma_matches_concat(
                prev,
                states@,
                states_for_pieces(b, piece_idx.take(k as int), slice_index as int, shape, team),
                split_states(
                    b,
                    1u64 << piece_idx[k as int],
                    piece_dests(b, piece_idx[k as int], shape, team),
                    slice_index as int,
                ),
            );
        }
        k = k + 1;
    }
    proof {
        assert(piece_idx.take(piece_idx.len() as int) =~= piece_idx);
    }
    possible_states
}

/// White rook successors.
pub fn wrook(board: [u64; 13], maps: &mut MoveMaps) -> (r: Vec<[u64; 13]>)
    requires
        board_ok(board@),
        maps_wf(old(maps)),
    ensures
        maps_wf(final(maps)),
        matches_states(r@, sliding_states(board@, WROOK as int, Shape::Cross, WHITE_TEAM)),
{
    sliding_move_general(board, WROOK, &mut maps.cross, WHITE_TEAM)
}

/// Black rook successors.
pub fn brook(board: [u64; 13], maps: &mut MoveMaps) -> (r: Vec<[u64; 13]>)
    requires
        board_ok(board@),
        maps_wf(old(maps)),
    ensures
        maps_wf(final(maps)),
        matches_states(r@, sliding_states(board@, BROOK as int, Shape::Cross, BLACK_TEAM)),
{
    sliding_move_general(board, BROOK, &mut maps.cross, BLACK_TEAM)
}

/// White bishop successors.
pub fn wbishop(board: [u64; 13], maps: &mut MoveMaps) -> (r: Vec<[u64; 13]>)
    requires
        board_ok(board@),
        maps_wf(old(maps)),
    ensures
        maps_wf(final(maps)),
        matches_states(r@, sliding_states(board@, WBISHOP as int, Shape::Diagonal, WHITE_TEAM)),
{
    sliding_move_general(board, WBISHOP, &mut maps.diagonal, WHITE_TEAM)
}

/// Black bishop successors.
pub fn bbishop(board: [u64; 13], maps: &mut MoveMaps) -> (r: Vec<[u64; 13]>)
    requires
        board_ok(board@),
        maps_wf(old(maps)),
    ensures
        maps_wf(final(maps)),
        matches_states(r@, sliding_states(board@, BBISHOP as int, Shape::Diagonal, BLACK_TEAM)),
{
    sliding_move_general(board, BBISHOP, &mut maps.diagonal, BLACK_TEAM)
}

/// White queen successors: cross moves, then diagonal moves.
pub fn wqueen(board: [u64; 13], maps: &mut MoveMaps) -> (r: Vec<[u64; 13]>)
    requires
        board_ok(board@),
        maps_wf(old(maps)),
    ensures
        maps_wf(final(maps)),
        matches_states(
            r@,
            sliding_states(board@, WQUEEN as int, Shape::Cross, WHITE_TEAM) + sliding_states(
                board@,
                WQUEEN as int,
                Shape::Diagonal,
                WHITE_TEAM,
            ),
        ),
{
    let mut states: Vec<[u64; 13]> = sliding_move_general(board, WQUEEN, &mut maps.cross, WHITE_TEAM);
    let ghost t1 = states@;
    let diag: Vec<[u64; 13]> = sliding_move_general(board, WQUEEN, &mut maps.diagonal, WHITE_TEAM);
    proof {
        lemma_matches_concat(
            t1,
            diag@,
            sliding_states(board@, WQUEEN as int, Shape::Cross, WHITE_TEAM),
            sliding_states(board@, WQUEEN as int, Shape::Diagonal, WHITE_TEAM),
        );
    }
    append_states(&mut states, diag);
    states
}

/// Black queen successors: cross moves, then diagonal moves.
pub fn bqueen(board: [u64; 13], maps: &mut MoveMaps) -> (r: Vec<[u64; 13]>)
    requires
        board_ok(board@),
        maps_wf(old(maps)),
    ensures
        maps_wf(final(maps)),
        matches_states(
            r@,
            sliding_states(board@, BQUEEN as int, Shape::Cross, BLACK_TEAM) + sliding_states(
                board@,
                BQUEEN as int,
                Shape::Diagonal,
                BLACK_TEAM,
            ),
        ),
{
    let mut states: Vec<[u64; 13]> = sliding_move_general(board, BQUEEN, &mut maps.cross, BLACK_TEAM);
    let ghost t1 = states@;
    let diag: Vec<[u64; 13]> = sliding_move_general(board, BQUEEN, &mut maps.diagonal, BLACK_TEAM);
    proof {
        lemma_matches_concat(
            t1,
            diag@,
            sliding_states(board@, BQUEEN as int, Shape::Cross, BLACK_TEAM),
            sliding_states(board@, BQUEEN as int, Shape::Diagonal, BLACK_TEAM),
        );
    }
    append_states(&mut states, diag);
    states
}

/// White knight successors.
pub fn wknight(board: [u64; 13], maps: &mut MoveMaps) -> (r: Vec<[u64; 13]>)
    requires
        board_ok(board@),
        maps_wf(old(maps)),
    ensures
        maps_wf(final(maps)),
        matches_states(r@, sliding_states(board@, WKNIGHT as int, Shape::Knight, WHITE_TEAM)),
{
    sliding_move_general(board, WKNIGHT, &mut maps.knight, WHITE_TEAM)
}

/// Black knight successors.
pub fn bknight(board: [u64; 13], maps: &mut MoveMaps) -> (r: Vec<[u64; 13]>)
    requires
        board_ok(board@),
        maps_wf(old(maps)),
    ensures
        maps_wf(final(maps)),
        matches_states(r@, sliding_states(board@, BKNIGHT as int, Shape::Knight, BLACK_TEAM)),
{
    sliding_move_general(board, BKNIGHT, &mut maps.knight, BLACK_TEAM)
}

/// White king successors.
pub fn wking(board: [u64; 13], maps: &mut MoveMaps) -> (r: Vec<[u64; 13]>)
    requires
        board_ok(board@),
        maps_wf(old(maps)),
    ensures
        maps_wf(final(maps)),
        matches_states(r@, sliding_states(board@, WKING as int, Shape::King, WHITE_TEAM)),
{
    sliding_move_general(board, WKING, &mut maps.king, WHITE_TEAM)
}

/// Black king successors.
pub fn bking(board: [u64; 13], maps: &mut MoveMaps) -> (r: Vec<[u64; 13]>)
    requires
        board_ok(board@),
        maps_wf(old(maps)),
    ensures
        maps_wf(final(maps)),
        matches_states(r@, sliding_states(board@, BKING as int, Shape::King, BLACK_TEAM)),
{
    sliding_move_general(board, BKING, &mut maps.king, BLACK_TEAM)
}

/// White pawn successors.
pub fn wpawn(board: [u64; 13]) -> (r: Vec<[u64; 13]>)
    requires
        board_ok(board@),
    ensures
        matches_states(r@, pawn_states(board@, WHITE_TEAM, WPAWN as int)),
{
    wpawn_all(board)
}

/// Black pawn successors.
pub fn bpawn(board: [u64; 13]) -> (r: Vec<[u64; 13]>)
    requires
        board_ok(board@),
    ensures
        matches_states(r@, pawn_states(board@, BLACK_TEAM, BPAWN as int)),
{
    bpawn_all(board)
}

/// Every white successor state.
pub fn wstate(board: [u64; 13], maps: &mut MoveMaps) -> (r: Vec<[u64; 13]>)
    requires
        board_ok(board@),
        maps_wf(old(maps)),
    ensures
        maps_wf(final(maps)),
        matches_states(r@, side_states(board@, WHITE_TEAM)),
{
    let ghost b = board@;
    let mut states: Vec<[u64; 13]> = wrook(board, maps);
    let ghost t1 = states@;
    let s2: Vec<[u64; 13]> = wbishop(board, maps);
    let ghost t2 = s2@;
    proof {
        lemma_matches_concat(
            t1,
            t2,
            sliding_states(b, WROOK as int, Shape::Cross, WHITE_TEAM),
            sliding_states(b, WBISHOP as int, Shape::Diagonal, WHITE_TEAM),
        );
    }
    append_states(&mut states, s2);
    let s3: Vec<[u64; 13]> = wqueen(board, maps);
    let ghost t3 = s3@;
    proof {
        lemma_matches_concat(
            t1 + t2,
            t3,
            sliding_states(b, WROOK as int, Shape::Cross, WHITE_TEAM) + sliding_states(
                b,
                WBISHOP as int,
                Shape::Diagonal,
                WHITE_TEAM,
            ),
            sliding_states(b, WQUEEN as int, Shape::Cross, WHITE_TEAM) + sliding_states(
                b,
                WQUEEN as int,
                Shape::Diagonal,
                WHITE_TEAM,
            ),
        );
    }
    append_states(&mut states, s3);
    let s4: Vec<[u64; 13]> = wpawn(board);
    let ghost t4 = s4@;
    let s5: Vec<[u64; 13]> = wking(board, maps);
    let ghost t5 = s5@;
    let s6: Vec<[u64; 13]> = wknight(board, maps);
    let ghost t6 = s6@;
    proof {
        let u1 = sliding_states(b, WROOK as int, Shape::Cross, WHITE_TEAM);
        let u2 = sliding_states(b, WBISHOP as int, Shape::Diagonal, WHITE_TEAM);
        let u3 = sliding_states(b, WQUEEN as int, Shape::Cross, WHITE_TEAM) + sliding_states(
            b,
            WQUEEN as int,
            Shape::Diagonal,
            WHITE_TEAM,
        );
        let u4 = pawn_states(b, WHITE_TEAM, WPAWN as int);
        let u5 = sliding_states(b, WKING as int, Shape::King, WHITE_TEAM);
        let u6 = sliding_states(b, WKNIGHT as int, Shape::Knight, WHITE_TEAM);
        lemma_matches_concat(t1 + t2 + t3, t4, u1 + u2 + u3, u4);
        lemma_matches_concat(t1 + t2 + t3 + t4, t5, u1 + u2 + u3 + u4, u5);
        lemma_matches_concat(t1 + t2 + t3 + t4 + t5, t6, u1 + u2 + u3 + u4 + u5, u6);
        assert(side_states(b, WHITE_TEAM) =~= u1 + u2 + u3 + u4 + u5 + u6);
    }
    append_states(&mut states, s4);
    append_states(&mut states, s5);
    append_states(&mut states, s6);
    proof {
        assert(states@ =~= t1 + t2 + t3 + t4 + t5 + t6);
    }
    states
}

/// Every black successor state.
pub fn bstate(board: [u64; 13], maps: &mut MoveMaps) -> (r: Vec<[u64; 13]>)
    requires
        board_ok(board@),
        maps_wf(old(maps)),
    ensures
        maps_wf(final(maps)),
        matches_states(r@, side_states(board@, BLACK_TEAM)),
{
    let ghost b = board@;
    let mut states: Vec<[u64; 13]> = brook(board, maps);
    let ghost t1 = states@;
    let s2: Vec<[u64; 13]> = bbishop(board, maps);
    let ghost t2 = s2@;
    proof {
        lemma_matches_concat(
            t1,
            t2,
            sliding_states(b, BROOK as int, Shape::Cross, BLACK_TEAM),
            sliding_states(b, BBISHOP as int, Shape::Diagonal, BLACK_TEAM),
        );
    }
    append_states(&mut states, s2);
    let s3: Vec<[u64; 13]> = bqueen(board, maps);
    let ghost t3 = s3@;
    proof {
        lemma_matches_concat(
            t1 + t2,
            t3,
            sliding_states(b, BROOK as int, Shape::Cross, BLACK_TEAM) + sliding_states(
                b,
                BBISHOP as int,
                Shape::Diagonal,
                BLACK_TEAM,
            ),
            sliding_states(b, BQUEEN as int, Shape::Cross, BLACK_TEAM) + sliding_states(
                b,
                BQUEEN as int,
                Shape::Diagonal,
                BLACK_TEAM,
            ),
        );
    }
    append_states(&mut states, s3);
    let s4: Vec<[u64; 13]> = bpawn(board);
    let ghost t4 = s4@;
    let s5: Vec<[u64; 13]> = bking(board, maps);
    let ghost t5 = s5@;
    let s6: Vec<[u64; 13]> = bknight(board, maps);
    let ghost t6 = s6@;
    proof {
        let u1 = sliding_states(b, BROOK as int, Shape::Cross, BLACK_TEAM);
        let u2 = sliding_states(b, BBISHOP as int, Shape::Diagonal, BLACK_TEAM);
        let u3 = sliding_states(b, BQUEEN as int, Shape::Cross, BLACK_TEAM) + sliding_states(
            b,
            BQUEEN as int,
            Shape::Diagonal,
            BLACK_TEAM,
        );
        let u4 = pawn_states(b, BLACK_TEAM, BPAWN as int);
        let u5 = sliding_states(b, BKING as int, Shape::King, BLACK_TEAM);
        let u6 = sliding_states(b, BKNIGHT as int, Shape::Knight, BLACK_TEAM);
        lemma_matches_concat(t1 + t2 + t3, t4, u1 + u2 + u3, u4);
        lemma_matches_concat(t1 + t2 + t3 + t4, t5, u1 + u2 + u3 + u4, u5);
        lemma_matches_concat(t1 + t2 + t3 + t4 + t5, t6, u1 + u2 + u3 + u4 + u5, u6);
        assert(side_states(b, BLACK_TEAM) =~= u1 + u2 + u3 + u4 + u5 + u6);
    }
    append_states(&mut states, s4);
    append_states(&mut states, s5);
    append_states(&mut states, s6);
    proof {
        assert(states@ =~= t1 + t2 + t3 + t4 + t5 + t6);
    }
    states
}

/// Every successor state of the side whose turn it is.
pub fn states_for_turn(board: [u64; 13], turn: u8, maps: &mut MoveMaps) -> (r: Vec<[u64; 13]>)
    requires
        board_ok(board@),
        maps_wf(old(maps)),
    ensures
        maps_wf(final(maps)),
        matches_states(r@, successors(board@, turn)),
{
    if turn % 2 == 0 {
        bstate(board, maps)
    } else {
        wstate(board, maps)
    }
}

} // verus!
