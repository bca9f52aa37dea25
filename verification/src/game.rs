//! Game setup: the standard starting placement of the twelve piece
//! bitboards.

use vstd::prelude::*;

use crate::board::board_ok;
use crate::constants::BBISHOP;
use crate::constants::BKING;
use crate::constants::BKNIGHT;
use crate::constants::BPAWN;
use crate::constants::BQUEEN;
use crate::constants::BROOK;
use crate::constants::STARTING_BBISHOPS;
use crate::constants::STARTING_BKING;
use crate::constants::STARTING_BKNIGHTS;
use crate::constants::STARTING_BPAWNS;
use crate::constants::STARTING_BQUEEN;
use crate::constants::STARTING_BROOKS;
use crate::constants::STARTING_WBISHOPS;
use crate::constants::STARTING_WKING;
use crate::constants::STARTING_WKNIGHTS;
use crate::constants::STARTING_WPAWNS;
use crate::constants::STARTING_WQUEEN;
use crate::constants::STARTING_WROOKS;
use crate::constants::WBISHOP;
use crate::constants::WKING;
use crate::constants::WKNIGHT;
use crate::constants::WPAWN;
use crate::constants::WQUEEN;
use crate::constants::WROOK;

verus! {

/// No two starting bitboards share a square.
proof fn lemma_start_disjoint()
    by (bit_vector)
    ensures
        STARTING_WROOKS & STARTING_WBISHOPS == 0,
        STARTING_WROOKS & STARTING_WQUEEN == 0,
        STARTING_WROOKS & STARTING_WPAWNS == 0,
        STARTING_WROOKS & STARTING_WKNIGHTS == 0,
        STARTING_WROOKS & STARTING_WKING == 0,
        STARTING_WROOKS & STARTING_BROOKS == 0,
        STARTING_WROOKS & STARTING_BBISHOPS == 0,
        STARTING_WROOKS & STARTING_BQUEEN == 0,
        STARTING_WROOKS & STARTING_BPAWNS == 0,
        STARTING_WROOKS & STARTING_BKNIGHTS == 0,
        STARTING_WROOKS & STARTING_BKING == 0,
        STARTING_WBISHOPS & STARTING_WQUEEN == 0,
        STARTING_WBISHOPS & STARTING_WPAWNS == 0,
        STARTING_WBISHOPS & STARTING_WKNIGHTS == 0,
        STARTING_WBISHOPS & STARTING_WKING == 0,
        STARTING_WBISHOPS & STARTING_BROOKS == 0,
        STARTING_WBISHOPS & STARTING_BBISHOPS == 0,
        STARTING_WBISHOPS & STARTING_BQUEEN == 0,
        STARTING_WBISHOPS & STARTING_BPAWNS == 0,
        STARTING_WBISHOPS & STARTING_BKNIGHTS == 0,
        STARTING_WBISHOPS & STARTING_BKING == 0,
        STARTING_WQUEEN & STARTING_WPAWNS == 0,
        STARTING_WQUEEN & STARTING_WKNIGHTS == 0,
        STARTING_WQUEEN & STARTING_WKING == 0,
        STARTING_WQUEEN & STARTING_BROOKS == 0,
        STARTING_WQUEEN & STARTING_BBISHOPS == 0,
        STARTING_WQUEEN & STARTING_BQUEEN == 0,
        STARTING_WQUEEN & STARTING_BPAWNS == 0,
        STARTING_WQUEEN & STARTING_BKNIGHTS == 0,
        STARTING_WQUEEN & STARTING_BKING == 0,
        STARTING_WPAWNS & STARTING_WKNIGHTS == 0,
        STARTING_WPAWNS & STARTING_WKING == 0,
        STARTING_WPAWNS & STARTING_BROOKS == 0,
        STARTING_WPAWNS & STARTING_BBISHOPS == 0,
        STARTING_WPAWNS & STARTING_BQUEEN == 0,
        STARTING_WPAWNS & STARTING_BPAWNS == 0,
        STARTING_WPAWNS & STARTING_BKNIGHTS == 0,
        STARTING_WPAWNS & STARTING_BKING == 0,
        STARTING_WKNIGHTS & STARTING_WKING == 0,
        STARTING_WKNIGHTS & STARTING_BROOKS == 0,
        STARTING_WKNIGHTS & STARTING_BBISHOPS == 0,
        STARTING_WKNIGHTS & STARTING_BQUEEN == 0,
        STARTING_WKNIGHTS & STARTING_BPAWNS == 0,
        STARTING_WKNIGHTS & STARTING_BKNIGHTS == 0,
        STARTING_WKNIGHTS & STARTING_BKING == 0,
        STARTING_WKING & STARTING_BROOKS == 0,
        STARTING_WKING & STARTING_BBISHOPS == 0,
        STARTING_WKING & STARTING_BQUEEN == 0,
        STARTING_WKING & STARTING_BPAWNS == 0,
        STARTING_WKING & STARTING_BKNIGHTS == 0,
        STARTING_WKING & STARTING_BKING == 0,
        STARTING_BROOKS & STARTING_BBISHOPS == 0,
        STARTING_BROOKS & STARTING_BQUEEN == 0,
        STARTING_BROOKS & STARTING_BPAWNS == 0,
        STARTING_BROOKS & STARTING_BKNIGHTS == 0,
        STARTING_BROOKS & STARTING_BKING == 0,
        STARTING_BBISHOPS & STARTING_BQUEEN == 0,
        STARTING_BBISHOPS & STARTING_BPAWNS == 0,
        STARTING_BBISHOPS & STARTING_BKNIGHTS == 0,
        STARTING_BBISHOPS & STARTING_BKING == 0,
        STARTING_BQUEEN & STARTING_BPAWNS == 0,
        STARTING_BQUEEN & STARTING_BKNIGHTS == 0,
        STARTING_BQUEEN & STARTING_BKING == 0,
        STARTING_BPAWNS & STARTING_BKNIGHTS == 0,
        STARTING_BPAWNS & STARTING_BKING == 0,
        STARTING_BKNIGHTS & STARTING_BKING == 0,
{
}

/// The standard starting position: every piece kind on its home squares, the
/// unused final slice empty.  The result satisfies the board invariant.
pub fn setup_board() -> (r: [u64; 13])
    ensures
        r@[WROOK as int] == STARTING_WROOKS,
        r@[WBISHOP as int] == STARTING_WBISHOPS,
        r@[WQUEEN as int] == STARTING_WQUEEN,
        r@[WPAWN as int] == STARTING_WPAWNS,
        r@[WKNIGHT as int] == STARTING_WKNIGHTS,
        r@[WKING as int] == STARTING_WKING,
        r@[BROOK as int] == STARTING_BROOKS,
        r@[BBISHOP as int] == STARTING_BBISHOPS,
        r@[BQUEEN as int] == STARTING_BQUEEN,
        r@[BPAWN as int] == STARTING_BPAWNS,
        r@[BKNIGHT as int] == STARTING_BKNIGHTS,
        r@[BKING as int] == STARTING_BKING,
        r@[12] == 0,
        board_ok(r@),
{
    let mut state: [u64; 13] = [0, 0, 0, 0, 0, 0, 0, 0, 0, 0, 0, 0, 0];
    state[WPAWN as usize] = STARTING_WPAWNS;
    state[BPAWN as usize] = STARTING_BPAWNS;
    state[WROOK as usize] = STARTING_WROOKS;
    state[BROOK as usize] = STARTING_BROOKS;
    state[WKNIGHT as usize] = STARTING_WKNIGHTS;
    state[BKNIGHT as usize] = STARTING_BKNIGHTS;
    state[WBISHOP as usize] = STARTING_WBISHOPS;
    state[BBISHOP as usize] = STARTING_BBISHOPS;
    state[WQUEEN as usize] = STARTING_WQUEEN;
    state[BQUEEN as usize] = STARTING_BQUEEN;
    state[WKING as usize] = STARTING_WKING;
    state[BKING as usize] = STARTING_BKING;
    proof {
        lemma_start_disjoint();
        assert forall|s1: int, s2: int| 0 <= s1 < s2 < 12 implies state@[s1] & state@[s2] == 0 by {
            if state@[s1] == 0 || state@[s2] == 0 {
                let x: u64 = state@[s1];
                let y: u64 = state@[s2];
                assert(x == 0 || y == 0 ==> x & y == 0) by (bit_vector);
            }
        }
    }
    state
}

} // verus!
