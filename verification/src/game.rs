use vstd::prelude::*;

use crate::minefield::{
    count_mines, lemma_count_mines_agree, lemma_rowmajor, lemma_rowmajor_injective,
    lemma_zone_clear, zone_cells, Minefield,
};
use crate::tile::{Tile, TileStatus};

verus! {

/// One playthrough: a minefield whose first-clicked tile was safe, had no
/// mine next to it, and was revealed during construction. A session is
/// never reset; a new game gets a fresh one.
#[derive(Debug, PartialEq, Eq, Clone)]
pub struct Game {
    pub minefield: Minefield,
}

impl Game {
    /// The session is exactly as well-formed as its minefield.
    pub open spec fn wf(self) -> bool {
        self.minefield.wf()
    }

    /// Start a new game on a fresh minefield whose first-clicked tile,
    /// (initial_revelation_x, initial_revelation_y), comes out safe with
    /// adjacency count 0 and already revealed; every other tile starts
    /// hidden. Keeping the whole 3-by-3 zone around the first click free of
    /// mines is what makes that opening guarantee possible, so the mine
    /// count must leave room for that zone.
    #[verifier::loop_isolation(false)]
    pub fn new(
        minefield_size: usize,
        num_mines: usize,
        initial_revelation_x: usize,
        initial_revelation_y: usize,
    ) -> (g: Game)
        requires
            initial_revelation_x < minefield_size,
            initial_revelation_y < minefield_size,
            (minefield_size as int) * (minefield_size as int) <= usize::MAX,
            num_mines as int + zone_cells(
                minefield_size as int,
                initial_revelation_x as int,
                initial_revelation_y as int,
                (minefield_size as int) * (minefield_size as int),
            ) <= (minefield_size as int) * (minefield_size as int),
        ensures
            g.wf(),
            g.minefield.size == minefield_size,
            g.minefield.remaining_mines == num_mines,
            count_mines(g.minefield.tiles@) == num_mines,
            g.minefield.tile_at(initial_revelation_x as int, initial_revelation_y as int)
                == Tile::Safe(TileStatus::Revealed, 0u8),
            forall|x: int, y: int|
                0 <= x < minefield_size && 0 <= y < minefield_size && !(x
                    == initial_revelation_x && y == initial_revelation_y) ==> (
                #[trigger] g.minefield.tile_at(x, y)).status() == TileStatus::Hidden,
    {
        let mut minefield = Minefield::new_avoiding(
            minefield_size,
            num_mines,
            initial_revelation_x,
            initial_revelation_y,
        );
        proof {
            lemma_zone_clear(
                minefield.tiles@,
                minefield_size as int,
                initial_revelation_x as int,
                initial_revelation_y as int,
            );
            lemma_rowmajor(
                minefield_size as int,
                initial_revelation_x as int,
                initial_revelation_y as int,
            );
            let fidx = initial_revelation_y as int * minefield_size as int
                + initial_revelation_x as int;
            assert(minefield.tile_ok(fidx));
            assert(minefield.tiles@[fidx].status() == TileStatus::Hidden);
            assert(minefield.tile_at(initial_revelation_x as int, initial_revelation_y as int)
                == Tile::Safe(TileStatus::Hidden, 0u8));
        }
        let ghost pre_reveal = minefield.tiles@;
        let outcome = minefield.reveal_tile(initial_revelation_x, initial_revelation_y);
        proof {
            assert(outcome is Ok);
            assert forall|i: int|
                0 <= i < pre_reveal.len() implies (#[trigger] pre_reveal[i]).is_mine()
                == minefield.tiles@[i].is_mine() by {}
            lemma_count_mines_agree(pre_reveal, minefield.tiles@);
            assert forall|x: int, y: int|
                0 <= x < minefield_size && 0 <= y < minefield_size && !(x
                    == initial_revelation_x && y == initial_revelation_y) implies (
            #[trigger] minefield.tile_at(x, y)).status() == TileStatus::Hidden by {
                lemma_rowmajor(minefield_size as int, x, y);
                if y * minefield_size + x == initial_revelation_y as int * minefield_size as int
                    + initial_revelation_x as int {
                    lemma_rowmajor_injective(
                        minefield_size as int,
                        x,
                        y,
                        initial_revelation_x as int,
                        initial_revelation_y as int,
                    );
                }
            }
        }
        Game { minefield }
    }
}

} // verus!
