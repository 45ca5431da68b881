use vstd::prelude::*;

verus! {

/// Visibility of a tile: what the player currently sees of it.
#[derive(Debug, PartialEq, Eq, Copy, Clone)]
pub enum TileStatus {
    Revealed,
    Flagged,
    Hidden,
}

/// One board cell: a mine, or a safe tile carrying the number of mines
/// among its up-to-8 neighbours.
#[derive(Debug, PartialEq, Eq, Copy, Clone)]
pub enum Tile {
    Mine(TileStatus),
    Safe(TileStatus, u8),
}

impl Tile {
    /// The visibility status, independent of the tile's kind.
    pub open spec fn status(self) -> TileStatus {
        match self {
            Tile::Mine(st) => st,
            Tile::Safe(st, _) => st,
        }
    }

    /// Does the tile hold a mine?
    pub open spec fn is_mine(self) -> bool {
        self matches Tile::Mine(_)
    }

    /// The same tile with its status replaced; kind and count are kept.
    pub open spec fn with_status(self, st: TileStatus) -> Tile {
        match self {
            Tile::Mine(_) => Tile::Mine(st),
            Tile::Safe(_, n) => Tile::Safe(st, n),
        }
    }

    /// One flag toggle: Hidden and Flagged trade places, Revealed is left alone.
    pub open spec fn flag_flip(self) -> Tile {
        match self.status() {
            TileStatus::Revealed => self,
            TileStatus::Flagged => self.with_status(TileStatus::Hidden),
            TileStatus::Hidden => self.with_status(TileStatus::Flagged),
        }
    }

    /// Does this tile meet the victory condition: a mine must be flagged,
    /// a safe tile must be revealed?
    pub open spec fn victorious(self) -> bool {
        match self {
            Tile::Mine(st) => st == TileStatus::Flagged,
            Tile::Safe(st, _) => st == TileStatus::Revealed,
        }
    }
}

/// Law: the flag toggle is an involution on tiles that are not revealed,
/// and leaves revealed tiles unchanged.
pub proof fn lemma_flag_flip_involution(t: Tile)
    ensures
        t.status() != TileStatus::Revealed ==> t.flag_flip().flag_flip() == t,
        t.status() == TileStatus::Revealed ==> t.flag_flip() == t,
{
}

} // verus!
