use vstd::prelude::*;

use crate::tile::{lemma_flag_flip_involution, Tile, TileStatus};
use rand::Rng;

verus! {

broadcast use vstd::std_specs::vec::axiom_spec_len;

/// A vector's length always fits in usize; stated once so that indexing
/// arithmetic on row-major boards is known not to overflow.
pub proof fn lemma_vec_len_fits(v: &Vec<Tile>)
    ensures
        v@.len() <= usize::MAX,
{
    assert(vstd::std_specs::vec::spec_vec_len(v) <= usize::MAX);
}

/// 1 when the condition holds, 0 otherwise; the building block of the counts.
pub open spec fn one_if(b: bool) -> int {
    if b {
        1
    } else {
        0
    }
}

/// Number of indices i in [0, n) whose tile s[i] satisfies p(i, s[i]).
pub open spec fn count_if(s: Seq<Tile>, p: spec_fn(int, Tile) -> bool, n: int) -> int
    decreases n,
{
    if n <= 0 {
        0
    } else {
        count_if(s, p, n - 1) + one_if(p(n - 1, s[n - 1]))
    }
}

/// The predicate picking out mine tiles.
pub open spec fn mine_pred() -> spec_fn(int, Tile) -> bool {
    |i: int, t: Tile| t.is_mine()
}

/// Is (x, y) inside the 3-by-3 zone centred on (fx, fy)?
pub open spec fn in_zone(fx: int, fy: int, x: int, y: int) -> bool {
    fx - 1 <= x <= fx + 1 && fy - 1 <= y <= fy + 1
}

/// A tile that may still receive a mine: not a mine already and, when a
/// zone is being kept clear, not inside that zone.
pub open spec fn free_pred(size: int, avoid: bool, fx: int, fy: int) -> spec_fn(int, Tile) -> bool {
    |i: int, t: Tile| !t.is_mine() && (avoid ==> !in_zone(fx, fy, i % size, i / size))
}

/// Total number of mine tiles on the board.
pub open spec fn count_mines(s: Seq<Tile>) -> int {
    count_if(s, mine_pred(), s.len() as int)
}

/// Total number of tiles that may still receive a mine.
pub open spec fn count_free(s: Seq<Tile>, size: int, avoid: bool, fx: int, fy: int) -> int {
    count_if(s, free_pred(size, avoid, fx, fy), s.len() as int)
}

/// Does index i hold a tile that may still receive a mine?
pub open spec fn is_free(s: Seq<Tile>, size: int, avoid: bool, fx: int, fy: int, i: int) -> bool {
    free_pred(size, avoid, fx, fy)(i, s[i])
}

/// Number of indices in [0, n) whose coordinates fall in the 3-by-3 zone
/// centred on (fx, fy), on a board of the given side length.
pub open spec fn zone_cells(size: int, fx: int, fy: int, n: int) -> int
    decreases n,
{
    if n <= 0 {
        0
    } else {
        zone_cells(size, fx, fy, n - 1) + one_if(in_zone(fx, fy, (n - 1) % size, (n - 1) / size))
    }
}

/// Is there a mine at (x, y)? False outside the board.
pub open spec fn mine_at(s: Seq<Tile>, size: int, x: int, y: int) -> bool {
    0 <= x < size && 0 <= y < size && s[y * size + x].is_mine()
}

/// The number of mines among the up-to-8 neighbours of (x, y); the tile
/// itself is excluded and the board edges are clipped, without wraparound.
pub open spec fn adjacent_mines(s: Seq<Tile>, size: int, x: int, y: int) -> int {
    one_if(mine_at(s, size, x - 1, y - 1)) + one_if(mine_at(s, size, x, y - 1)) + one_if(
        mine_at(s, size, x + 1, y - 1),
    ) + one_if(mine_at(s, size, x - 1, y)) + one_if(mine_at(s, size, x + 1, y)) + one_if(
        mine_at(s, size, x - 1, y + 1),
    ) + one_if(mine_at(s, size, x, y + 1)) + one_if(mine_at(s, size, x + 1, y + 1))
}

/// Victory: every mine is flagged and every safe tile is revealed.
pub open spec fn victory(s: Seq<Tile>) -> bool {
    forall|i: int| 0 <= i < s.len() ==> (#[trigger] s[i]).victorious()
}

/// Row-major index arithmetic: (x, y) with x, y < size maps to y * size + x,
/// which lies in [0, size * size) and decodes back to x and y.
pub proof fn lemma_rowmajor(size: int, x: int, y: int)
    requires
        0 <= x < size,
        0 <= y < size,
    ensures
        0 <= y * size + x < size * size,
        (y * size + x) % size == x,
        (y * size + x) / size == y,
{
    assert(0 <= y * size + x < size * size) by (nonlinear_arith)
        requires
            0 <= x < size,
            0 <= y < size,
    ;
    vstd::arithmetic::div_mod::lemma_fundamental_div_mod_converse(y * size + x, size, y, x);
}

/// Decode a row-major index: 0 <= i < size * size splits into coordinates
/// x = i % size and y = i / size, both on the board.
pub proof fn lemma_rowmajor_decode(size: int, i: int)
    requires
        0 <= size,
        0 <= i < size * size,
    ensures
        0 < size,
        0 <= i % size < size,
        0 <= i / size < size,
        size * (i / size) + (i % size) == i,
{
    assert(0 < size) by (nonlinear_arith)
        requires
            0 <= size,
            0 <= i < size * size,
    ;
    vstd::arithmetic::div_mod::lemma_fundamental_div_mod(i, size);
    vstd::arithmetic::div_mod::lemma_mod_bound(i, size);
    assert(i / size < size) by (nonlinear_arith)
        requires
            0 < size,
            i < size * size,
            i == size * (i / size) + (i % size),
            0 <= i % size < size,
    ;
    assert(i / size >= 0) by (nonlinear_arith)
        requires
            0 < size,
            i >= 0,
            i == size * (i / size) + (i % size),
            0 <= i % size < size,
    ;
}

/// Two distinct coordinate pairs never share a row-major index.
pub proof fn lemma_rowmajor_injective(size: int, x1: int, y1: int, x2: int, y2: int)
    requires
        0 <= x1 < size,
        0 <= y1 < size,
        0 <= x2 < size,
        0 <= y2 < size,
        y1 * size + x1 == y2 * size + x2,
    ensures
        x1 == x2,
        y1 == y2,
{
    lemma_rowmajor(size, x1, y1);
    lemma_rowmajor(size, x2, y2);
}

proof fn lemma_count_if_bounds(s: Seq<Tile>, p: spec_fn(int, Tile) -> bool, n: int)
    requires
        n <= s.len(),
    ensures
        0 <= count_if(s, p, n),
        count_if(s, p, n) <= (if n <= 0 {
            0
        } else {
            n
        }),
    decreases n,
{
    if n > 0 {
        lemma_count_if_bounds(s, p, n - 1);
    }
}

proof fn lemma_count_if_pos(s: Seq<Tile>, p: spec_fn(int, Tile) -> bool, n: int, i: int)
    requires
        0 <= i < n,
        n <= s.len(),
        p(i, s[i]),
    ensures
        count_if(s, p, n) >= 1,
    decreases n,
{
    if i == n - 1 {
        lemma_count_if_bounds(s, p, n - 1);
    } else {
        lemma_count_if_pos(s, p, n - 1, i);
    }
}

proof fn lemma_count_if_agree(s1: Seq<Tile>, s2: Seq<Tile>, p: spec_fn(int, Tile) -> bool, n: int)
    requires
        n <= s1.len(),
        n <= s2.len(),
        forall|i: int| 0 <= i < n ==> p(i, #[trigger] s1[i]) == p(i, s2[i]),
    ensures
        count_if(s1, p, n) == count_if(s2, p, n),
    decreases n,
{
    if n > 0 {
        lemma_count_if_agree(s1, s2, p, n - 1);
    }
}

proof fn lemma_count_if_zero(s: Seq<Tile>, p: spec_fn(int, Tile) -> bool, n: int)
    requires
        n <= s.len(),
        forall|i: int| 0 <= i < n ==> !p(i, #[trigger] s[i]),
    ensures
        count_if(s, p, n) == 0,
    decreases n,
{
    if n > 0 {
        lemma_count_if_zero(s, p, n - 1);
    }
}

proof fn lemma_count_if_update(s: Seq<Tile>, p: spec_fn(int, Tile) -> bool, n: int, j: int, t: Tile)
    requires
        0 <= j < n,
        n <= s.len(),
    ensures
        count_if(s.update(j, t), p, n) == count_if(s, p, n) - one_if(p(j, s[j])) + one_if(
            p(j, t),
        ),
    decreases n,
{
    let su = s.update(j, t);
    if j == n - 1 {
        assert(forall|i: int| 0 <= i < n - 1 ==> p(i, #[trigger] s[i]) == p(i, su[i]));
        lemma_count_if_agree(s, su, p, n - 1);
    } else {
        lemma_count_if_update(s, p, n - 1, j, t);
    }
}

/// On a board with no mines at all, the free tiles in [0, n) are exactly
/// those outside the protected zone, when one is kept clear.
proof fn lemma_count_free_fresh(s: Seq<Tile>, size: int, avoid: bool, fx: int, fy: int, n: int)
    requires
        0 <= n <= s.len(),
        forall|i: int| 0 <= i < s.len() ==> !(#[trigger] s[i]).is_mine(),
    ensures
        count_if(s, free_pred(size, avoid, fx, fy), n) == n - (if avoid {
            zone_cells(size, fx, fy, n)
        } else {
            0
        }),
    decreases n,
{
    if n > 0 {
        lemma_count_free_fresh(s, size, avoid, fx, fy, n - 1);
    }
}

/// Stored counts aside, adjacency depends only on where the mines are: two
/// boards with the same mines everywhere have the same neighbour counts.
pub proof fn lemma_adjacent_mines_agree(s1: Seq<Tile>, s2: Seq<Tile>, size: int, x: int, y: int)
    requires
        s1.len() == s2.len(),
        s1.len() == size * size,
        forall|i: int| 0 <= i < s1.len() ==> (#[trigger] s1[i]).is_mine() == s2[i].is_mine(),
    ensures
        adjacent_mines(s1, size, x, y) == adjacent_mines(s2, size, x, y),
{
    assert forall|xx: int, yy: int|
        #[trigger] mine_at(s1, size, xx, yy) == mine_at(s2, size, xx, yy) by {
        if 0 <= xx < size && 0 <= yy < size {
            lemma_rowmajor(size, xx, yy);
            assert(s1[yy * size + xx].is_mine() == s2[yy * size + xx].is_mine());
        }
    }
}

/// A board whose mines all lie outside the 3-by-3 zone centred on (fx, fy)
/// has no mine on (fx, fy) itself and none adjacent to it.
pub proof fn lemma_zone_clear(s: Seq<Tile>, size: int, fx: int, fy: int)
    requires
        s.len() == size * size,
        0 <= fx < size,
        0 <= fy < size,
        forall|i: int|
            0 <= i < s.len() && (#[trigger] s[i]).is_mine() ==> !in_zone(
                fx,
                fy,
                i % size,
                i / size,
            ),
    ensures
        adjacent_mines(s, size, fx, fy) == 0,
        !s[fy * size + fx].is_mine(),
{
    lemma_no_mine_in_zone(s, size, fx, fy, fx - 1, fy - 1);
    lemma_no_mine_in_zone(s, size, fx, fy, fx, fy - 1);
    lemma_no_mine_in_zone(s, size, fx, fy, fx + 1, fy - 1);
    lemma_no_mine_in_zone(s, size, fx, fy, fx - 1, fy);
    lemma_no_mine_in_zone(s, size, fx, fy, fx, fy);
    lemma_no_mine_in_zone(s, size, fx, fy, fx + 1, fy);
    lemma_no_mine_in_zone(s, size, fx, fy, fx - 1, fy + 1);
    lemma_no_mine_in_zone(s, size, fx, fy, fx, fy + 1);
    lemma_no_mine_in_zone(s, size, fx, fy, fx + 1, fy + 1);
    lemma_rowmajor(size, fx, fy);
}

proof fn lemma_no_mine_in_zone(s: Seq<Tile>, size: int, fx: int, fy: int, x: int, y: int)
    requires
        s.len() == size * size,
        forall|i: int|
            0 <= i < s.len() && (#[trigger] s[i]).is_mine() ==> !in_zone(
                fx,
                fy,
                i % size,
                i / size,
            ),
        in_zone(fx, fy, x, y),
    ensures
        !mine_at(s, size, x, y),
{
    if 0 <= x < size && 0 <= y < size {
        lemma_rowmajor(size, x, y);
        let i = y * size + x;
        if s[i].is_mine() {
            assert(!in_zone(fx, fy, i % size, i / size));
            assert(false);
        }
    }
}

/// A square board of size * size tiles stored in row-major order, together
/// with the number of mines the player still has to account for.
#[derive(Debug, PartialEq, Eq, Clone)]
pub struct Minefield {
    pub size: usize,
    pub remaining_mines: usize,
    pub tiles: Vec<Tile>,
}

impl Minefield {
    /// The tile stored for coordinates (x, y).
    pub open spec fn tile_at(self, x: int, y: int) -> Tile {
        self.tiles@[y * self.size + x]
    }

    /// The backing vector holds exactly size * size tiles.
    pub open spec fn sized(self) -> bool {
        self.tiles@.len() == self.size * self.size
    }

    /// Is the adjacency count stored at index i correct for its coordinates?
    pub open spec fn tile_ok(self, i: int) -> bool {
        self.tiles@[i] matches Tile::Safe(_, n) ==> n == adjacent_mines(
            self.tiles@,
            self.size as int,
            i % (self.size as int),
            i / (self.size as int),
        )
    }

    /// Well-formed: right length, and every safe tile stores exactly the
    /// number of mines among its neighbours.
    pub open spec fn wf(self) -> bool {
        self.sized() && forall|i: int| 0 <= i < self.tiles@.len() ==> #[trigger] self.tile_ok(i)
    }

    /// Direct indexed lookup of the tile at (x, y).
    pub fn get_tile_at(&self, x: usize, y: usize) -> (t: &Tile)
        requires
            self.sized(),
            x < self.size,
            y < self.size,
        ensures
            *t == self.tile_at(x as int, y as int),
    {
        proof {
            lemma_vec_len_fits(&self.tiles);
            lemma_rowmajor(self.size as int, x as int, y as int);
        }
        &self.tiles[y * self.size + x]
    }

    /// Mutable lookup of the tile at (x, y); writing through the result is
    /// the one way the board changes under it.
    pub fn get_tile_at_mut(&mut self, x: usize, y: usize) -> (t: &mut Tile)
        requires
            old(self).sized(),
            x < old(self).size,
            y < old(self).size,
        ensures
            *t == old(self).tile_at(x as int, y as int),
            final(self).size == old(self).size,
            final(self).remaining_mines == old(self).remaining_mines,
            final(self).tiles@ == old(self).tiles@.update(
                y as int * old(self).size as int + x as int,
                *final(t),
            ),
    {
        proof {
            lemma_vec_len_fits(&self.tiles);
            lemma_rowmajor(self.size as int, x as int, y as int);
        }
        let idx = y * self.size + x;
        &mut self.tiles[idx]
    }

    fn is_mine_at(&self, x: usize, y: usize) -> (b: bool)
        requires
            self.sized(),
            x < self.size,
            y < self.size,
        ensures
            b == mine_at(self.tiles@, self.size as int, x as int, y as int),
    {
        proof {
            lemma_vec_len_fits(&self.tiles);
            lemma_rowmajor(self.size as int, x as int, y as int);
        }
        match self.tiles[y * self.size + x] {
            Tile::Mine(_) => true,
            _ => false,
        }
    }

    /// Count the mines in the 3-by-3 neighbourhood of (tile_x, tile_y); the
    /// tile itself is excluded and the board edges are clipped, so corner
    /// tiles examine 3 neighbours and edge tiles 5.
    pub fn get_tile_surrounding_mines(&self, tile_x: usize, tile_y: usize) -> (n: u8)
        requires
            self.sized(),
            tile_x < self.size,
            tile_y < self.size,
        ensures
            n as int == adjacent_mines(
                self.tiles@,
                self.size as int,
                tile_x as int,
                tile_y as int,
            ),
            n <= 8,
    {
        let mut n: u8 = 0;
        if tile_x > 0 && tile_y > 0 && self.is_mine_at(tile_x - 1, tile_y - 1) {
            n += 1;
        }
        if tile_y > 0 && self.is_mine_at(tile_x, tile_y - 1) {
            n += 1;
        }
        if tile_x + 1 < self.size && tile_y > 0 && self.is_mine_at(tile_x + 1, tile_y - 1) {
            n += 1;
        }
        if tile_x > 0 && self.is_mine_at(tile_x - 1, tile_y) {
            n += 1;
        }
        if tile_x + 1 < self.size && self.is_mine_at(tile_x + 1, tile_y) {
            n += 1;
        }
        if tile_x > 0 && tile_y + 1 < self.size && self.is_mine_at(tile_x - 1, tile_y + 1) {
            n += 1;
        }
        if tile_y + 1 < self.size && self.is_mine_at(tile_x, tile_y + 1) {
            n += 1;
        }
        if tile_x + 1 < self.size && tile_y + 1 < self.size && self.is_mine_at(
            tile_x + 1,
            tile_y + 1,
        ) {
            n += 1;
        }
        n
    }

    /// Recompute and store the adjacency count of every safe tile; mines
    /// and every tile's status are left exactly as they were.
    #[verifier::loop_isolation(false)]
    fn fill_counts(&mut self)
        requires
            old(self).sized(),
        ensures
            final(self).sized(),
            final(self).size == old(self).size,
            final(self).remaining_mines == old(self).remaining_mines,
            forall|i: int|
                0 <= i < old(self).tiles@.len() ==> (#[trigger] final(self).tiles@[i]).is_mine()
                    == old(self).tiles@[i].is_mine(),
            forall|i: int|
                0 <= i < old(self).tiles@.len() ==> (#[trigger] final(self).tiles@[i]).status()
                    == old(self).tiles@[i].status(),
            final(self).wf(),
    {
        proof {
            lemma_vec_len_fits(&self.tiles);
        }
        let total = self.size * self.size;
        let mut i: usize = 0;
        while i < total
            invariant
                i <= total,
                self.size == old(self).size,
                self.remaining_mines == old(self).remaining_mines,
                self.tiles@.len() == old(self).tiles@.len(),
                forall|j: int|
                    0 <= j < total ==> (#[trigger] self.tiles@[j]).is_mine()
                        == old(self).tiles@[j].is_mine(),
                forall|j: int|
                    0 <= j < total ==> (#[trigger] self.tiles@[j]).status()
                        == old(self).tiles@[j].status(),
                forall|j: int| 0 <= j < i ==> #[trigger] self.tile_ok(j),
            decreases total - i,
        {
            proof {
                lemma_rowmajor_decode(self.size as int, i as int);
            }
            match self.tiles[i] {
                Tile::Mine(_) => {
                    proof {
                        assert(self.tile_ok(i as int));
                    }
                },
                Tile::Safe(st, _) => {
                    let x = i % self.size;
                    let y = i / self.size;
                    let n = self.get_tile_surrounding_mines(x, y);
                    let ghost m0 = *self;
                    self.tiles[i] = Tile::Safe(st, n);
                    proof {
                        assert forall|l: int|
                            0 <= l < m0.tiles@.len() implies (#[trigger] m0.tiles@[l]).is_mine()
                            == self.tiles@[l].is_mine() by {}
                        assert forall|j: int| 0 <= j < i + 1 implies #[trigger] self.tile_ok(
                            j,
                        ) by {
                            lemma_adjacent_mines_agree(
                                m0.tiles@,
                                self.tiles@,
                                self.size as int,
                                j % (self.size as int),
                                j / (self.size as int),
                            );
                            if j < i {
                                assert(m0.tile_ok(j));
                            }
                        }
                    }
                },
            }
            i += 1;
        }
    }

    /// Build a fresh board: exactly num_mines mines dropped on uniformly
    /// drawn tiles, every tile starting Hidden and every safe tile storing
    /// its correct adjacency count.
    pub fn new(size: usize, num_mines: usize) -> (m: Minefield)
        requires
            num_mines as int <= (size as int) * (size as int),
            (size as int) * (size as int) <= usize::MAX,
        ensures
            m.wf(),
            m.size == size,
            m.remaining_mines == num_mines,
            count_mines(m.tiles@) == num_mines,
            forall|i: int|
                0 <= i < m.tiles@.len() ==> (#[trigger] m.tiles@[i]).status()
                    == TileStatus::Hidden,
    {
        let tiles = place_mines(size, num_mines, false, 0, 0);
        let mut m = Minefield { size, remaining_mines: num_mines, tiles };
        let ghost s1 = m.tiles@;
        m.fill_counts();
        proof {
            lemma_count_if_agree(s1, m.tiles@, mine_pred(), s1.len() as int);
        }
        m
    }

    /// Build a fresh board the way new does, but keep the whole 3-by-3
    /// zone centred on (fx, fy) free of mines, so that tile comes out safe
    /// with adjacency count 0; the mine count must leave room for the zone.
    pub fn new_avoiding(size: usize, num_mines: usize, fx: usize, fy: usize) -> (m: Minefield)
        requires
            fx < size,
            fy < size,
            (size as int) * (size as int) <= usize::MAX,
            num_mines as int + zone_cells(
                size as int,
                fx as int,
                fy as int,
                (size as int) * (size as int),
            ) <= (size as int) * (size as int),
        ensures
            m.wf(),
            m.size == size,
            m.remaining_mines == num_mines,
            count_mines(m.tiles@) == num_mines,
            forall|i: int|
                0 <= i < m.tiles@.len() ==> (#[trigger] m.tiles@[i]).status()
                    == TileStatus::Hidden,
            forall|i: int|
                0 <= i < m.tiles@.len() && (#[trigger] m.tiles@[i]).is_mine() ==> !in_zone(
                    fx as int,
                    fy as int,
                    i % (size as int),
                    i / (size as int),
                ),
    {
        let tiles = place_mines(size, num_mines, true, fx, fy);
        let mut m = Minefield { size, remaining_mines: num_mines, tiles };
        let ghost s1 = m.tiles@;
        m.fill_counts();
        proof {
            lemma_count_if_agree(s1, m.tiles@, mine_pred(), s1.len() as int);
            assert forall|i: int|
                0 <= i < m.tiles@.len() && (#[trigger] m.tiles@[i]).is_mine() implies !in_zone(
                fx as int,
                fy as int,
                i % (size as int),
                i / (size as int),
            ) by {
                assert(s1[i].is_mine() == m.tiles@[i].is_mine());
            }
        }
        m
    }

    /// Toggle the flag on (x, y): Hidden becomes Flagged, Flagged becomes
    /// Hidden, and a Revealed tile is left untouched, whatever its kind.
    pub fn flag_tile(&mut self, x: usize, y: usize)
        requires
            old(self).sized(),
            x < old(self).size,
            y < old(self).size,
        ensures
            final(self).size == old(self).size,
            final(self).remaining_mines == old(self).remaining_mines,
            final(self).tiles@ == old(self).tiles@.update(
                y as int * old(self).size as int + x as int,
                old(self).tile_at(x as int, y as int).flag_flip(),
            ),
            old(self).wf() ==> final(self).wf(),
    {
        let t = self.get_tile_at_mut(x, y);
        match *t {
            Tile::Mine(st) => match st {
                TileStatus::Revealed => {},
                TileStatus::Flagged => {
                    *t = Tile::Mine(TileStatus::Hidden);
                },
                TileStatus::Hidden => {
                    *t = Tile::Mine(TileStatus::Flagged);
                },
            },
            Tile::Safe(st, n) => match st {
                TileStatus::Revealed => {},
                TileStatus::Flagged => {
                    *t = Tile::Safe(TileStatus::Hidden, n);
                },
                TileStatus::Hidden => {
                    *t = Tile::Safe(TileStatus::Flagged, n);
                },
            },
        }
        proof {
            lemma_rowmajor(old(self).size as int, x as int, y as int);
            if old(self).wf() {
                lemma_wf_preserved(*old(self), *self);
            }
        }
    }

    /// Reveal (x, y) unconditionally, flags notwithstanding; reports Err
    /// exactly when the tile was a mine, the detonation that ends the game.
    pub fn reveal_tile(&mut self, x: usize, y: usize) -> (r: Result<(), ()>)
        requires
            old(self).sized(),
            x < old(self).size,
            y < old(self).size,
        ensures
            final(self).size == old(self).size,
            final(self).remaining_mines == old(self).remaining_mines,
            final(self).tiles@ == old(self).tiles@.update(
                y as int * old(self).size as int + x as int,
                old(self).tile_at(x as int, y as int).with_status(TileStatus::Revealed),
            ),
            r is Err <==> old(self).tile_at(x as int, y as int).is_mine(),
            old(self).wf() ==> final(self).wf(),
    {
        let t = self.get_tile_at_mut(x, y);
        let hit = match *t {
            Tile::Mine(_) => {
                *t = Tile::Mine(TileStatus::Revealed);
                true
            },
            Tile::Safe(_, n) => {
                *t = Tile::Safe(TileStatus::Revealed, n);
                false
            },
        };
        proof {
            lemma_rowmajor(old(self).size as int, x as int, y as int);
            if old(self).wf() {
                lemma_wf_preserved(*old(self), *self);
            }
        }
        if hit {
            Err(())
        } else {
            Ok(())
        }
    }

    /// Turn every tile face up, whatever its kind or prior status; used to
    /// show the whole board after a loss.
    #[verifier::loop_isolation(false)]
    pub fn reveal_all_tiles(&mut self)
        requires
            old(self).sized(),
        ensures
            final(self).size == old(self).size,
            final(self).remaining_mines == old(self).remaining_mines,
            final(self).tiles@.len() == old(self).tiles@.len(),
            forall|i: int|
                0 <= i < old(self).tiles@.len() ==> #[trigger] final(self).tiles@[i] == old(
                    self,
                ).tiles@[i].with_status(TileStatus::Revealed),
            old(self).wf() ==> final(self).wf(),
    {
        proof {
            lemma_vec_len_fits(&self.tiles);
        }
        let total = self.size * self.size;
        let mut i: usize = 0;
        while i < total
            invariant
                i <= total,
                self.size == old(self).size,
                self.remaining_mines == old(self).remaining_mines,
                self.tiles@.len() == old(self).tiles@.len(),
                forall|j: int|
                    0 <= j < i ==> #[trigger] self.tiles@[j] == old(self).tiles@[j].with_status(
                        TileStatus::Revealed,
                    ),
                forall|j: int| i <= j < self.tiles@.len() ==> #[trigger] self.tiles@[j] == old(self).tiles@[j],
            decreases total - i,
        {
            let t = self.tiles[i];
            match t {
                Tile::Mine(_) => {
                    self.tiles[i] = Tile::Mine(TileStatus::Revealed);
                },
                Tile::Safe(_, n) => {
                    self.tiles[i] = Tile::Safe(TileStatus::Revealed, n);
                },
            }
            i += 1;
        }
        proof {
            if old(self).wf() {
                lemma_wf_preserved(*old(self), *self);
            }
        }
    }

    /// Has the player won? Some(()) exactly when every mine is flagged and
    /// every safe tile is revealed; any deviation anywhere is a plain None.
    #[verifier::loop_isolation(false)]
    pub fn check_victory(&self) -> (r: Option<()>)
        requires
            self.sized(),
        ensures
            r is Some <==> victory(self.tiles@),
    {
        proof {
            lemma_vec_len_fits(&self.tiles);
        }
        let total = self.size * self.size;
        let mut i: usize = 0;
        while i < total
            invariant
                i <= total,
                forall|j: int| 0 <= j < i ==> (#[trigger] self.tiles@[j]).victorious(),
            decreases total - i,
        {
            let ok = match self.tiles[i] {
                Tile::Mine(st) => matches!(st, TileStatus::Flagged),
                Tile::Safe(st, _) => matches!(st, TileStatus::Revealed),
            };
            if !ok {
                proof {
                    assert(!self.tiles@[i as int].victorious());
                }
                return None;
            }
            i += 1;
        }
        Some(())
    }
}

/// A change that keeps every tile's kind and stored count, moving only
/// statuses, preserves well-formedness.
proof fn lemma_wf_preserved(m1: Minefield, m2: Minefield)
    requires
        m1.wf(),
        m2.size == m1.size,
        m2.tiles@.len() == m1.tiles@.len(),
        forall|i: int|
            0 <= i < m1.tiles@.len() ==> #[trigger] m2.tiles@[i] == m1.tiles@[i].with_status(
                m2.tiles@[i].status(),
            ),
    ensures
        m2.wf(),
{
    assert forall|j: int|
        0 <= j < m1.tiles@.len() implies (#[trigger] m1.tiles@[j]).is_mine()
        == m2.tiles@[j].is_mine() by {
        assert(m2.tiles@[j] == m1.tiles@[j].with_status(m2.tiles@[j].status()));
    }
    assert forall|i: int| 0 <= i < m2.tiles@.len() implies #[trigger] m2.tile_ok(i) by {
        assert(m1.tile_ok(i));
        lemma_adjacent_mines_agree(
            m1.tiles@,
            m2.tiles@,
            m1.size as int,
            i % (m1.size as int),
            i / (m1.size as int),
        );
    }
}

/// Law: toggling the same tile's flag twice leaves the board exactly as it
/// was, provided that tile is not revealed; the board-level counterpart of
/// the tile-level involution.
pub proof fn lemma_flag_board_involution(s: Seq<Tile>, i: int)
    requires
        0 <= i < s.len(),
        s[i].status() != TileStatus::Revealed,
    ensures
        s.update(i, s[i].flag_flip()).update(
            i,
            s.update(i, s[i].flag_flip())[i].flag_flip(),
        ) == s,
{
    let s1 = s.update(i, s[i].flag_flip());
    lemma_flag_flip_involution(s[i]);
    assert(s1.update(i, s1[i].flag_flip()) =~= s);
}

/// Relies on rand's Rng::gen_range, sampled on the thread-local generator,
/// for a uniform draw from the half-open range [0, n). The empty range, the
/// one input on which gen_range panics, is ruled out by the precondition;
/// nothing more than the bound can be promised of a random draw.
#[verifier::external_body]
fn random_below(n: usize) -> (r: usize)
    requires
        n >= 1,
    ensures
        r < n,
{
    rand::thread_rng().gen_range(0..n)
}

/// May index k still receive a mine? True when the tile is not a mine and,
/// when a zone is being kept clear, its coordinates lie outside that zone.
fn tile_is_free(tiles: &Vec<Tile>, size: usize, avoid: bool, fx: usize, fy: usize, k: usize) -> (b:
    bool)
    requires
        tiles@.len() == size * size,
        k < tiles@.len(),
        avoid ==> fx < size && fy < size,
    ensures
        b == is_free(tiles@, size as int, avoid, fx as int, fy as int, k as int),
{
    proof {
        lemma_rowmajor_decode(size as int, k as int);
    }
    match tiles[k] {
        Tile::Mine(_) => false,
        Tile::Safe(_, _) => {
            if avoid {
                let x = k % size;
                let y = k / size;
                !(fx <= x + 1 && x <= fx + 1 && fy <= y + 1 && y <= fy + 1)
            } else {
                true
            }
        },
    }
}

/// Count the tiles that may still receive a mine.
#[verifier::loop_isolation(false)]
fn count_free_tiles(tiles: &Vec<Tile>, size: usize, avoid: bool, fx: usize, fy: usize) -> (c:
    usize)
    requires
        tiles@.len() == size * size,
        avoid ==> fx < size && fy < size,
    ensures
        c as int == count_free(tiles@, size as int, avoid, fx as int, fy as int),
{
    let total = tiles.len();
    let mut c: usize = 0;
    let mut k: usize = 0;
    while k < total
        invariant
            k <= total,
            c <= k,
            c as int == count_if(
                tiles@,
                free_pred(size as int, avoid, fx as int, fy as int),
                k as int,
            ),
        decreases total - k,
    {
        if tile_is_free(tiles, size, avoid, fx, fy, k) {
            c += 1;
        }
        k += 1;
    }
    c
}

/// Walk the board to the tile holding rank r among those that may still
/// receive a mine; such a tile exists because r is below their count.
#[verifier::loop_isolation(false)]
fn nth_free_tile(tiles: &Vec<Tile>, size: usize, avoid: bool, fx: usize, fy: usize, r: usize) -> (
    idx: usize)
    requires
        tiles@.len() == size * size,
        avoid ==> fx < size && fy < size,
        (r as int) < count_free(tiles@, size as int, avoid, fx as int, fy as int),
    ensures
        idx < tiles@.len(),
        is_free(tiles@, size as int, avoid, fx as int, fy as int, idx as int),
{
    let total = tiles.len();
    let mut seen: usize = 0;
    let mut k: usize = 0;
    while k < total
        invariant
            k <= total,
            seen <= r,
            seen as int == count_if(
                tiles@,
                free_pred(size as int, avoid, fx as int, fy as int),
                k as int,
            ),
        decreases total - k,
    {
        if tile_is_free(tiles, size, avoid, fx, fy, k) {
            if seen == r {
                return k;
            }
            seen += 1;
        }
        k += 1;
    }
    proof {
        assert(false);
    }
    0
}

/// Lay out a fresh board of size * size tiles and drop num_mines mines on
/// it, each drawn uniformly over the tiles that may still take one; with
/// avoid set, the 3-by-3 zone centred on (fx, fy) stays clear of mines.
/// Every status is Hidden and every safe count still 0 afterwards.
#[verifier::loop_isolation(false)]
fn place_mines(size: usize, num_mines: usize, avoid: bool, fx: usize, fy: usize) -> (tiles: Vec<
    Tile,
>)
    requires
        (size as int) * (size as int) <= usize::MAX,
        avoid ==> fx < size && fy < size,
        num_mines as int + (if avoid {
            zone_cells(size as int, fx as int, fy as int, (size as int) * (size as int))
        } else {
            0
        }) <= (size as int) * (size as int),
    ensures
        tiles@.len() == size * size,
        count_mines(tiles@) == num_mines,
        forall|i: int|
            0 <= i < tiles@.len() ==> #[trigger] tiles@[i] == Tile::Mine(TileStatus::Hidden)
                || tiles@[i] == Tile::Safe(TileStatus::Hidden, 0u8),
        avoid ==> forall|i: int|
            0 <= i < tiles@.len() && (#[trigger] tiles@[i]).is_mine() ==> !in_zone(
                fx as int,
                fy as int,
                i % (size as int),
                i / (size as int),
            ),
{
    let total = size * size;
    let mut tiles: Vec<Tile> = Vec::new();
    let mut k: usize = 0;
    while k < total
        invariant
            tiles@.len() == k,
            k <= total,
            forall|j: int| 0 <= j < k ==> #[trigger] tiles@[j] == Tile::Safe(TileStatus::Hidden, 0u8),
        decreases total - k,
    {
        tiles.push(Tile::Safe(TileStatus::Hidden, 0));
        k += 1;
    }
    let ghost zone: int = if avoid {
        zone_cells(size as int, fx as int, fy as int, (size as int) * (size as int))
    } else {
        0
    };
    proof {
        lemma_count_free_fresh(
            tiles@,
            size as int,
            avoid,
            fx as int,
            fy as int,
            tiles@.len() as int,
        );
        lemma_count_if_zero(tiles@, mine_pred(), tiles@.len() as int);
    }
    let free_start = count_free_tiles(&tiles, size, avoid, fx, fy);
    let mut placed: usize = 0;
    while placed < num_mines
        invariant
            tiles@.len() == total,
            placed <= num_mines,
            placed <= free_start,
            free_start as int == total - zone,
            count_mines(tiles@) == placed,
            count_free(tiles@, size as int, avoid, fx as int, fy as int) == free_start - placed,
            forall|i: int|
                0 <= i < tiles@.len() ==> #[trigger] tiles@[i] == Tile::Mine(TileStatus::Hidden)
                    || tiles@[i] == Tile::Safe(TileStatus::Hidden, 0u8),
            avoid ==> forall|i: int|
                0 <= i < tiles@.len() && (#[trigger] tiles@[i]).is_mine() ==> !in_zone(
                    fx as int,
                    fy as int,
                    i % (size as int),
                    i / (size as int),
                ),
        decreases num_mines - placed,
    {
        let r = random_below(free_start - placed);
        let idx = nth_free_tile(&tiles, size, avoid, fx, fy, r);
        let ghost s0 = tiles@;
        tiles[idx] = Tile::Mine(TileStatus::Hidden);
        placed += 1;
        proof {
            lemma_count_if_update(
                s0,
                mine_pred(),
                s0.len() as int,
                idx as int,
                Tile::Mine(TileStatus::Hidden),
            );
            lemma_count_if_update(
                s0,
                free_pred(size as int, avoid, fx as int, fy as int),
                s0.len() as int,
                idx as int,
                Tile::Mine(TileStatus::Hidden),
            );
        }
    }
    tiles
}

/// Law: in a well-formed minefield every safe tile's stored count equals
/// the number of mines among the neighbours of its coordinates.
pub proof fn lemma_safe_count_correct(m: Minefield, x: int, y: int)
    requires
        m.wf(),
        0 <= x < m.size,
        0 <= y < m.size,
    ensures
        m.tile_at(x, y) matches Tile::Safe(_, n) ==> n == adjacent_mines(
            m.tiles@,
            m.size as int,
            x,
            y,
        ),
{
    lemma_rowmajor(m.size as int, x, y);
    assert(m.tile_ok(y * m.size + x));
}

/// Law: every mine is counted; a board holding a mine anywhere has a mine
/// count of at least 1, so a count of 0 means no mine at all.
pub proof fn lemma_mine_counted(s: Seq<Tile>, i: int)
    requires
        0 <= i < s.len(),
        s[i].is_mine(),
    ensures
        count_mines(s) >= 1,
{
    lemma_count_if_pos(s, mine_pred(), s.len() as int, i);
}

/// Law: status changes never alter the mine count; two boards with the
/// same mines everywhere hold the same number of them.
pub proof fn lemma_count_mines_agree(s1: Seq<Tile>, s2: Seq<Tile>)
    requires
        s1.len() == s2.len(),
        forall|i: int| 0 <= i < s1.len() ==> (#[trigger] s1[i]).is_mine() == s2[i].is_mine(),
    ensures
        count_mines(s1) == count_mines(s2),
{
    lemma_count_if_agree(s1, s2, mine_pred(), s1.len() as int);
}

/// Law: a flag toggle aimed at a revealed tile changes nothing on the board.
pub proof fn lemma_flag_revealed_noop(s: Seq<Tile>, i: int)
    requires
        0 <= i < s.len(),
        s[i].status() == TileStatus::Revealed,
    ensures
        s.update(i, s[i].flag_flip()) == s,
{
    lemma_flag_flip_involution(s[i]);
    assert(s.update(i, s[i].flag_flip()) =~= s);
}

} // verus!
