//! The tile-matching puzzle: tiles with a colour on each side, and a grid that
//! is solved when every pair of touching sides agrees.
use vstd::prelude::*;

use crate::assets::AssetId;

verus! {

/// A pair of grid coordinates, or the size of a grid.
#[derive(Clone, Copy, Debug, PartialEq, Eq, Structural)]
pub struct GridVec {
    pub x: i32,
    pub y: i32,
}

/// The step to the neighbour that side `d` faces: sides 0, 1, 2, 3 face +x,
/// +y, -x and -y.
pub open spec fn dir_dx(d: int) -> int {
    if d == 0 {
        1
    } else if d == 2 {
        -1
    } else {
        0
    }
}

pub open spec fn dir_dy(d: int) -> int {
    if d == 1 {
        1
    } else if d == 3 {
        -1
    } else {
        0
    }
}

/// The sides of a tile after `k` quarter turns: each turn moves every side to
/// the next slot.
pub open spec fn rotated_sides(s: Seq<u8>, k: nat) -> Seq<u8> {
    Seq::new(4, |i: int| s[(i - (k % 4) + 4) % 4])
}

/// A puzzle tile: the colour of each side and how often it was turned.
#[derive(Clone, Copy, Debug)]
pub struct KripkeTile {
    pub sides: [u8; 4],
    pub rotation: usize,
    pub asset_id: AssetId,
}

impl KripkeTile {
    /// Turns the tile a quarter turn.
    pub fn rotate_left(&mut self)
        ensures
            final(self).sides@ == rotated_sides(old(self).sides@, 1),
            final(self).rotation == (old(self).rotation + 1) % 4,
            final(self).asset_id == old(self).asset_id,
    {
        let s = self.sides;
        self.sides = [s[3], s[0], s[1], s[2]];
        self.rotation = (self.rotation % 4 + 1) % 4;
        assert(self.sides@ =~= rotated_sides(old(self).sides@, 1));
    }

    /// The tile turned `rotate` quarter turns.
    pub fn rotated_left_by(&self, rotate: usize) -> (r: Self)
        ensures
            r.sides@ == rotated_sides(self.sides@, rotate as nat),
            rotate == 0 ==> r.rotation == self.rotation,
            rotate > 0 ==> r.rotation == (self.rotation + rotate) % 4,
            r.asset_id == self.asset_id,
    {
        let mut rotated = *self;
        let mut k: usize = 0;
        assert(rotated.sides@ =~= rotated_sides(self.sides@, 0));
        while k < rotate
            invariant
                k <= rotate,
                self.sides@.len() == 4,
                rotated.sides@ == rotated_sides(self.sides@, k as nat),
                k == 0 ==> rotated.rotation == self.rotation,
                k > 0 ==> rotated.rotation == (self.rotation + k) % 4,
                rotated.asset_id == self.asset_id,
            decreases rotate - k,
        {
            rotated.rotate_left();
            k = k + 1;
            assert(rotated.sides@ =~= rotated_sides(self.sides@, k as nat));
        }
        rotated
    }
}

/// The multiplier, increment and modulus of the generator.
pub const LCG_MULTIPLIER: u128 = 6364136223846793005;

pub const LCG_INCREMENT: u128 = 1;

pub const LCG_MODULUS: u128 = 18446744073709551616;

proof fn lemma_mod_step(a: int, s: int, c: int, m: int)
    requires
        m > 0,
        s >= 0,
    ensures
        (a * s + c) % m == (a * (s % m) + c) % m,
{
    vstd::arithmetic::div_mod::lemma_mul_mod_noop_right(a, s, m);
    vstd::arithmetic::div_mod::lemma_add_mod_noop(a * s, c, m);
    vstd::arithmetic::div_mod::lemma_add_mod_noop(a * (s % m), c, m);
}

proof fn lemma_mul_bound(a: int, s: int)
    requires
        0 <= a < 0x8000_0000_0000_0000,
        0 <= s < 0x1_0000_0000_0000_0000,
    ensures
        a * s + 1 < 0x8000_0000_0000_0000_0000_0000_0000_0000,
{
    assert(a * s <= 0x7fff_ffff_ffff_ffff * 0xffff_ffff_ffff_ffff) by (nonlinear_arith)
        requires
            0 <= a < 0x8000_0000_0000_0000,
            0 <= s < 0x1_0000_0000_0000_0000,
    ;
}

/// A linear congruential generator.
#[derive(Clone, Copy, Debug)]
pub struct RandLCG {
    pub seed: u128,
}

impl RandLCG {
    /// Advances the seed to `(a * seed + c) mod m` and returns its upper 32 of
    /// 64 bits.
    pub fn next(&mut self) -> (r: u32)
        ensures
            final(self).seed == (LCG_MULTIPLIER * old(self).seed + LCG_INCREMENT) % (LCG_MODULUS as int),
            r == final(self).seed / 0x1_0000_0000,
    {
        let s = self.seed % LCG_MODULUS;
        proof {
            lemma_mod_step(
                LCG_MULTIPLIER as int,
                old(self).seed as int,
                LCG_INCREMENT as int,
                LCG_MODULUS as int,
            );
            lemma_mul_bound(LCG_MULTIPLIER as int, s as int);
        }
        let next = (LCG_MULTIPLIER * s + LCG_INCREMENT) % LCG_MODULUS;
        self.seed = next;
        assert(next >> 32u128 == next / 0x1_0000_0000) by (bit_vector);
        (next >> 32) as u32
    }
}

/// Whether `(x, y)` lies inside a grid of `size`.
pub open spec fn in_grid(size: GridVec, x: int, y: int) -> bool {
    0 <= x < size.x && 0 <= y < size.y
}

/// The index of cell `(x, y)` when the cells are stored row by row.
pub open spec fn cell(size: GridVec, x: int, y: int) -> int {
    x + y * size.x
}

/// The sides of tile `p.0` of `refs` turned `p.1` times.
pub open spec fn placed_sides(refs: Seq<KripkeTile>, p: (usize, usize)) -> Seq<u8> {
    rotated_sides(refs[p.0 as int].sides@, p.1 as nat)
}

/// Side `d` of the tile at `(x, y)` has the colour of the side of its
/// neighbour that faces it, when there is a neighbour that way.
pub open spec fn board_side_ok(tiles: Seq<KripkeTile>, size: GridVec, x: int, y: int, d: int) -> bool {
    let nx = x + dir_dx(d);
    let ny = y + dir_dy(d);
    in_grid(size, nx, ny) ==> tiles[cell(size, x, y)].sides@[d] == tiles[cell(
        size,
        nx,
        ny,
    )].sides@[(d + 2) % 4]
}

/// Every pair of touching sides agrees.
pub open spec fn board_solved(tiles: Seq<KripkeTile>, size: GridVec) -> bool {
    forall|x: int, y: int, d: int|
        in_grid(size, x, y) && 0 <= d < 4 ==> #[trigger] board_side_ok(tiles, size, x, y, d)
}

/// Side `d` of the tile placed at `(x, y)` agrees with its neighbour that way,
/// when both cells are filled.
pub open spec fn sparse_side_ok(
    tiles: Seq<Option<(usize, usize)>>,
    refs: Seq<KripkeTile>,
    size: GridVec,
    x: int,
    y: int,
    d: int,
) -> bool {
    let nx = x + dir_dx(d);
    let ny = y + dir_dy(d);
    (tiles[cell(size, x, y)] is Some && in_grid(size, nx, ny) && tiles[cell(size, nx, ny)] is Some)
        ==> placed_sides(refs, tiles[cell(size, x, y)]->Some_0)[d] == placed_sides(
        refs,
        tiles[cell(size, nx, ny)]->Some_0,
    )[(d + 2) % 4]
}

/// Every pair of touching placed tiles agrees.
pub open spec fn sparse_consistent(
    tiles: Seq<Option<(usize, usize)>>,
    refs: Seq<KripkeTile>,
    size: GridVec,
) -> bool {
    forall|x: int, y: int, d: int|
        in_grid(size, x, y) && 0 <= d < 4 ==> #[trigger] sparse_side_ok(tiles, refs, size, x, y, d)
}

/// Every placement names a tile of `refs` and a turn count below 4.
pub open spec fn placements_ok(tiles: Seq<Option<(usize, usize)>>, refs: Seq<KripkeTile>) -> bool {
    forall|i: int|
        0 <= i < tiles.len() && #[trigger] tiles[i] is Some ==> tiles[i]->Some_0.0 < refs.len()
            && tiles[i]->Some_0.1 < 4
}

proof fn lemma_cell_in_range(size: GridVec, x: int, y: int)
    requires
        in_grid(size, x, y),
    ensures
        0 <= cell(size, x, y) < size.x * size.y,
{
    assert(0 <= x + y * size.x < size.x * size.y) by (nonlinear_arith)
        requires
            0 <= x < size.x,
            0 <= y < size.y,
    ;
}

/// The neighbour of `(x, y)` that side `d` faces.
fn neighbour(x: usize, y: usize, d: usize) -> (r: (i32, i32))
    requires
        x < i32::MAX,
        y < i32::MAX,
        d < 4,
    ensures
        r.0 == x + dir_dx(d as int),
        r.1 == y + dir_dy(d as int),
{
    let xi = x as i32;
    let yi = y as i32;
    if d == 0 {
        (xi + 1, yi)
    } else if d == 1 {
        (xi, yi + 1)
    } else if d == 2 {
        (xi - 1, yi)
    } else {
        (xi, yi - 1)
    }
}

/// A square grid of tiles, stored row by row.
#[derive(Clone, Debug)]
pub struct Board {
    grid_tiles: Vec<KripkeTile>,
    grid_size: GridVec,
}

impl Board {
    pub closed spec fn tiles(&self) -> Seq<KripkeTile> {
        self.grid_tiles@
    }

    pub closed spec fn size(&self) -> GridVec {
        self.grid_size
    }

    /// One tile per cell.
    pub open spec fn wf(&self) -> bool {
        &&& self.size().x >= 0
        &&& self.size().y >= 0
        &&& self.tiles().len() == self.size().x * self.size().y
    }

    /// The index of cell `(x, y)`.
    pub fn xy_i(&self, x: usize, y: usize) -> (r: usize)
        requires
            self.wf(),
            in_grid(self.size(), x as int, y as int),
        ensures
            r == cell(self.size(), x as int, y as int),
            r < self.tiles().len(),
    {
        proof {
            lemma_cell_in_range(self.grid_size, x as int, y as int);
        }
        let n = self.grid_tiles.len();
        assert(x + y * self.grid_size.x < n);
        x + y * self.grid_size.x as usize
    }

    /// Whether `p` lies inside the grid.
    pub fn contains(&self, p: GridVec) -> (r: bool)
        ensures
            r == in_grid(self.size(), p.x as int, p.y as int),
    {
        p.x >= 0 && p.x < self.grid_size.x && p.y >= 0 && p.y < self.grid_size.y
    }

    /// Whether the four sides of the tile at `(x, y)` agree with its neighbours.
    fn cell_matches(&self, x: usize, y: usize) -> (r: bool)
        requires
            self.wf(),
            in_grid(self.size(), x as int, y as int),
        ensures
            r == forall|d: int| 0 <= d < 4 ==> board_side_ok(self.tiles(), self.size(), x as int, y as int, d),
    {
        let i = self.xy_i(x, y);
        let mut d: usize = 0;
        while d < 4
            invariant
                self.wf(),
                in_grid(self.size(), x as int, y as int),
                i == cell(self.size(), x as int, y as int),
                i < self.tiles().len(),
                d <= 4,
                forall|e: int| 0 <= e < d ==> board_side_ok(self.tiles(), self.size(), x as int, y as int, e),
            decreases 4 - d,
        {
            let (nx, ny) = neighbour(x, y, d);
            if self.contains(GridVec { x: nx, y: ny }) {
                let j = self.xy_i(nx as usize, ny as usize);
                let a = self.grid_tiles[i].sides[d];
                let b = self.grid_tiles[j].sides[(d + 2) % 4];
                if a != b {
                    assert(!board_side_ok(self.tiles(), self.size(), x as int, y as int, d as int));
                    return false;
                }
            }
            d = d + 1;
        }
        true
    }

    /// Whether every pair of touching sides agrees.
    pub fn is_solved(&self) -> (r: bool)
        requires
            self.wf(),
        ensures
            r == board_solved(self.tiles(), self.size()),
    {
        let w = self.grid_size.x as usize;
        let h = self.grid_size.y as usize;
        let mut y: usize = 0;
        while y < h
            invariant
                self.wf(),
                w == self.size().x,
                h == self.size().y,
                y <= h,
                forall|a: int, b: int, d: int|
                    0 <= a < w && 0 <= b < y && 0 <= d < 4 ==> #[trigger] board_side_ok(
                        self.tiles(),
                        self.size(),
                        a,
                        b,
                        d,
                    ),
            decreases h - y,
        {
            let mut x: usize = 0;
            while x < w
                invariant
                    self.wf(),
                    w == self.size().x,
                    h == self.size().y,
                    y < h,
                    x <= w,
                    forall|a: int, b: int, d: int|
                        ((0 <= a < w && 0 <= b < y) || (0 <= a < x && b == y)) && 0 <= d < 4
                            ==> #[trigger] board_side_ok(self.tiles(), self.size(), a, b, d),
                decreases w - x,
            {
                if !self.cell_matches(x, y) {
                    return false;
                }
                x = x + 1;
            }
            y = y + 1;
        }
        true
    }
}

/// The tile is some tile of `refs`, turned.
pub open spec fn turned_from(t: KripkeTile, refs: Seq<KripkeTile>) -> bool {
    exists|k: int, r: nat| 0 <= k < refs.len() && t.sides@ == rotated_sides(refs[k].sides@, r)
}

pub proof fn lemma_rotated_twice(s: Seq<u8>, a: nat, b: nat)
    requires
        s.len() == 4,
    ensures
        rotated_sides(rotated_sides(s, a), b) == rotated_sides(s, a + b),
{
    assert(rotated_sides(rotated_sides(s, a), b) =~= rotated_sides(s, a + b));
}

/// `perm` sends each index below `n` to its own index below `n`.
pub open spec fn is_permutation(perm: Seq<int>, n: nat) -> bool {
    &&& perm.len() == n
    &&& forall|i: int| 0 <= i < n ==> 0 <= #[trigger] perm[i] < n
    &&& forall|i: int, j: int| 0 <= i < n && 0 <= j < n && i != j ==> perm[i] != perm[j]
}

/// Tile `t` is tile `a` turned some number of times.
pub open spec fn turned_of(t: KripkeTile, a: KripkeTile) -> bool {
    exists|r: nat| t.sides@ == rotated_sides(a.sides@, r)
}

/// `tiles` holds the tiles of `arr` in some order, each turned.
pub open spec fn shuffled_turned(tiles: Seq<KripkeTile>, arr: Seq<KripkeTile>) -> bool {
    &&& tiles.len() == arr.len()
    &&& exists|perm: Seq<int>|
        is_permutation(perm, tiles.len()) && forall|i: int|
            0 <= i < tiles.len() ==> #[trigger] turned_of(tiles[i], arr[perm[i]])
}

/// A grid in which some cells hold a tile, given as an index into a list of
/// tiles and a number of turns.
#[derive(Clone, Debug)]
struct SparseBoard {
    tiles: Vec<Option<(usize, usize)>>,
    grid_size: GridVec,
}

impl SparseBoard {
    spec fn wf(&self, refs: Seq<KripkeTile>) -> bool {
        &&& self.grid_size.x >= 0
        &&& self.grid_size.y >= 0
        &&& self.tiles@.len() == self.grid_size.x * self.grid_size.y
        &&& placements_ok(self.tiles@, refs)
    }

    /// Whether the tile at `(x, y)`, if any, agrees with its placed neighbours.
    fn cell_consistent(&self, reference_tiles: &Vec<KripkeTile>, x: usize, y: usize) -> (r: bool)
        requires
            self.wf(reference_tiles@),
            in_grid(self.grid_size, x as int, y as int),
        ensures
            r == forall|d: int|
                0 <= d < 4 ==> sparse_side_ok(
                    self.tiles@,
                    reference_tiles@,
                    self.grid_size,
                    x as int,
                    y as int,
                    d,
                ),
    {
        proof {
            lemma_cell_in_range(self.grid_size, x as int, y as int);
        }
        let n = self.tiles.len();
        assert(x + y * self.grid_size.x < n);
        let i = x + y * self.grid_size.x as usize;
        let (ti, tr) = match self.tiles[i] {
            Some(p) => p,
            None => {
                return true;
            },
        };
        let here = reference_tiles[ti].rotated_left_by(tr);
        let mut d: usize = 0;
        while d < 4
            invariant
                self.wf(reference_tiles@),
                in_grid(self.grid_size, x as int, y as int),
                i == cell(self.grid_size, x as int, y as int),
                n == self.tiles@.len(),
                i < n,
                self.tiles@[i as int] == Some((ti, tr)),
                here.sides@ == placed_sides(reference_tiles@, (ti, tr)),
                d <= 4,
                forall|e: int|
                    0 <= e < d ==> sparse_side_ok(
                        self.tiles@,
                        reference_tiles@,
                        self.grid_size,
                        x as int,
                        y as int,
                        e,
                    ),
            decreases 4 - d,
        {
            let (nx, ny) = neighbour(x, y, d);
            if nx >= 0 && nx < self.grid_size.x && ny >= 0 && ny < self.grid_size.y {
                proof {
                    lemma_cell_in_range(self.grid_size, nx as int, ny as int);
                }
                assert(nx + ny * self.grid_size.x < n);
                let j = nx as usize + ny as usize * self.grid_size.x as usize;
                if let Some((oi, or)) = self.tiles[j] {
                    let there = reference_tiles[oi].rotated_left_by(or);
                    if here.sides[d] != there.sides[(d + 2) % 4] {
                        assert(!sparse_side_ok(
                            self.tiles@,
                            reference_tiles@,
                            self.grid_size,
                            x as int,
                            y as int,
                            d as int,
                        ));
                        return false;
                    }
                }
            }
            d = d + 1;
        }
        true
    }

    /// Whether every pair of touching placed tiles agrees.
    fn is_consistent(&self, reference_tiles: &Vec<KripkeTile>) -> (r: bool)
        requires
            self.wf(reference_tiles@),
        ensures
            r == sparse_consistent(self.tiles@, reference_tiles@, self.grid_size),
    {
        let w = self.grid_size.x as usize;
        let h = self.grid_size.y as usize;
        let mut y: usize = 0;
        while y < h
            invariant
                self.wf(reference_tiles@),
                w == self.grid_size.x,
                h == self.grid_size.y,
                y <= h,
                forall|a: int, b: int, d: int|
                    0 <= a < w && 0 <= b < y && 0 <= d < 4 ==> #[trigger] sparse_side_ok(
                        self.tiles@,
                        reference_tiles@,
                        self.grid_size,
                        a,
                        b,
                        d,
                    ),
            decreases h - y,
        {
            let mut x: usize = 0;
            while x < w
                invariant
                    self.wf(reference_tiles@),
                    w == self.grid_size.x,
                    h == self.grid_size.y,
                    y < h,
                    x <= w,
                    forall|a: int, b: int, d: int|
                        ((0 <= a < w && 0 <= b < y) || (0 <= a < x && b == y)) && 0 <= d < 4
                            ==> #[trigger] sparse_side_ok(
                            self.tiles@,
                            reference_tiles@,
                            self.grid_size,
                            a,
                            b,
                            d,
                        ),
                decreases w - x,
            {
                if !self.cell_consistent(reference_tiles, x, y) {
                    return false;
                }
                x = x + 1;
            }
            y = y + 1;
        }
        true
    }
}

/// How many times a random board is attempted before giving up.
pub const CONSTRUCT_ATTEMPTS: u32 = 1000;

impl Board {
    /// A board of `size` filled with turned copies of `available_tiles` in an
    /// arrangement that can be solved, shuffled and turned at random; `None`
    /// when no attempt found a fitting arrangement.
    pub fn randomized(rand: &mut RandLCG, size: GridVec, available_tiles: &Vec<KripkeTile>) -> (r:
        Option<Self>)
        requires
            size.x >= 0,
            size.y >= 0,
            size.x * size.y <= usize::MAX,
            available_tiles@.len() >= 1,
        ensures
            r matches Some(b) ==> b.wf() && b.size() == size && (forall|i: int|
                0 <= i < b.tiles().len() ==> #[trigger] turned_from(
                    b.tiles()[i],
                    available_tiles@,
                )) && exists|arr: Seq<KripkeTile>|
                board_solved(arr, size) && #[trigger] shuffled_turned(b.tiles(), arr),
    {
        let n = size.x as usize * size.y as usize;
        let mut tiles: Vec<KripkeTile> = Vec::new();
        let mut k: usize = 0;
        while k < n
            invariant
                k <= n,
                tiles@.len() == k,
                available_tiles@.len() >= 1,
            decreases n - k,
        {
            tiles.push(available_tiles[0]);
            k = k + 1;
        }
        let mut board = Board { grid_tiles: tiles, grid_size: size };
        let mut attempt: u32 = 0;
        while attempt < CONSTRUCT_ATTEMPTS
            invariant
                board.wf(),
                board.size() == size,
            decreases CONSTRUCT_ATTEMPTS - attempt,
        {
            if board.construct(rand, available_tiles) {
                return Some(board);
            }
            attempt = attempt + 1;
        }
        None
    }

    /// Fills the grid row by row, each cell with a random choice among the
    /// placements (tile and number of turns) that agree with the tiles placed
    /// so far; then shuffles the tiles and turns each at random. Returns
    /// `false`, leaving the tiles as they were, when some cell has no fitting
    /// placement.
    pub fn construct(&mut self, rand: &mut RandLCG, available_tiles: &Vec<KripkeTile>) -> (r:
        bool)
        requires
            old(self).wf(),
        ensures
            final(self).size() == old(self).size(),
            final(self).wf(),
            r ==> forall|i: int|
                0 <= i < final(self).tiles().len() ==> #[trigger] turned_from(
                    final(self).tiles()[i],
                    available_tiles@,
                ),
            r ==> exists|arr: Seq<KripkeTile>|
                board_solved(arr, old(self).size()) && #[trigger] shuffled_turned(
                    final(self).tiles(),
                    arr,
                ),
            !r ==> final(self).tiles() == old(self).tiles(),
    {
        let ghost refs = available_tiles@;
        let ghost size = self.grid_size;
        let w = self.grid_size.x as usize;
        let h = self.grid_size.y as usize;
        let n = self.grid_tiles.len();
        let mut cells: Vec<Option<(usize, usize)>> = Vec::new();
        let mut k: usize = 0;
        while k < n
            invariant
                k <= n,
                cells@.len() == k,
                forall|i: int| 0 <= i < k ==> cells@[i] is None,
            decreases n - k,
        {
            cells.push(None);
            k = k + 1;
        }
        let mut sparse = SparseBoard { tiles: cells, grid_size: self.grid_size };
        assert forall|x: int, y: int, d: int|
            in_grid(size, x, y) && 0 <= d < 4 implies #[trigger] sparse_side_ok(
            sparse.tiles@,
            refs,
            size,
            x,
            y,
            d,
        ) by {
            lemma_cell_in_range(size, x, y);
        }
        let mut y: usize = 0;
        while y < h
            invariant
                self.wf(),
                self.tiles() == old(self).tiles(),
                self.size() == old(self).size(),
                size == self.size(),
                refs == available_tiles@,
                w == size.x,
                h == size.y,
                n == w * h,
                y <= h,
                sparse.grid_size == size,
                sparse.wf(refs),
                sparse_consistent(sparse.tiles@, refs, size),
                forall|i: int| 0 <= i < n ==> (#[trigger] sparse.tiles@[i] is Some <==> i < y * w),
            decreases h - y,
        {
            let mut x: usize = 0;
            while x < w
                invariant
                    self.wf(),
                    self.tiles() == old(self).tiles(),
                    self.size() == old(self).size(),
                    size == self.size(),
                    refs == available_tiles@,
                    w == size.x,
                    h == size.y,
                    n == w * h,
                    y < h,
                    x <= w,
                    sparse.grid_size == size,
                    sparse.wf(refs),
                    sparse_consistent(sparse.tiles@, refs, size),
                    forall|i: int|
                        0 <= i < n ==> (#[trigger] sparse.tiles@[i] is Some <==> i < y * w + x),
                decreases w - x,
            {
                let tile_i = self.xy_i(x, y);
                let ghost base = sparse.tiles@;
                let mut matchings: Vec<(usize, usize)> = Vec::new();
                let mut index: usize = 0;
                while index < available_tiles.len()
                    invariant
                        refs == available_tiles@,
                        sparse.grid_size == size,
                        size.x >= 0,
                        size.y >= 0,
                        base.len() == size.x * size.y,
                        tile_i < base.len(),
                        base[tile_i as int] is None,
                        placements_ok(base, refs),
                        sparse.tiles@ == base,
                        index <= refs.len(),
                        forall|m: int|
                            0 <= m < matchings@.len() ==> #[trigger] matchings@[m].0 < refs.len()
                                && matchings@[m].1 < 4 && sparse_consistent(
                                base.update(tile_i as int, Some(matchings@[m])),
                                refs,
                                size,
                            ),
                    decreases refs.len() - index,
                {
                    let mut rot: usize = 0;
                    while rot < 4
                        invariant
                            refs == available_tiles@,
                            sparse.grid_size == size,
                            size.x >= 0,
                            size.y >= 0,
                            base.len() == size.x * size.y,
                            tile_i < base.len(),
                            base[tile_i as int] is None,
                            placements_ok(base, refs),
                            sparse.tiles@ == base,
                            index < refs.len(),
                            rot <= 4,
                            forall|m: int|
                                0 <= m < matchings@.len() ==> #[trigger] matchings@[m].0
                                    < refs.len() && matchings@[m].1 < 4 && sparse_consistent(
                                    base.update(tile_i as int, Some(matchings@[m])),
                                    refs,
                                    size,
                                ),
                        decreases 4 - rot,
                    {
                        sparse.tiles.set(tile_i, Some((index, rot)));
                        assert(placements_ok(sparse.tiles@, refs));
                        if sparse.is_consistent(available_tiles) {
                            matchings.push((index, rot));
                        }
                        sparse.tiles.set(tile_i, None);
                        assert(sparse.tiles@ =~= base);
                        rot = rot + 1;
                    }
                    index = index + 1;
                }
                if matchings.len() == 0 {
                    return false;
                }
                let choice = rand.next() as usize % matchings.len();
                let m = matchings[choice];
                assert(matchings@[choice as int].0 < refs.len());
                sparse.tiles.set(tile_i, Some(m));
                assert(sparse.tiles@ == base.update(tile_i as int, Some(m)));
                assert(placements_ok(sparse.tiles@, refs));
                x = x + 1;
            }
            assert((y + 1) * w == y * w + w) by (nonlinear_arith);
            y = y + 1;
        }
        // Every cell is filled now.
        assert(h * w == w * h) by (nonlinear_arith);
        let mut new_tiles: Vec<KripkeTile> = Vec::new();
        let mut i: usize = 0;
        while i < n
            invariant
                refs == available_tiles@,
                n == sparse.tiles@.len(),
                sparse.wf(refs),
                forall|j: int| 0 <= j < n ==> #[trigger] sparse.tiles@[j] is Some,
                i <= n,
                new_tiles@.len() == i,
                forall|j: int|
                    0 <= j < i ==> (#[trigger] new_tiles@[j]).sides@ == placed_sides(
                        refs,
                        sparse.tiles@[j]->Some_0,
                    ),
                forall|j: int| 0 <= j < i ==> #[trigger] turned_from(new_tiles@[j], refs),
            decreases n - i,
        {
            assert(sparse.tiles@[i as int] is Some);
            let (index, rot) = sparse.tiles[i].unwrap();
            let t = available_tiles[index].rotated_left_by(rot);
            assert(turned_from(t, refs)) by {
                assert(0 <= index < refs.len() && t.sides@ == rotated_sides(
                    refs[index as int].sides@,
                    rot as nat,
                ));
            }
            new_tiles.push(t);
            i = i + 1;
        }
        // The arrangement is solved before it is shuffled.
        assert(board_solved(new_tiles@, size)) by {
            assert forall|x: int, y: int, d: int|
                in_grid(size, x, y) && 0 <= d < 4 implies #[trigger] board_side_ok(
                new_tiles@,
                size,
                x,
                y,
                d,
            ) by {
                assert(sparse_side_ok(sparse.tiles@, refs, size, x, y, d));
                lemma_cell_in_range(size, x, y);
                if in_grid(size, x + dir_dx(d), y + dir_dy(d)) {
                    lemma_cell_in_range(size, x + dir_dx(d), y + dir_dy(d));
                }
            }
        }
        let ghost arr = new_tiles@;
        let ghost mut perm: Seq<int> = Seq::new(n as nat, |k: int| k);
        assert forall|k: int| 0 <= k < n implies #[trigger] turned_of(new_tiles@[k], arr[perm[k]]) by {
            assert(new_tiles@[k].sides@ =~= rotated_sides(arr[k].sides@, 0));
        }
        let mut i: usize = n;
        while i > 1
            invariant
                refs == available_tiles@,
                i <= n,
                new_tiles@.len() == n,
                arr.len() == n,
                forall|j: int| 0 <= j < n ==> #[trigger] turned_from(new_tiles@[j], refs),
                is_permutation(perm, n as nat),
                forall|k: int| 0 <= k < n ==> #[trigger] turned_of(new_tiles@[k], arr[perm[k]]),
            decreases i,
        {
            i = i - 1;
            let j = rand.next() as usize % (i + 1);
            let t = new_tiles[i];
            let u = new_tiles[j];
            let ghost before = new_tiles@;
            let ghost pb = perm;
            new_tiles.set(i, u);
            new_tiles.set(j, t);
            proof {
                perm = pb.update(i as int, pb[j as int]).update(j as int, pb[i as int]);
                assert forall|k: int| 0 <= k < n implies #[trigger] turned_of(
                    new_tiles@[k],
                    arr[perm[k]],
                ) by {
                    if k == j {
                        assert(turned_of(before[i as int], arr[pb[i as int]]));
                    } else if k == i {
                        assert(turned_of(before[j as int], arr[pb[j as int]]));
                    } else {
                        assert(turned_of(before[k], arr[pb[k]]));
                    }
                }
                assert forall|a: int, b: int| 0 <= a < n && 0 <= b < n && a != b implies perm[a]
                    != perm[b] by {
                    assert(pb[a] != pb[b] || a == b);
                    if a != i && a != j && b != i && b != j {
                    } else {
                        assert(pb[i as int] != pb[j as int] || i == j);
                    }
                }
            }
        }
        let mut i: usize = 0;
        while i < n
            invariant
                refs == available_tiles@,
                i <= n,
                new_tiles@.len() == n,
                arr.len() == n,
                forall|j: int| 0 <= j < n ==> #[trigger] turned_from(new_tiles@[j], refs),
                is_permutation(perm, n as nat),
                forall|k: int| 0 <= k < n ==> #[trigger] turned_of(new_tiles@[k], arr[perm[k]]),
            decreases n - i,
        {
            let rotation = rand.next() as usize % 4;
            let old_tile = new_tiles[i];
            let t = old_tile.rotated_left_by(rotation);
            proof {
                assert(turned_from(old_tile, refs));
                let (k, r0) = choose|k: int, r0: nat|
                    0 <= k < refs.len() && old_tile.sides@ == rotated_sides(refs[k].sides@, r0);
                lemma_rotated_twice(refs[k].sides@, r0, rotation as nat);
                assert(0 <= k < refs.len() && t.sides@ == rotated_sides(
                    refs[k].sides@,
                    r0 + rotation as nat,
                ));
                let a = arr[perm[i as int]];
                assert(turned_of(old_tile, a));
                let r1 = choose|r1: nat| old_tile.sides@ == rotated_sides(a.sides@, r1);
                lemma_rotated_twice(a.sides@, r1, rotation as nat);
                assert(t.sides@ == rotated_sides(a.sides@, r1 + rotation as nat));
            }
            let ghost before = new_tiles@;
            new_tiles.set(i, t);
            proof {
                assert forall|k: int| 0 <= k < n implies #[trigger] turned_of(
                    new_tiles@[k],
                    arr[perm[k]],
                ) by {
                    if k != i {
                        assert(turned_of(before[k], arr[perm[k]]));
                    }
                }
            }
            i = i + 1;
        }
        assert(shuffled_turned(new_tiles@, arr));
        assert(board_solved(arr, size));
        self.grid_tiles = new_tiles;
        assert(board_solved(arr, old(self).size()) && shuffled_turned(self.tiles(), arr));
        true
    }
}

} // verus!
