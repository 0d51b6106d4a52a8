//! Tile-based dungeon map generation.
use vstd::prelude::*;
use vstd::multiset::Multiset;
use vstd::slice::slice_to_vec;
use rand::seq::SliceRandom;
use crate::kd_tree::KDTree;
use crate::rect::{pairwise_disjoint, Point, Rect};

verus! {

/// Largest room side accepted by the template constructor. Keeping templates
/// this small lets every anchor computation stay inside `i32`.
pub const MAX_ROOM_DIM: u32 = 1000000;

/// Type of a tile.
#[derive(Copy, Clone, Debug, PartialEq, Eq, Structural)]
pub enum Tile {
    Empty,
    Dirt,
}

impl Tile {
    /// Whether the tile is passable.
    pub open spec fn spec_is_empty(self) -> bool {
        self is Empty
    }

    pub fn is_empty(&self) -> (r: bool)
        ensures
            r == self.spec_is_empty(),
    {
        matches!(self, Tile::Empty)
    }
}

/// A cardinal direction.
#[derive(Copy, Clone, Debug, PartialEq, Eq, Structural)]
pub enum Direction {
    North,
    East,
    South,
    West,
}

impl Direction {
    /// The opposite direction.
    pub open spec fn spec_flip(self) -> Direction {
        match self {
            Direction::North => Direction::South,
            Direction::East => Direction::West,
            Direction::South => Direction::North,
            Direction::West => Direction::East,
        }
    }

    pub fn flip(self) -> (d: Direction)
        ensures
            d == self.spec_flip(),
    {
        match self {
            Direction::North => Direction::South,
            Direction::East => Direction::West,
            Direction::South => Direction::North,
            Direction::West => Direction::East,
        }
    }
}

/// Error signalled when a room template is built from a malformed grid:
/// an empty grid, rows of unequal length, a zero-width row, or a grid too
/// large for the generator's coordinate arithmetic.
#[derive(Copy, Clone, Debug, PartialEq, Eq, Structural)]
pub struct InvalidTemplate;

/// A grid acceptable as a room template: rectangular, at least one tile on
/// each side, and no side beyond [`MAX_ROOM_DIM`].
pub open spec fn layout_ok(layout: Seq<Vec<Tile>>) -> bool {
    &&& 1 <= layout.len() <= MAX_ROOM_DIM
    &&& 1 <= layout[0]@.len() <= MAX_ROOM_DIM
    &&& forall|i: int| 0 <= i < layout.len() ==> (#[trigger] layout[i])@.len() == layout[0]@.len()
}

/// The offsets of a sequence are strictly increasing.
pub open spec fn strictly_increasing(s: Seq<i32>) -> bool {
    forall|a: int, b: int| 0 <= a < b < s.len() ==> s[a] < s[b]
}

/// Rectangular room, with a list of doorway offsets on each of its four
/// sides. Immutable once constructed; shared read-only by every placement
/// that uses it.
#[derive(Debug, PartialEq)]
pub struct Room {
    pub width: u32,
    pub height: u32,
    /// Goes from top to bottom, west to east.
    pub layout: Vec<Vec<Tile>>,
    /// Doorway offsets per side: column offsets for north and south,
    /// row offsets for east and west.
    pub north: Vec<i32>,
    pub east: Vec<i32>,
    pub south: Vec<i32>,
    pub west: Vec<i32>,
}

impl Room {
    /// `off` indexes a passable border cell on side `d`.
    pub open spec fn spec_is_entrance(self, d: Direction, off: i32) -> bool {
        match d {
            Direction::North => 0 <= off < self.width
                && self.layout@[0]@[off as int].spec_is_empty(),
            Direction::East => 0 <= off < self.height
                && self.layout@[off as int]@[self.width - 1].spec_is_empty(),
            Direction::South => 0 <= off < self.width
                && self.layout@[self.height - 1]@[off as int].spec_is_empty(),
            Direction::West => 0 <= off < self.height
                && self.layout@[off as int]@[0].spec_is_empty(),
        }
    }

    /// The doorway offsets recorded for side `d`.
    pub open spec fn spec_entrances(self, d: Direction) -> Seq<i32> {
        match d {
            Direction::North => self.north@,
            Direction::East => self.east@,
            Direction::South => self.south@,
            Direction::West => self.west@,
        }
    }

    /// Well-formedness: dimensions match the grid and each side's doorway
    /// list holds exactly the offsets of its passable border cells, in
    /// increasing order.
    pub open spec fn wf(self) -> bool {
        &&& layout_ok(self.layout@)
        &&& self.width == self.layout@[0]@.len()
        &&& self.height == self.layout@.len()
        &&& forall|d: Direction, off: i32| #![auto]
            self.spec_entrances(d).contains(off) <==> self.spec_is_entrance(d, off)
        &&& forall|d: Direction| strictly_increasing(#[trigger] self.spec_entrances(d))
    }

    /// Builds a room template from a tile grid, deriving the four doorway
    /// offset lists from the grid's border rows and columns. Returns
    /// `InvalidTemplate` exactly when the grid is not an acceptable layout:
    /// empty, ragged, zero-width, or with a side beyond [`MAX_ROOM_DIM`] — a
    /// machine limit that keeps the generator's `i32` anchor arithmetic
    /// sound, not a restriction the generation algorithm itself needs.
    pub fn new(layout: Vec<Vec<Tile>>) -> (res: Result<Room, InvalidTemplate>)
        ensures
            res.is_ok() <==> layout_ok(layout@),
            res.is_ok() ==> res.unwrap().wf() && res.unwrap().layout == layout,
    {
        let height = layout.len();
        if height == 0 || height > MAX_ROOM_DIM as usize {
            return Err(InvalidTemplate);
        }
        let width = layout[0].len();
        if width == 0 || width > MAX_ROOM_DIM as usize {
            return Err(InvalidTemplate);
        }
        let mut i: usize = 1;
        while i < height
            invariant
                1 <= i <= height,
                height == layout@.len(),
                width == layout@[0]@.len(),
                forall|k: int| 0 <= k < i ==> (#[trigger] layout@[k])@.len() == width,
            decreases height - i,
        {
            if layout[i].len() != width {
                return Err(InvalidTemplate);
            }
            i += 1;
        }
        let north = empty_offsets_row(&layout[0]);
        let south = empty_offsets_row(&layout[height - 1]);
        let east = empty_offsets_col(&layout, width - 1);
        let west = empty_offsets_col(&layout, 0);
        let room = Room {
            width: width as u32,
            height: height as u32,
            layout,
            north,
            east,
            south,
            west,
        };
        proof {
            assert forall|d: Direction, off: i32| #![auto]
                room.spec_entrances(d).contains(off) <==> room.spec_is_entrance(d, off) by {}
        }
        Ok(room)
    }
}

/// A room template anchored at a position (its top-left corner).
#[derive(Debug, PartialEq)]
pub struct RoomPlacement {
    pub pos: Point,
    pub room: Room,
}

/// The bounding rectangle a placement occupies.
pub open spec fn rect_of(p: RoomPlacement) -> Rect {
    rect_at(p.pos, p.room)
}

/// `a` carries the same template data as `b`: equal dimensions, the same
/// grid contents, and the same doorway lists.
pub open spec fn room_like(a: Room, b: Room) -> bool {
    &&& a.width == b.width
    &&& a.height == b.height
    &&& a.layout@.len() == b.layout@.len()
    &&& forall|i: int| 0 <= i < a.layout@.len() ==> (#[trigger] a.layout@[i])@ == b.layout@[i]@
    &&& a.north@ == b.north@
    &&& a.east@ == b.east@
    &&& a.south@ == b.south@
    &&& a.west@ == b.west@
}

/// A room that carries the same data as a well-formed room is well-formed.
pub proof fn lemma_room_like_wf(a: Room, b: Room)
    requires
        room_like(a, b),
        b.wf(),
    ensures
        a.wf(),
{
    assert forall|i: int| 0 <= i < a.layout@.len()
        implies (#[trigger] a.layout@[i])@.len() == a.layout@[0]@.len() by {
        assert(a.layout@[i]@ == b.layout@[i]@);
        assert(a.layout@[0]@ == b.layout@[0]@);
    }
    assert(layout_ok(a.layout@));
    assert forall|d: Direction, off: i32| #![auto]
        a.spec_entrances(d).contains(off) <==> a.spec_is_entrance(d, off) by {
        assert(a.spec_entrances(d) == b.spec_entrances(d));
        assert(b.spec_entrances(d).contains(off) <==> b.spec_is_entrance(d, off));
        assert(a.layout@[0]@ == b.layout@[0]@);
        assert(a.layout@[a.layout@.len() - 1]@ == b.layout@[b.layout@.len() - 1]@);
        if 0 <= off < a.layout@.len() {
            assert(a.layout@[off as int]@ == b.layout@[off as int]@);
        }
    }
    assert forall|d: Direction| strictly_increasing(#[trigger] a.spec_entrances(d)) by {
        assert(a.spec_entrances(d) == b.spec_entrances(d));
    }
}

impl Room {
    /// Pairs a copy of this (immutable, shared) template with an anchor
    /// position.
    pub fn place(&self, pos: Point) -> (p: RoomPlacement)
        ensures
            p.pos == pos,
            room_like(p.room, *self),
    {
        RoomPlacement { pos, room: self.copy() }
    }

    /// An explicit deep copy of the template.
    fn copy(&self) -> (r: Room)
        ensures
            room_like(r, *self),
    {
        Room {
            width: self.width,
            height: self.height,
            layout: copy_layout(&self.layout),
            north: copy_offsets(&self.north),
            east: copy_offsets(&self.east),
            south: copy_offsets(&self.south),
            west: copy_offsets(&self.west),
        }
    }
}

/// Copies a row of tiles.
fn copy_tiles(v: &Vec<Tile>) -> (r: Vec<Tile>)
    ensures
        r@ == v@,
{
    let mut r: Vec<Tile> = Vec::new();
    let mut j: usize = 0;
    while j < v.len()
        invariant
            j <= v@.len(),
            r@ == v@.take(j as int),
        decreases v@.len() - j,
    {
        r.push(v[j]);
        proof {
            assert(r@ =~= v@.take(j + 1));
        }
        j += 1;
    }
    proof {
        assert(r@ =~= v@);
    }
    r
}

/// Copies a grid of tiles row by row.
fn copy_layout(v: &Vec<Vec<Tile>>) -> (r: Vec<Vec<Tile>>)
    ensures
        r@.len() == v@.len(),
        forall|i: int| 0 <= i < v@.len() ==> (#[trigger] r@[i])@ == v@[i]@,
{
    let mut r: Vec<Vec<Tile>> = Vec::new();
    let mut j: usize = 0;
    while j < v.len()
        invariant
            j <= v@.len(),
            r@.len() == j,
            forall|i: int| 0 <= i < j ==> (#[trigger] r@[i])@ == v@[i]@,
        decreases v@.len() - j,
    {
        r.push(copy_tiles(&v[j]));
        j += 1;
    }
    r
}

/// Copies a doorway offset list.
fn copy_offsets(v: &Vec<i32>) -> (r: Vec<i32>)
    ensures
        r@ == v@,
{
    let mut r: Vec<i32> = Vec::new();
    let mut j: usize = 0;
    while j < v.len()
        invariant
            j <= v@.len(),
            r@ == v@.take(j as int),
        decreases v@.len() - j,
    {
        r.push(v[j]);
        proof {
            assert(r@ =~= v@.take(j + 1));
        }
        j += 1;
    }
    proof {
        assert(r@ =~= v@);
    }
    r
}

/// The strictly increasing list of offsets of passable tiles in one row.
fn empty_offsets_row(row: &Vec<Tile>) -> (v: Vec<i32>)
    requires
        row@.len() <= MAX_ROOM_DIM,
    ensures
        forall|off: i32| #![auto]
            v@.contains(off) <==> 0 <= off < row@.len() && row@[off as int].spec_is_empty(),
        strictly_increasing(v@),
{
    let mut v: Vec<i32> = Vec::new();
    let mut j: usize = 0;
    while j < row.len()
        invariant
            j <= row@.len(),
            row@.len() <= MAX_ROOM_DIM,
            forall|off: i32| #![auto]
                v@.contains(off) <==> 0 <= off < j && row@[off as int].spec_is_empty(),
            strictly_increasing(v@),
            forall|a: int| 0 <= a < v@.len() ==> v@[a] < j,
        decreases row@.len() - j,
    {
        if row[j].is_empty() {
            let ghost prev = v@;
            v.push(j as i32);
            proof {
                assert forall|off: i32| #![auto] v@.contains(off)
                    implies 0 <= off < j + 1 && row@[off as int].spec_is_empty() by {
                    vstd::seq_lib::lemma_seq_contains_after_push(prev, j as i32, off);
                }
                assert forall|off: i32| 0 <= off < j + 1 && row@[off as int].spec_is_empty()
                    implies #[trigger] v@.contains(off) by {
                    vstd::seq_lib::lemma_seq_contains_after_push(prev, j as i32, off);
                }
            }
        }
        j += 1;
    }
    v
}

/// The strictly increasing list of offsets of rows whose tile in column
/// `col` is passable.
fn empty_offsets_col(layout: &Vec<Vec<Tile>>, col: usize) -> (v: Vec<i32>)
    requires
        layout@.len() <= MAX_ROOM_DIM,
        forall|i: int| 0 <= i < layout@.len() ==> col < (#[trigger] layout@[i])@.len(),
    ensures
        forall|off: i32| #![auto]
            v@.contains(off) <==> 0 <= off < layout@.len()
                && layout@[off as int]@[col as int].spec_is_empty(),
        strictly_increasing(v@),
{
    let mut v: Vec<i32> = Vec::new();
    let mut j: usize = 0;
    while j < layout.len()
        invariant
            j <= layout@.len(),
            layout@.len() <= MAX_ROOM_DIM,
            forall|i: int| 0 <= i < layout@.len() ==> col < (#[trigger] layout@[i])@.len(),
            forall|off: i32| #![auto]
                v@.contains(off) <==> 0 <= off < j
                    && layout@[off as int]@[col as int].spec_is_empty(),
            strictly_increasing(v@),
            forall|a: int| 0 <= a < v@.len() ==> v@[a] < j,
        decreases layout@.len() - j,
    {
        if layout[j][col].is_empty() {
            let ghost prev = v@;
            v.push(j as i32);
            proof {
                assert forall|off: i32| #![auto] v@.contains(off)
                    implies 0 <= off < j + 1
                        && layout@[off as int]@[col as int].spec_is_empty() by {
                    vstd::seq_lib::lemma_seq_contains_after_push(prev, j as i32, off);
                }
                assert forall|off: i32|
                    0 <= off < j + 1 && layout@[off as int]@[col as int].spec_is_empty()
                    implies #[trigger] v@.contains(off) by {
                    vstd::seq_lib::lemma_seq_contains_after_push(prev, j as i32, off);
                }
            }
        }
        j += 1;
    }
    v
}

/// Alias for empty tile.
pub const E: Tile = Tile::Empty;

/// Alias for dirt tile.
pub const D: Tile = Tile::Dirt;

/// Each row of `rows` holds exactly the tiles of the matching row of `grid`.
pub open spec fn rows_match(rows: Seq<Vec<Tile>>, grid: Seq<Seq<Tile>>) -> bool {
    &&& rows.len() == grid.len()
    &&& forall|i: int| 0 <= i < rows.len() ==> (#[trigger] rows[i])@ == grid[i]
}

/// The room's tile grid is exactly `grid`.
pub open spec fn room_has_grid(room: Room, grid: Seq<Seq<Tile>>) -> bool {
    rows_match(room.layout@, grid)
}

/// The tile grid of the distinguished start room, as specification data.
pub open spec fn start_grid() -> Seq<Seq<Tile>> {
    seq![
        seq![E, E, E, E, E, E, E, E, E, E],
        seq![E, E, E, E, E, E, E, E, E, E],
        seq![E, D, D, D, E, D, D, D, D, E],
        seq![E, D, D, E, E, E, E, D, D, E],
        seq![E, D, E, E, E, E, E, D, E, E],
        seq![E, D, E, E, E, E, E, D, E, E],
        seq![E, D, E, E, E, E, E, D, E, E],
        seq![E, D, D, E, E, E, E, D, E, E],
        seq![E, D, D, D, E, E, E, D, D, E],
        seq![D, D, D, D, E, E, D, D, D, D],
    ]
}

/// The tile grids of the fixed room catalog, in catalog order, as
/// specification data.
pub open spec fn catalog_grids() -> Seq<Seq<Seq<Tile>>> {
    seq![
        seq![
            seq![D, D, D],
            seq![E, E, E],
            seq![D, D, D],
        ],
        seq![
            seq![E, D, D],
            seq![E, E, E],
            seq![D, D, E],
        ],
        seq![
            seq![D, D, E],
            seq![E, E, E],
            seq![E, D, D],
        ],
        seq![
            seq![D, E, D],
            seq![D, E, D],
            seq![D, E, D],
        ],
        seq![
            seq![E, E, D],
            seq![D, E, D],
            seq![D, E, E],
        ],
        seq![
            seq![E, E, E, E],
            seq![D, E, E, E],
            seq![D, E, E, D],
            seq![D, E, D, D],
            seq![D, E, D, D],
            seq![D, E, D, D],
            seq![D, D, D, D],
        ],
        seq![
            seq![E, E, E, E, E, D, D, D],
            seq![D, D, D, E, E, D, D, D],
            seq![D, E, E, E, E, E, E, D],
            seq![D, D, D, E, E, D, D, D],
        ],
        seq![
            seq![E, D, E, D, E, D, E, D, E],
            seq![E, D, D, D, D, D, D, D, E],
            seq![E, D, E, D, E, D, E, D, E],
        ],
        seq![
            seq![E, E, E, E, E, E, E, E],
            seq![D, D, D, D, D, D, D, D],
            seq![E, D, D, D, D, D, D, E],
            seq![E, D, D, E, E, D, D, E],
        ],
        seq![
            seq![E, E, E, E, E, E, E, E, E],
            seq![E, D, D, D, D, D, D, D, E],
            seq![E, D, E, D, E, D, E, D, E],
            seq![E, D, D, D, D, D, D, D, E],
            seq![E, D, E, D, E, D, E, D, E],
            seq![E, D, D, D, D, D, D, D, E],
        ],
        seq![
            seq![D, D, E, E, E, E, E, E, E],
            seq![D, E, E, E, E, D, E, E, E],
            seq![E, E, E, E, D, D, D, E, E],
            seq![E, E, E, E, E, D, D, D, E],
            seq![E, E, E, E, E, D, D, D, D],
            seq![E, E, E, D, D, D, D, D, D],
        ],
    ]
}


/// The tile grid of the distinguished start room.
fn start_layout() -> (v: Vec<Vec<Tile>>)
    ensures
        v@.len() == 10,
        forall|i: int| 0 <= i < 10 ==> (#[trigger] v@[i])@.len() == 10,
        rows_match(v@, start_grid()),
{
    let mut v: Vec<Vec<Tile>> = Vec::new();
    v.push(slice_to_vec(&[E, E, E, E, E, E, E, E, E, E]));
    v.push(slice_to_vec(&[E, E, E, E, E, E, E, E, E, E]));
    v.push(slice_to_vec(&[E, D, D, D, E, D, D, D, D, E]));
    v.push(slice_to_vec(&[E, D, D, E, E, E, E, D, D, E]));
    v.push(slice_to_vec(&[E, D, E, E, E, E, E, D, E, E]));
    v.push(slice_to_vec(&[E, D, E, E, E, E, E, D, E, E]));
    v.push(slice_to_vec(&[E, D, E, E, E, E, E, D, E, E]));
    v.push(slice_to_vec(&[E, D, D, E, E, E, E, D, E, E]));
    v.push(slice_to_vec(&[E, D, D, D, E, E, E, D, D, E]));
    v.push(slice_to_vec(&[D, D, D, D, E, E, D, D, D, D]));
    proof {
        assert(v@[0]@ =~= start_grid()[0]);
        assert(v@[1]@ =~= start_grid()[1]);
        assert(v@[2]@ =~= start_grid()[2]);
        assert(v@[3]@ =~= start_grid()[3]);
        assert(v@[4]@ =~= start_grid()[4]);
        assert(v@[5]@ =~= start_grid()[5]);
        assert(v@[6]@ =~= start_grid()[6]);
        assert(v@[7]@ =~= start_grid()[7]);
        assert(v@[8]@ =~= start_grid()[8]);
        assert(v@[9]@ =~= start_grid()[9]);
    }
    v
}

/// The fixed catalog of room templates the generator attaches from: one
/// well-formed room per grid of [`catalog_grids`], in order.
fn build_catalog() -> (rooms: Vec<Room>)
    ensures
        rooms@.len() == catalog_grids().len(),
        forall|i: int| 0 <= i < rooms@.len() ==> (#[trigger] rooms@[i]).wf()
            && room_has_grid(rooms@[i], catalog_grids()[i]),
{
    let mut rooms: Vec<Room> = Vec::new();

    let mut layout: Vec<Vec<Tile>> = Vec::new();
    layout.push(slice_to_vec(&[D, D, D]));
    layout.push(slice_to_vec(&[E, E, E]));
    layout.push(slice_to_vec(&[D, D, D]));
    let room = Room::new(layout).unwrap();
    proof {
        assert(room.layout@[0]@ =~= catalog_grids()[0][0]);
        assert(room.layout@[1]@ =~= catalog_grids()[0][1]);
        assert(room.layout@[2]@ =~= catalog_grids()[0][2]);
        assert(room_has_grid(room, catalog_grids()[0]));
    }
    rooms.push(room);

    let mut layout: Vec<Vec<Tile>> = Vec::new();
    layout.push(slice_to_vec(&[E, D, D]));
    layout.push(slice_to_vec(&[E, E, E]));
    layout.push(slice_to_vec(&[D, D, E]));
    let room = Room::new(layout).unwrap();
    proof {
        assert(room.layout@[0]@ =~= catalog_grids()[1][0]);
        assert(room.layout@[1]@ =~= catalog_grids()[1][1]);
        assert(room.layout@[2]@ =~= catalog_grids()[1][2]);
        assert(room_has_grid(room, catalog_grids()[1]));
    }
    rooms.push(room);

    let mut layout: Vec<Vec<Tile>> = Vec::new();
    layout.push(slice_to_vec(&[D, D, E]));
    layout.push(slice_to_vec(&[E, E, E]));
    layout.push(slice_to_vec(&[E, D, D]));
    let room = Room::new(layout).unwrap();
    proof {
        assert(room.layout@[0]@ =~= catalog_grids()[2][0]);
        assert(room.layout@[1]@ =~= catalog_grids()[2][1]);
        assert(room.layout@[2]@ =~= catalog_grids()[2][2]);
        assert(room_has_grid(room, catalog_grids()[2]));
    }
    rooms.push(room);

    let mut layout: Vec<Vec<Tile>> = Vec::new();
    layout.push(slice_to_vec(&[D, E, D]));
    layout.push(slice_to_vec(&[D, E, D]));
    layout.push(slice_to_vec(&[D, E, D]));
    let room = Room::new(layout).unwrap();
    proof {
        assert(room.layout@[0]@ =~= catalog_grids()[3][0]);
        assert(room.layout@[1]@ =~= catalog_grids()[3][1]);
        assert(room.layout@[2]@ =~= catalog_grids()[3][2]);
        assert(room_has_grid(room, catalog_grids()[3]));
    }
    rooms.push(room);

    let mut layout: Vec<Vec<Tile>> = Vec::new();
    layout.push(slice_to_vec(&[E, E, D]));
    layout.push(slice_to_vec(&[D, E, D]));
    layout.push(slice_to_vec(&[D, E, E]));
    let room = Room::new(layout).unwrap();
    proof {
        assert(room.layout@[0]@ =~= catalog_grids()[4][0]);
        assert(room.layout@[1]@ =~= catalog_grids()[4][1]);
        assert(room.layout@[2]@ =~= catalog_grids()[4][2]);
        assert(room_has_grid(room, catalog_grids()[4]));
    }
    rooms.push(room);

    let mut layout: Vec<Vec<Tile>> = Vec::new();
    layout.push(slice_to_vec(&[E, E, E, E]));
    layout.push(slice_to_vec(&[D, E, E, E]));
    layout.push(slice_to_vec(&[D, E, E, D]));
    layout.push(slice_to_vec(&[D, E, D, D]));
    layout.push(slice_to_vec(&[D, E, D, D]));
    layout.push(slice_to_vec(&[D, E, D, D]));
    layout.push(slice_to_vec(&[D, D, D, D]));
    let room = Room::new(layout).unwrap();
    proof {
        assert(room.layout@[0]@ =~= catalog_grids()[5][0]);
        assert(room.layout@[1]@ =~= catalog_grids()[5][1]);
        assert(room.layout@[2]@ =~= catalog_grids()[5][2]);
        assert(room.layout@[3]@ =~= catalog_grids()[5][3]);
        assert(room.layout@[4]@ =~= catalog_grids()[5][4]);
        assert(room.layout@[5]@ =~= catalog_grids()[5][5]);
        assert(room.layout@[6]@ =~= catalog_grids()[5][6]);
        assert(room_has_grid(room, catalog_grids()[5]));
    }
    rooms.push(room);

    let mut layout: Vec<Vec<Tile>> = Vec::new();
    layout.push(slice_to_vec(&[E, E, E, E, E, D, D, D]));
    layout.push(slice_to_vec(&[D, D, D, E, E, D, D, D]));
    layout.push(slice_to_vec(&[D, E, E, E, E, E, E, D]));
    layout.push(slice_to_vec(&[D, D, D, E, E, D, D, D]));
    let room = Room::new(layout).unwrap();
    proof {
        assert(room.layout@[0]@ =~= catalog_grids()[6][0]);
        assert(room.layout@[1]@ =~= catalog_grids()[6][1]);
        assert(room.layout@[2]@ =~= catalog_grids()[6][2]);
        assert(room.layout@[3]@ =~= catalog_grids()[6][3]);
        assert(room_has_grid(room, catalog_grids()[6]));
    }
    rooms.push(room);

    let mut layout: Vec<Vec<Tile>> = Vec::new();
    layout.push(slice_to_vec(&[E, D, E, D, E, D, E, D, E]));
    layout.push(slice_to_vec(&[E, D, D, D, D, D, D, D, E]));
    layout.push(slice_to_vec(&[E, D, E, D, E, D, E, D, E]));
    let room = Room::new(layout).unwrap();
    proof {
        assert(room.layout@[0]@ =~= catalog_grids()[7][0]);
        assert(room.layout@[1]@ =~= catalog_grids()[7][1]);
        assert(room.layout@[2]@ =~= catalog_grids()[7][2]);
        assert(room_has_grid(room, catalog_grids()[7]));
    }
    rooms.push(room);

    let mut layout: Vec<Vec<Tile>> = Vec::new();
    layout.push(slice_to_vec(&[E, E, E, E, E, E, E, E]));
    layout.push(slice_to_vec(&[D, D, D, D, D, D, D, D]));
    layout.push(slice_to_vec(&[E, D, D, D, D, D, D, E]));
    layout.push(slice_to_vec(&[E, D, D, E, E, D, D, E]));
    let room = Room::new(layout).unwrap();
    proof {
        assert(room.layout@[0]@ =~= catalog_grids()[8][0]);
        assert(room.layout@[1]@ =~= catalog_grids()[8][1]);
        assert(room.layout@[2]@ =~= catalog_grids()[8][2]);
        assert(room.layout@[3]@ =~= catalog_grids()[8][3]);
        assert(room_has_grid(room, catalog_grids()[8]));
    }
    rooms.push(room);

    let mut layout: Vec<Vec<Tile>> = Vec::new();
    layout.push(slice_to_vec(&[E, E, E, E, E, E, E, E, E]));
    layout.push(slice_to_vec(&[E, D, D, D, D, D, D, D, E]));
    layout.push(slice_to_vec(&[E, D, E, D, E, D, E, D, E]));
    layout.push(slice_to_vec(&[E, D, D, D, D, D, D, D, E]));
    layout.push(slice_to_vec(&[E, D, E, D, E, D, E, D, E]));
    layout.push(slice_to_vec(&[E, D, D, D, D, D, D, D, E]));
    let room = Room::new(layout).unwrap();
    proof {
        assert(room.layout@[0]@ =~= catalog_grids()[9][0]);
        assert(room.layout@[1]@ =~= catalog_grids()[9][1]);
        assert(room.layout@[2]@ =~= catalog_grids()[9][2]);
        assert(room.layout@[3]@ =~= catalog_grids()[9][3]);
        assert(room.layout@[4]@ =~= catalog_grids()[9][4]);
        assert(room.layout@[5]@ =~= catalog_grids()[9][5]);
        assert(room_has_grid(room, catalog_grids()[9]));
    }
    rooms.push(room);

    let mut layout: Vec<Vec<Tile>> = Vec::new();
    layout.push(slice_to_vec(&[D, D, E, E, E, E, E, E, E]));
    layout.push(slice_to_vec(&[D, E, E, E, E, D, E, E, E]));
    layout.push(slice_to_vec(&[E, E, E, E, D, D, D, E, E]));
    layout.push(slice_to_vec(&[E, E, E, E, E, D, D, D, E]));
    layout.push(slice_to_vec(&[E, E, E, E, E, D, D, D, D]));
    layout.push(slice_to_vec(&[E, E, E, D, D, D, D, D, D]));
    let room = Room::new(layout).unwrap();
    proof {
        assert(room.layout@[0]@ =~= catalog_grids()[10][0]);
        assert(room.layout@[1]@ =~= catalog_grids()[10][1]);
        assert(room.layout@[2]@ =~= catalog_grids()[10][2]);
        assert(room.layout@[3]@ =~= catalog_grids()[10][3]);
        assert(room.layout@[4]@ =~= catalog_grids()[10][4]);
        assert(room.layout@[5]@ =~= catalog_grids()[10][5]);
        assert(room_has_grid(room, catalog_grids()[10]));
    }
    rooms.push(room);

    rooms
}

/// Largest nominal generation bound accepted by the generator. Together with
/// [`MAX_ROOM_DIM`] it keeps every anchor computation inside `i32`.
pub const MAX_MAP_BOUND: u32 = 1000000000;

/// Declares rand's `StdRng` — the injected, seedable randomness source —
/// as an opaque outside type, so a generator can own one and hand it to
/// `SliceRandom::shuffle`. Nothing is assumed about the values it produces.
#[verifier::external_type_specification]
#[verifier::external_body]
pub struct ExStdRng(rand::rngs::StdRng);

/// A placement acceptable on the pending stack of a generator with nominal
/// bounds `w` by `h`: a well-formed room anchored so that its bounding
/// rectangle lies within the margin-expanded generation area.
pub open spec fn placement_ok(p: RoomPlacement, w: u32, h: u32) -> bool {
    &&& p.room.wf()
    &&& 0 <= p.pos.x && p.pos.x + p.room.width <= w + 20
    &&& 0 <= p.pos.y && p.pos.y + p.room.height <= h + 20
}

/// A non-degenerate rectangle lying within the generation area of nominal
/// bounds `w` by `h` expanded by the fixed 20-unit margin on the high side,
/// anchored at the origin.
pub open spec fn rect_in_region(x: Rect, w: u32, h: u32) -> bool {
    &&& x.min.x < x.max.x
    &&& x.min.y < x.max.y
    &&& 0 <= x.min.x && x.max.x <= w + 20
    &&& 0 <= x.min.y && x.max.y <= h + 20
}

/// Number of lattice points available as the minimum corner of a rectangle
/// recorded by a generator with nominal bounds `w` by `h` (see
/// [`rect_in_region`]): the finiteness behind termination.
pub open spec fn region_capacity(w: u32, h: u32) -> int {
    (w + 20) * (h + 20)
}

/// `exit` indexes a cell along the wall of `room` crossed towards `d`.
pub open spec fn exit_in_range(room: Room, d: Direction, exit: i32) -> bool {
    match d {
        Direction::North | Direction::South => 0 <= exit < room.width,
        Direction::East | Direction::West => 0 <= exit < room.height,
    }
}

/// The anchor that aligns doorway cell `entrance` on the side of `room`
/// facing back towards `curr` with doorway cell `exit` on side `d` of
/// `curr`: the candidate sits flush against the shared wall, offset so the
/// two doorway cells meet across it.
pub open spec fn attach_anchor(
    curr: RoomPlacement,
    d: Direction,
    exit: i32,
    room: Room,
    entrance: i32,
) -> Point {
    match d {
        Direction::North => Point {
            x: (curr.pos.x + exit - entrance) as i32,
            y: (curr.pos.y - room.height) as i32,
        },
        Direction::East => Point {
            x: (curr.pos.x + curr.room.width) as i32,
            y: (curr.pos.y + exit - entrance) as i32,
        },
        Direction::South => Point {
            x: (curr.pos.x + exit - entrance) as i32,
            y: (curr.pos.y + curr.room.height) as i32,
        },
        Direction::West => Point {
            x: (curr.pos.x - room.width) as i32,
            y: (curr.pos.y + exit - entrance) as i32,
        },
    }
}

/// The bounding rectangle of `room` anchored at `pos`.
pub open spec fn rect_at(pos: Point, room: Room) -> Rect {
    Rect {
        min: pos,
        max: Point { x: (pos.x + room.width) as i32, y: (pos.y + room.height) as i32 },
    }
}

/// Candidate `room`, attached through the pair (`exit`, `entrance`) across
/// side `d` of `curr`, is acceptable against the recorded rectangles
/// `placed`: `entrance` is a doorway on the side facing back towards
/// `curr`, and the anchored bounding rectangle overlaps nothing recorded
/// and lies within the margin-expanded generation area.
pub open spec fn candidate_fits(
    placed: Multiset<Rect>,
    w: u32,
    h: u32,
    curr: RoomPlacement,
    d: Direction,
    exit: i32,
    room: Room,
    entrance: i32,
) -> bool {
    let r = rect_at(attach_anchor(curr, d, exit, room, entrance), room);
    &&& room.spec_is_entrance(d.spec_flip(), entrance)
    &&& !(exists|x: Rect| placed.contains(x) && x.spec_overlaps(r))
    &&& rect_in_region(r, w, h)
}

/// Some (catalog template, doorway) pair fits at doorway cell `exit` on
/// side `d` of `curr`.
pub open spec fn exit_accepts(
    rooms: Seq<Room>,
    placed: Multiset<Rect>,
    w: u32,
    h: u32,
    curr: RoomPlacement,
    d: Direction,
    exit: i32,
) -> bool {
    exists|i: int, e: i32| #![auto]
        0 <= i < rooms.len() && candidate_fits(placed, w, h, curr, d, exit, rooms[i], e)
}

/// `p` is an accepted catalog attachment at doorway `exit` on side `d` of
/// `curr`: some fitting (template, doorway) pair exists such that `p`
/// carries that template's data and is anchored by the alignment
/// arithmetic.
pub open spec fn accepted_at(
    rooms: Seq<Room>,
    placed: Multiset<Rect>,
    w: u32,
    h: u32,
    curr: RoomPlacement,
    d: Direction,
    exit: i32,
    p: RoomPlacement,
) -> bool {
    exists|i: int, e: i32| #![auto]
        0 <= i < rooms.len()
        && candidate_fits(placed, w, h, curr, d, exit, rooms[i], e)
        && room_like(p.room, rooms[i])
        && p.pos == attach_anchor(curr, d, exit, rooms[i], e)
}

/// `p` carries some catalog template's data, anchored by the doorway
/// alignment arithmetic at some doorway cell of `curr`.
pub open spec fn is_attachment(rooms: Seq<Room>, curr: RoomPlacement, p: RoomPlacement) -> bool {
    exists|d: Direction, exit: i32, i: int, e: i32| #![auto]
        curr.room.spec_is_entrance(d, exit)
        && 0 <= i < rooms.len()
        && rooms[i].spec_is_entrance(d.spec_flip(), e)
        && room_like(p.room, rooms[i])
        && p.pos == attach_anchor(curr, d, exit, rooms[i], e)
}

/// Rooms carrying the same data have the same doorways.
proof fn lemma_room_like_entrance(a: Room, b: Room, d: Direction, off: i32)
    requires
        room_like(a, b),
        b.wf(),
    ensures
        a.spec_is_entrance(d, off) == b.spec_is_entrance(d, off),
{
    if 0 <= off < a.layout@.len() {
        assert(a.layout@[off as int]@ == b.layout@[off as int]@);
    }
    assert(a.layout@[0]@ == b.layout@[0]@);
    assert(a.layout@[a.layout@.len() - 1]@ == b.layout@[b.layout@.len() - 1]@);
}

/// Rooms carrying the same data fit identically as candidates.
proof fn lemma_room_like_fits(
    a: Room,
    b: Room,
    placed: Multiset<Rect>,
    w: u32,
    h: u32,
    curr: RoomPlacement,
    d: Direction,
    exit: i32,
    e: i32,
)
    requires
        room_like(a, b),
        b.wf(),
    ensures
        candidate_fits(placed, w, h, curr, d, exit, a, e)
            == candidate_fits(placed, w, h, curr, d, exit, b, e),
        attach_anchor(curr, d, exit, a, e) == attach_anchor(curr, d, exit, b, e),
        rect_at(attach_anchor(curr, d, exit, a, e), a)
            == rect_at(attach_anchor(curr, d, exit, b, e), b),
{
    lemma_room_like_entrance(a, b, d.spec_flip(), e);
}

/// Carrying the same data is transitive.
proof fn lemma_room_like_trans(a: Room, b: Room, c: Room)
    requires
        room_like(a, b),
        room_like(b, c),
    ensures
        room_like(a, c),
{
    assert forall|i: int| 0 <= i < a.layout@.len()
        implies (#[trigger] a.layout@[i])@ == c.layout@[i]@ by {
        assert(a.layout@[i]@ == b.layout@[i]@);
        assert(b.layout@[i]@ == c.layout@[i]@);
    }
}

/// Combined number of doorway offsets of `room` over the listed sides.
pub open spec fn entrance_total(room: Room, dirs: Seq<Direction>) -> int
    decreases dirs.len(),
{
    if dirs.len() == 0 {
        0
    } else {
        room.spec_entrances(dirs[0]).len() + entrance_total(room, dirs.drop_first())
    }
}

/// Appending a side adds that side's doorway count to the total.
proof fn lemma_entrance_total_push(room: Room, s: Seq<Direction>, d: Direction)
    ensures
        entrance_total(room, s.push(d)) == entrance_total(room, s)
            + room.spec_entrances(d).len(),
    decreases s.len(),
{
    if s.len() == 0 {
        assert(s.push(d).drop_first() =~= s);
    } else {
        assert(s.push(d).drop_first() =~= s.drop_first().push(d));
        lemma_entrance_total_push(room, s.drop_first(), d);
    }
}

/// Over any ordering of the four distinct cardinal directions, the total is
/// the sum of the four doorway lists' lengths.
proof fn lemma_entrance_total_all(room: Room, s: Seq<Direction>)
    requires
        s.len() == 4,
        s.no_duplicates(),
    ensures
        entrance_total(room, s) == room.north@.len() + room.east@.len()
            + room.south@.len() + room.west@.len(),
{
    let s1 = s.drop_first();
    let s2 = s1.drop_first();
    let s3 = s2.drop_first();
    assert(s1[0] == s[1] && s1[1] == s[2] && s1[2] == s[3]);
    assert(s2[0] == s[2] && s2[1] == s[3]);
    assert(s3[0] == s[3]);
    assert(entrance_total(room, s) == room.spec_entrances(s[0]).len()
        + entrance_total(room, s1));
    assert(entrance_total(room, s1) == room.spec_entrances(s[1]).len()
        + entrance_total(room, s2));
    assert(entrance_total(room, s2) == room.spec_entrances(s[2]).len()
        + entrance_total(room, s3));
    assert(entrance_total(room, s3) == room.spec_entrances(s[3]).len()
        + entrance_total(room, s3.drop_first()));
    assert(entrance_total(room, s3.drop_first()) == 0);
}

/// A tile-based dungeon map generator.
///
/// The generator performs a randomized depth-first search of the space of
/// tile-based maps: it pops a pending placement, tries to attach a room from
/// the catalog to each of its doorways, records every accepted bounding
/// rectangle in a spatial index so that accepted rooms never overlap, and
/// yields the popped placement.
pub struct MapGenerator {
    width: u32,
    height: u32,
    room_stack: Vec<RoomPlacement>,
    prev_placed: KDTree,
    rng: rand::rngs::StdRng,
    rooms: Vec<Room>,
}

impl MapGenerator {
    /// Nominal width of the generation area.
    pub closed spec fn spec_width(self) -> u32 {
        self.width
    }

    /// Nominal height of the generation area.
    pub closed spec fn spec_height(self) -> u32 {
        self.height
    }

    /// The pending placements, most recently accepted last.
    pub closed spec fn stack(self) -> Seq<RoomPlacement> {
        self.room_stack@
    }

    /// The bounding rectangles of every placement ever accepted.
    pub closed spec fn placed(self) -> Multiset<Rect> {
        self.prev_placed@
    }

    /// The fixed room catalog, the only source of new room shapes.
    pub closed spec fn catalog(self) -> Seq<Room> {
        self.rooms@
    }

    /// Invariant of a generator: the spatial index is well-formed, the
    /// recorded rectangles are pairwise disjoint and lie within the
    /// margin-expanded generation area, every pending placement is recorded, distinct pending
    /// placements occupy distinct rectangles, and the room catalog is
    /// well-formed.
    pub closed spec fn wf(self) -> bool {
        &&& 10 <= self.width <= MAX_MAP_BOUND
        &&& 10 <= self.height <= MAX_MAP_BOUND
        &&& self.prev_placed.wf()
        &&& pairwise_disjoint(self.prev_placed@)
        &&& forall|x: Rect| #[trigger] self.prev_placed@.contains(x)
            ==> rect_in_region(x, self.width, self.height)
        &&& forall|i: int| 0 <= i < self.room_stack@.len()
            ==> placement_ok(#[trigger] self.room_stack@[i], self.width, self.height)
        &&& forall|i: int| 0 <= i < self.room_stack@.len()
            ==> self.prev_placed@.contains(rect_of(#[trigger] self.room_stack@[i]))
        &&& forall|i: int, j: int| 0 <= i < j < self.room_stack@.len()
            ==> rect_of(#[trigger] self.room_stack@[i]) != rect_of(#[trigger] self.room_stack@[j])
        &&& forall|i: int| 0 <= i < self.rooms@.len() ==> (#[trigger] self.rooms@[i]).wf()
    }

    /// The global non-overlap invariant: no two distinct recorded
    /// rectangles overlap.
    pub proof fn lemma_placed_disjoint(self)
        requires
            self.wf(),
        ensures
            pairwise_disjoint(self.placed()),
    {
    }

    /// Any two rectangles recorded by one generator — in particular the
    /// bounding rectangles of any two placements it has yielded — do not
    /// overlap unless they are the same rectangle. Two distinct yields never
    /// occupy the same rectangle: by the contracts of
    /// [`MapGenerator::next`], every accepted placement's rectangle was
    /// absent from the recorded set when it was accepted, and the recorded
    /// set only grows.
    pub proof fn lemma_yielded_rects_disjoint(self, a: Rect, b: Rect)
        requires
            self.wf(),
            self.placed().contains(a),
            self.placed().contains(b),
            a != b,
        ensures
            !a.spec_overlaps(b),
    {
    }

    /// No rectangle is recorded twice: every recorded rectangle is
    /// non-degenerate and would overlap itself, so a duplicate would break
    /// the pairwise non-overlap invariant.
    pub proof fn lemma_placed_no_duplicates(self)
        requires
            self.wf(),
        ensures
            forall|x: Rect| self.placed().count(x) <= 1,
    {
        assert forall|x: Rect| #[trigger] self.placed().count(x) <= 1 by {
            if self.placed().count(x) >= 2 {
                assert(self.placed().contains(x));
                assert(rect_in_region(x, self.spec_width(), self.spec_height()));
                assert(x.spec_overlaps(x));
                assert(!x.spec_overlaps(x));
            }
        }
    }

    /// Distinct pending placements occupy distinct, non-overlapping
    /// rectangles.
    pub proof fn lemma_stack_rects_distinct(self, i: int, j: int)
        requires
            self.wf(),
            0 <= i < self.stack().len(),
            0 <= j < self.stack().len(),
            i != j,
        ensures
            rect_of(self.stack()[i]) != rect_of(self.stack()[j]),
            !rect_of(self.stack()[i]).spec_overlaps(rect_of(self.stack()[j])),
    {
    }

    /// Relies on rand's `SliceRandom::shuffle` (a Fisher-Yates shuffle made
    /// of in-place swaps): it reorders the vector using this generator's
    /// randomness source, keeping exactly the same elements.
    #[verifier::external_body]
    fn shuffle_vec<T>(&mut self, v: &mut Vec<T>)
        ensures
            final(v)@.to_multiset() == old(v)@.to_multiset(),
            final(self).width == old(self).width,
            final(self).height == old(self).height,
            final(self).room_stack == old(self).room_stack,
            final(self).prev_placed == old(self).prev_placed,
            final(self).rooms == old(self).rooms,
    {
        v.shuffle(&mut self.rng);
    }

    /// An owned copy of one catalog template.
    fn catalog_room(&self, idx: usize) -> (r: Room)
        requires
            self.wf(),
            idx < self.rooms@.len(),
        ensures
            room_like(r, self.rooms@[idx as int]),
            r.wf(),
    {
        let r = self.rooms[idx].copy();
        proof {
            lemma_room_like_wf(r, self.rooms@[idx as int]);
        }
        r
    }

    /// Tries to attach one catalog room to the doorway cell `exit` on side
    /// `dir` of `curr`: the catalog is visited in a random order and, per
    /// candidate, its doorways facing back towards `curr` in catalog order.
    /// The first candidate whose bounding rectangle overlaps nothing already
    /// placed and lies within the margin-expanded generation area is recorded
    /// and
    /// pushed; if none fits, the exit is left as a dead end.
    fn try_exit(&mut self, curr: &RoomPlacement, dir: Direction, exit: i32)
        requires
            old(self).wf(),
            placement_ok(*curr, old(self).spec_width(), old(self).spec_height()),
            exit_in_range(curr.room, dir, exit),
        ensures
            final(self).wf(),
            final(self).width == old(self).width,
            final(self).height == old(self).height,
            final(self).rooms == old(self).rooms,
            old(self).room_stack@.is_prefix_of(final(self).room_stack@),
            old(self).prev_placed@.subset_of(final(self).prev_placed@),
            final(self).prev_placed@.len() - old(self).prev_placed@.len()
                == final(self).room_stack@.len() - old(self).room_stack@.len(),
            (final(self).room_stack@.len() == old(self).room_stack@.len() + 1)
                == exit_accepts(old(self).rooms@, old(self).prev_placed@, old(self).width,
                    old(self).height, *curr, dir, exit),
            !exit_accepts(old(self).rooms@, old(self).prev_placed@, old(self).width,
                old(self).height, *curr, dir, exit)
                ==> final(self).room_stack == old(self).room_stack
                    && final(self).prev_placed == old(self).prev_placed,
            exit_accepts(old(self).rooms@, old(self).prev_placed@, old(self).width,
                old(self).height, *curr, dir, exit) ==> {
                let p = final(self).room_stack@.last();
                &&& final(self).room_stack@ == old(self).room_stack@.push(p)
                &&& accepted_at(old(self).rooms@, old(self).prev_placed@, old(self).width,
                    old(self).height, *curr, dir, exit, p)
                &&& final(self).prev_placed@ == old(self).prev_placed@.insert(rect_of(p))
                &&& !old(self).prev_placed@.contains(rect_of(p))
            },
    {
        let n = self.rooms.len();
        let mut indices: Vec<usize> = Vec::new();
        let mut k: usize = 0;
        while k < n
            invariant
                n == self.rooms@.len(),
                k <= n,
                indices@.len() == k,
                forall|t: int| 0 <= t < k ==> #[trigger] indices@[t] == t,
            decreases n - k,
        {
            indices.push(k);
            k += 1;
        }
        let ghost indices0 = indices@;
        self.shuffle_vec(&mut indices);
        proof {
            broadcast use vstd::seq_lib::group_to_multiset_ensures;

            assert(indices@.len() == indices@.to_multiset().len());
            assert(indices0.len() == indices0.to_multiset().len());
            assert(indices@.len() == n);
            assert forall|t: int| 0 <= t < indices@.len()
                implies #[trigger] indices@[t] < n by {
                let x = indices@[t];
                assert(indices@.contains(x));
                assert(indices@.to_multiset().count(x) > 0);
                assert(indices0.to_multiset().count(x) > 0);
                assert(indices0.contains(x));
                let t0 = choose|t0: int| 0 <= t0 < indices0.len() && indices0[t0] == x;
            }
            assert forall|u: usize| u < n implies #[trigger] indices@.contains(u) by {
                assert(indices0[u as int] == u);
                assert(indices0.contains(u));
                assert(indices0.to_multiset().count(u) > 0);
                assert(indices@.to_multiset().count(u) > 0);
            }
        }
        let opp = dir.flip();
        let mut ii: usize = 0;
        while ii < indices.len()
            invariant
                self.wf(),
                self.width == old(self).width,
                self.height == old(self).height,
                self.rooms == old(self).rooms,
                self.room_stack == old(self).room_stack,
                self.prev_placed == old(self).prev_placed,
                placement_ok(*curr, self.width, self.height),
                exit_in_range(curr.room, dir, exit),
                opp == dir.spec_flip(),
                n == self.rooms@.len(),
                indices@.len() == n,
                ii <= n,
                forall|t: int| 0 <= t < indices@.len()
                    ==> #[trigger] indices@[t] < self.rooms@.len(),
                forall|u: usize| u < n ==> #[trigger] indices@.contains(u),
                forall|t: int, e: i32| #![auto] 0 <= t < ii
                    ==> !candidate_fits(self.prev_placed@, self.width, self.height, *curr,
                        dir, exit, self.rooms@[indices@[t] as int], e),
            decreases indices@.len() - ii,
        {
            let idx = indices[ii];
            let try_room = self.catalog_room(idx);
            let ents = match opp {
                Direction::North => &try_room.north,
                Direction::East => &try_room.east,
                Direction::South => &try_room.south,
                Direction::West => &try_room.west,
            };
            proof {
                assert(ents@ == try_room.spec_entrances(opp));
            }
            let mut j: usize = 0;
            while j < ents.len()
                invariant
                    self.wf(),
                    self.width == old(self).width,
                    self.height == old(self).height,
                    self.rooms == old(self).rooms,
                    self.room_stack == old(self).room_stack,
                    self.prev_placed == old(self).prev_placed,
                    placement_ok(*curr, self.width, self.height),
                    exit_in_range(curr.room, dir, exit),
                    opp == dir.spec_flip(),
                    try_room.wf(),
                    idx < self.rooms@.len(),
                    room_like(try_room, self.rooms@[idx as int]),
                    ents@ == try_room.spec_entrances(opp),
                    forall|kk: int| #![auto] 0 <= kk < j
                        ==> !candidate_fits(self.prev_placed@, self.width, self.height,
                            *curr, dir, exit, try_room, ents@[kk]),
                decreases ents@.len() - j,
            {
                let entrance = ents[j];
                proof {
                    assert(try_room.spec_entrances(opp).contains(entrance)) by {
                        assert(try_room.spec_entrances(opp)[j as int] == entrance);
                    }
                    assert(try_room.spec_is_entrance(opp, entrance));
                }
                let tw = try_room.width as i32;
                let th = try_room.height as i32;
                let attempt = match dir {
                    Direction::North => Point {
                        x: curr.pos.x + exit - entrance,
                        y: curr.pos.y - th,
                    },
                    Direction::East => Point {
                        x: curr.pos.x + curr.room.width as i32,
                        y: curr.pos.y + exit - entrance,
                    },
                    Direction::South => Point {
                        x: curr.pos.x + exit - entrance,
                        y: curr.pos.y + curr.room.height as i32,
                    },
                    Direction::West => Point {
                        x: curr.pos.x - tw,
                        y: curr.pos.y + exit - entrance,
                    },
                };
                let cand = Rect {
                    min: attempt,
                    max: Point { x: attempt.x + tw, y: attempt.y + th },
                };
                proof {
                    assert(attempt == attach_anchor(*curr, dir, exit, try_room, entrance));
                    assert(cand == rect_at(attempt, try_room));
                }
                let bound_x = (self.width + 20) as i32;
                let bound_y = (self.height + 20) as i32;
                let within = 0 <= cand.min.x && cand.max.x <= bound_x
                    && 0 <= cand.min.y && cand.max.y <= bound_y;
                if !self.prev_placed.overlaps(&cand) && within {
                    let ghost pre = *self;
                    self.prev_placed.add_rect(cand);
                    let p = try_room.place(attempt);
                    proof {
                        lemma_room_like_wf(p.room, try_room);
                        Self::lemma_accept(pre, *self, cand, self.width, self.height);
                        assert(rect_of(p) == cand);
                    }
                    self.room_stack.push(p);
                    proof {
                        assert(pre.room_stack@.is_prefix_of(pre.room_stack@)) by {
                            assert(pre.room_stack@
                                =~= pre.room_stack@.subrange(0, pre.room_stack@.len() as int));
                        }
                        Self::lemma_push_accepted(pre, *self, p, cand, old(self).room_stack@,
                            old(self).prev_placed@);
                        let i = idx as int;
                        lemma_room_like_fits(try_room, self.rooms@[i], old(self).prev_placed@,
                            self.width, self.height, *curr, dir, exit, entrance);
                        assert(candidate_fits(old(self).prev_placed@, self.width, self.height,
                            *curr, dir, exit, self.rooms@[i], entrance));
                        assert(exit_accepts(old(self).rooms@, old(self).prev_placed@,
                            self.width, self.height, *curr, dir, exit));
                        lemma_room_like_trans(p.room, try_room, self.rooms@[i]);
                        assert(p.pos == attach_anchor(*curr, dir, exit, self.rooms@[i],
                            entrance));
                        assert(accepted_at(old(self).rooms@, old(self).prev_placed@,
                            self.width, self.height, *curr, dir, exit, p));
                    }
                    return;
                }
                proof {
                    assert(!candidate_fits(self.prev_placed@, self.width, self.height, *curr,
                        dir, exit, try_room, entrance)) by {
                        if candidate_fits(self.prev_placed@, self.width, self.height, *curr,
                            dir, exit, try_room, entrance) {
                            assert(rect_in_region(cand, self.width, self.height));
                        }
                    }
                }
                j += 1;
            }
            proof {
                assert forall|e: i32| #![auto]
                    !candidate_fits(self.prev_placed@, self.width, self.height, *curr, dir,
                        exit, self.rooms@[idx as int], e) by {
                    lemma_room_like_fits(try_room, self.rooms@[idx as int], self.prev_placed@,
                        self.width, self.height, *curr, dir, exit, e);
                    if candidate_fits(self.prev_placed@, self.width, self.height, *curr, dir,
                        exit, try_room, e) {
                        assert(try_room.spec_is_entrance(opp, e));
                        assert(try_room.spec_entrances(opp).contains(e));
                        let kk = choose|kk: int| 0 <= kk < ents@.len() && ents@[kk] == e;
                    }
                }
            }
            ii += 1;
        }
        proof {
            assert forall|i: int, e: i32| #![auto] 0 <= i < self.rooms@.len()
                implies !candidate_fits(self.prev_placed@, self.width, self.height, *curr,
                    dir, exit, self.rooms@[i], e) by {
                assert(indices@.contains(i as usize));
                let t = choose|t: int| 0 <= t < indices@.len() && indices@[t] == i as usize;
            }
            assert(!exit_accepts(old(self).rooms@, old(self).prev_placed@, old(self).width,
                old(self).height, *curr, dir, exit)) by {
                if exit_accepts(old(self).rooms@, old(self).prev_placed@, old(self).width,
                    old(self).height, *curr, dir, exit) {
                    let (i, e) = choose|i: int, e: i32| #![auto]
                        0 <= i < old(self).rooms@.len()
                        && candidate_fits(old(self).prev_placed@, old(self).width,
                            old(self).height, *curr, dir, exit, old(self).rooms@[i], e);
                }
            }
        }
    }

    /// After recording a fresh rectangle that overlapped nothing placed and
    /// met the generation area, the recorded rectangles are still pairwise
    /// disjoint and still lie within the area.
    proof fn lemma_accept(pre: Self, post: Self, cand: Rect, w: u32, h: u32)
        requires
            pairwise_disjoint(pre.prev_placed@),
            forall|x: Rect| #[trigger] pre.prev_placed@.contains(x) ==> rect_in_region(x, w, h),
            post.prev_placed@ == pre.prev_placed@.insert(cand),
            !(exists|x: Rect| pre.prev_placed@.contains(x) && x.spec_overlaps(cand)),
            rect_in_region(cand, w, h),
        ensures
            pairwise_disjoint(post.prev_placed@),
            forall|x: Rect| #[trigger] post.prev_placed@.contains(x) ==> rect_in_region(x, w, h),
            pre.prev_placed@.subset_of(post.prev_placed@),
            post.prev_placed@.len() == pre.prev_placed@.len() + 1,
            !pre.prev_placed@.contains(cand),
    {
        let m0 = pre.prev_placed@;
        let m1 = post.prev_placed@;
        assert(cand.spec_overlaps(cand));
        assert(!m0.contains(cand));
        assert forall|a: Rect, b: Rect| m1.contains(a) && m1.contains(b) && a != b
            implies !a.spec_overlaps(b) by {
            if a == cand {
                assert(m0.contains(b));
                assert(!b.spec_overlaps(cand));
                crate::rect::lemma_overlaps_symmetric(a, b);
            } else if b == cand {
                assert(m0.contains(a));
            } else {
                assert(m0.contains(a) && m0.contains(b));
            }
        }
        assert forall|a: Rect| m1.count(a) >= 2 implies !a.spec_overlaps(a) by {
            if a == cand {
                assert(m0.count(cand) == 0);
                assert(false);
            } else {
                assert(m0.count(a) >= 2);
            }
        }
        assert forall|x: Rect| #[trigger] m1.contains(x) implies rect_in_region(x, w, h) by {
            if x != cand {
                assert(m0.contains(x));
            }
        }
        vstd::multiset::lemma_insert_len(m0, cand);
    }

    /// After pushing the accepted placement, every pending placement is
    /// still recorded, acceptable, and occupies its own rectangle.
    proof fn lemma_push_accepted(
        pre: Self,
        post: Self,
        p: RoomPlacement,
        cand: Rect,
        base_stack: Seq<RoomPlacement>,
        base_placed: Multiset<Rect>,
    )
        requires
            pre.wf(),
            post.width == pre.width,
            post.height == pre.height,
            post.rooms == pre.rooms,
            post.room_stack@ == pre.room_stack@.push(p),
            post.prev_placed@ == pre.prev_placed@.insert(cand),
            post.prev_placed.wf(),
            pairwise_disjoint(post.prev_placed@),
            forall|x: Rect| #[trigger] post.prev_placed@.contains(x)
                ==> rect_in_region(x, post.width, post.height),
            rect_of(p) == cand,
            !pre.prev_placed@.contains(cand),
            placement_ok(p, pre.width, pre.height),
            base_stack.is_prefix_of(pre.room_stack@),
            base_placed.subset_of(pre.prev_placed@),
            pre.prev_placed@.len() - base_placed.len()
                == pre.room_stack@.len() - base_stack.len(),
        ensures
            post.wf(),
            base_stack.is_prefix_of(post.room_stack@),
            base_placed.subset_of(post.prev_placed@),
            post.prev_placed@.len() - base_placed.len()
                == post.room_stack@.len() - base_stack.len(),
    {
        let s1 = post.room_stack@;
        assert forall|i: int| 0 <= i < s1.len()
            implies placement_ok(#[trigger] s1[i], post.width, post.height) by {
            if i < s1.len() - 1 {
                assert(s1[i] == pre.room_stack@[i]);
            }
        }
        assert forall|i: int| 0 <= i < s1.len()
            implies post.prev_placed@.contains(rect_of(#[trigger] s1[i])) by {
            if i < s1.len() - 1 {
                assert(s1[i] == pre.room_stack@[i]);
                assert(pre.prev_placed@.contains(rect_of(s1[i])));
                assert(post.prev_placed@.count(rect_of(s1[i]))
                    >= pre.prev_placed@.count(rect_of(s1[i])));
            }
        }
        assert forall|i: int, j: int| 0 <= i < j < s1.len()
            implies rect_of(#[trigger] s1[i]) != rect_of(#[trigger] s1[j]) by {
            if j < s1.len() - 1 {
                assert(s1[i] == pre.room_stack@[i] && s1[j] == pre.room_stack@[j]);
            } else {
                assert(s1[i] == pre.room_stack@[i]);
                assert(pre.prev_placed@.contains(rect_of(s1[i])));
                assert(rect_of(s1[j]) == cand);
            }
        }
        vstd::multiset::lemma_insert_len(pre.prev_placed@, cand);
        assert(base_stack.is_prefix_of(s1)) by {
            assert(base_stack =~= s1.subrange(0, base_stack.len() as int));
        }
        assert(base_placed.subset_of(post.prev_placed@)) by {
            assert forall|x: Rect| base_placed.count(x) <= post.prev_placed@.count(x) by {
                assert(base_placed.count(x) <= pre.prev_placed@.count(x));
            }
        }
    }

    /// Grows the frontier from `curr`: visits the four cardinal directions
    /// in a random order, `curr`'s doorway cells on each side in a random
    /// order, and tries to attach a room at every such exit.
    fn next_placements(&mut self, curr: &RoomPlacement)
        requires
            old(self).wf(),
            placement_ok(*curr, old(self).spec_width(), old(self).spec_height()),
        ensures
            final(self).wf(),
            final(self).width == old(self).width,
            final(self).height == old(self).height,
            final(self).rooms == old(self).rooms,
            old(self).room_stack@.is_prefix_of(final(self).room_stack@),
            old(self).prev_placed@.subset_of(final(self).prev_placed@),
            final(self).prev_placed@.len() - old(self).prev_placed@.len()
                == final(self).room_stack@.len() - old(self).room_stack@.len(),
            forall|t: int| old(self).room_stack@.len() <= t < final(self).room_stack@.len()
                ==> is_attachment(old(self).rooms@, *curr, #[trigger] final(self).room_stack@[t])
                    && !old(self).prev_placed@.contains(rect_of(final(self).room_stack@[t])),
            (exists|d: Direction, x: i32| #![auto]
                curr.room.spec_is_entrance(d, x)
                && exit_accepts(old(self).rooms@, old(self).prev_placed@, old(self).width,
                    old(self).height, *curr, d, x))
                ==> final(self).room_stack@.len() > old(self).room_stack@.len(),
            final(self).room_stack@.len() - old(self).room_stack@.len()
                <= curr.room.north@.len() + curr.room.east@.len() + curr.room.south@.len()
                    + curr.room.west@.len(),
    {
        let mut cardinals: Vec<Direction> = Vec::new();
        cardinals.push(Direction::North);
        cardinals.push(Direction::East);
        cardinals.push(Direction::South);
        cardinals.push(Direction::West);
        let ghost cards0 = cardinals@;
        self.shuffle_vec(&mut cardinals);
        proof {
            broadcast use vstd::seq_lib::group_to_multiset_ensures;

            assert forall|d: Direction| #[trigger] cardinals@.contains(d) by {
                match d {
                    Direction::North => assert(cards0[0] == d),
                    Direction::East => assert(cards0[1] == d),
                    Direction::South => assert(cards0[2] == d),
                    Direction::West => assert(cards0[3] == d),
                }
                assert(cards0.contains(d));
                assert(cards0.to_multiset().count(d) > 0);
                assert(cardinals@.to_multiset().count(d) > 0);
            }
            assert(cardinals@.len() == cardinals@.to_multiset().len());
            assert(cards0.len() == cards0.to_multiset().len());
            assert(cardinals@.len() == 4);
            assert(cards0.no_duplicates());
            cards0.lemma_multiset_has_no_duplicates();
            cardinals@.lemma_multiset_has_no_duplicates_conv();
            assert(cardinals@.no_duplicates());
        }
        let mut di: usize = 0;
        while di < cardinals.len()
            invariant
                self.wf(),
                self.width == old(self).width,
                self.height == old(self).height,
                self.rooms == old(self).rooms,
                old(self).room_stack@.is_prefix_of(self.room_stack@),
                old(self).prev_placed@.subset_of(self.prev_placed@),
                self.prev_placed@.len() - old(self).prev_placed@.len()
                    == self.room_stack@.len() - old(self).room_stack@.len(),
                placement_ok(*curr, self.width, self.height),
                di <= cardinals@.len(),
                cardinals@.len() == 4,
                cardinals@.no_duplicates(),
                forall|d: Direction| #[trigger] cardinals@.contains(d),
                self.room_stack@.len() - old(self).room_stack@.len()
                    <= entrance_total(curr.room, cardinals@.take(di as int)),
                forall|t: int| old(self).room_stack@.len() <= t < self.room_stack@.len()
                    ==> is_attachment(old(self).rooms@, *curr, #[trigger] self.room_stack@[t])
                        && !old(self).prev_placed@.contains(rect_of(self.room_stack@[t])),
                self.room_stack@.len() == old(self).room_stack@.len() ==> {
                    &&& self.room_stack == old(self).room_stack
                    &&& self.prev_placed == old(self).prev_placed
                    &&& forall|t: int, x: i32| #![auto]
                        0 <= t < di && curr.room.spec_is_entrance(cardinals@[t], x)
                            ==> !exit_accepts(old(self).rooms@, old(self).prev_placed@,
                                old(self).width, old(self).height, *curr, cardinals@[t], x)
                },
            decreases cardinals@.len() - di,
        {
            let dir = cardinals[di];
            let mut exits = Self::exits_of(curr, dir);
            let ghost exits0 = exits@;
            self.shuffle_vec(&mut exits);
            proof {
                broadcast use vstd::seq_lib::group_to_multiset_ensures;

                assert forall|t: int| 0 <= t < exits@.len()
                    implies curr.room.spec_is_entrance(dir, #[trigger] exits@[t]) by {
                    let x = exits@[t];
                    assert(exits@.contains(x));
                    assert(exits@.to_multiset().count(x) > 0);
                    assert(exits0.to_multiset().count(x) > 0);
                    assert(exits0.contains(x));
                    let t0 = choose|t0: int| 0 <= t0 < exits0.len() && exits0[t0] == x;
                }
                assert forall|x: i32| curr.room.spec_is_entrance(dir, x)
                    implies #[trigger] exits@.contains(x) by {
                    assert(exits0.contains(x));
                    assert(exits0.to_multiset().count(x) > 0);
                    assert(exits@.to_multiset().count(x) > 0);
                }
                assert(exits@.len() == exits@.to_multiset().len());
                assert(exits0.len() == exits0.to_multiset().len());
                assert(exits@.len() == curr.room.spec_entrances(dir).len());
            }
            let mut ei: usize = 0;
            while ei < exits.len()
                invariant
                    self.wf(),
                    self.width == old(self).width,
                    self.height == old(self).height,
                    self.rooms == old(self).rooms,
                    old(self).room_stack@.is_prefix_of(self.room_stack@),
                    old(self).prev_placed@.subset_of(self.prev_placed@),
                    self.prev_placed@.len() - old(self).prev_placed@.len()
                        == self.room_stack@.len() - old(self).room_stack@.len(),
                    placement_ok(*curr, self.width, self.height),
                    ei <= exits@.len(),
                    dir == cardinals@[di as int],
                    di < cardinals@.len(),
                    exits@.len() == curr.room.spec_entrances(dir).len(),
                    self.room_stack@.len() - old(self).room_stack@.len()
                        <= entrance_total(curr.room, cardinals@.take(di as int)) + ei,
                    forall|t: int| 0 <= t < exits@.len()
                        ==> curr.room.spec_is_entrance(dir, #[trigger] exits@[t]),
                    forall|x: i32| curr.room.spec_is_entrance(dir, x)
                        ==> #[trigger] exits@.contains(x),
                    forall|t: int| old(self).room_stack@.len() <= t < self.room_stack@.len()
                        ==> is_attachment(old(self).rooms@, *curr,
                            #[trigger] self.room_stack@[t])
                            && !old(self).prev_placed@.contains(rect_of(self.room_stack@[t])),
                    self.room_stack@.len() == old(self).room_stack@.len() ==> {
                        &&& self.room_stack == old(self).room_stack
                        &&& self.prev_placed == old(self).prev_placed
                        &&& forall|t: int, x: i32| #![auto]
                            0 <= t < di && curr.room.spec_is_entrance(cardinals@[t], x)
                                ==> !exit_accepts(old(self).rooms@, old(self).prev_placed@,
                                    old(self).width, old(self).height, *curr, cardinals@[t], x)
                        &&& forall|k: int| #![auto] 0 <= k < ei
                            ==> !exit_accepts(old(self).rooms@, old(self).prev_placed@,
                                old(self).width, old(self).height, *curr, dir, exits@[k])
                    },
                decreases exits@.len() - ei,
            {
                let exit = exits[ei];
                proof {
                    assert(curr.room.spec_is_entrance(dir, exit));
                    assert(exit_in_range(curr.room, dir, exit));
                }
                let ghost pre = *self;
                self.try_exit(curr, dir, exit);
                proof {
                    Self::lemma_prefix_subset_trans(old(self).room_stack@, pre.room_stack@,
                        self.room_stack@, old(self).prev_placed@, pre.prev_placed@,
                        self.prev_placed@);
                    if self.room_stack@.len() == pre.room_stack@.len() + 1 {
                        let p = self.room_stack@.last();
                        assert(accepted_at(pre.rooms@, pre.prev_placed@, pre.width, pre.height,
                            *curr, dir, exit, p));
                        let (i, e) = choose|i: int, e: i32| #![auto]
                            0 <= i < pre.rooms@.len()
                            && candidate_fits(pre.prev_placed@, pre.width, pre.height, *curr,
                                dir, exit, pre.rooms@[i], e)
                            && room_like(p.room, pre.rooms@[i])
                            && p.pos == attach_anchor(*curr, dir, exit, pre.rooms@[i], e);
                        assert(is_attachment(old(self).rooms@, *curr, p));
                        assert(old(self).prev_placed@.count(rect_of(p))
                            <= pre.prev_placed@.count(rect_of(p)));
                        assert forall|t: int|
                            old(self).room_stack@.len() <= t < self.room_stack@.len()
                            implies is_attachment(old(self).rooms@, *curr,
                                #[trigger] self.room_stack@[t])
                                && !old(self).prev_placed@.contains(
                                    rect_of(self.room_stack@[t])) by {
                            if t < self.room_stack@.len() - 1 {
                                assert(self.room_stack@[t] == pre.room_stack@[t]);
                            }
                        }
                    }
                }
                ei += 1;
            }
            proof {
                if self.room_stack@.len() == old(self).room_stack@.len() {
                    assert forall|x: i32| #![auto]
                        curr.room.spec_is_entrance(cardinals@[di as int], x)
                        implies !exit_accepts(old(self).rooms@, old(self).prev_placed@,
                            old(self).width, old(self).height, *curr, cardinals@[di as int],
                            x) by {
                        assert(exits@.contains(x));
                        let k = choose|k: int| 0 <= k < exits@.len() && exits@[k] == x;
                    }
                }
                assert(cardinals@.take(di as int + 1)
                    =~= cardinals@.take(di as int).push(cardinals@[di as int]));
                lemma_entrance_total_push(curr.room, cardinals@.take(di as int),
                    cardinals@[di as int]);
            }
            di += 1;
        }
        proof {
            if self.room_stack@.len() == old(self).room_stack@.len() {
                assert forall|d: Direction, x: i32| #![auto]
                    curr.room.spec_is_entrance(d, x)
                    implies !exit_accepts(old(self).rooms@, old(self).prev_placed@,
                        old(self).width, old(self).height, *curr, d, x) by {
                    assert(cardinals@.contains(d));
                    let t = choose|t: int| 0 <= t < cardinals@.len() && cardinals@[t] == d;
                }
            }
            assert(cardinals@.take(cardinals@.len() as int) =~= cardinals@);
            lemma_entrance_total_all(curr.room, cardinals@);
        }
    }

    /// Prefix and containment relations compose across one attachment step.
    proof fn lemma_prefix_subset_trans(
        a: Seq<RoomPlacement>,
        b: Seq<RoomPlacement>,
        c: Seq<RoomPlacement>,
        ma: Multiset<Rect>,
        mb: Multiset<Rect>,
        mc: Multiset<Rect>,
    )
        requires
            a.is_prefix_of(b),
            b.is_prefix_of(c),
            ma.subset_of(mb),
            mb.subset_of(mc),
        ensures
            a.is_prefix_of(c),
            ma.subset_of(mc),
    {
        assert(a =~= c.subrange(0, a.len() as int));
        assert forall|x: Rect| ma.count(x) <= mc.count(x) by {
            assert(ma.count(x) <= mb.count(x));
        }
    }

    /// Creates a new map generator over a `width` by `height` area, with one
    /// seed placement already centered, recorded and pending. The whole
    /// output sequence is a function of `rng`'s state and the bounds.
    pub fn new(width: u32, height: u32, rng: rand::rngs::StdRng) -> (g: MapGenerator)
        requires
            10 <= width <= MAX_MAP_BOUND,
            10 <= height <= MAX_MAP_BOUND,
        ensures
            g.wf(),
            g.spec_width() == width,
            g.spec_height() == height,
            g.stack().len() == 1,
            g.stack()[0].pos == (Point {
                x: ((width - 10) / 2) as i32,
                y: ((height - 10) / 2) as i32,
            }),
            g.stack()[0].room.width == 10,
            g.stack()[0].room.height == 10,
            room_has_grid(g.stack()[0].room, start_grid()),
            placement_ok(g.stack()[0], width, height),
            g.placed() == Multiset::<Rect>::empty().insert(rect_of(g.stack()[0])),
            g.catalog().len() == catalog_grids().len(),
            forall|k: int| 0 <= k < g.catalog().len() ==> (#[trigger] g.catalog()[k]).wf()
                && room_has_grid(g.catalog()[k], catalog_grids()[k]),
    {
        let first_room = Room::new(start_layout()).unwrap();
        let start_x = ((width - first_room.width) / 2) as i32;
        let start_y = ((height - first_room.height) / 2) as i32;
        let mut kd_tree = KDTree::default();
        let seed_rect = Rect {
            min: Point { x: start_x, y: start_y },
            max: Point {
                x: start_x + first_room.width as i32,
                y: start_y + first_room.height as i32,
            },
        };
        kd_tree.add_rect(seed_rect);
        let placement = first_room.place(Point { x: start_x, y: start_y });
        proof {
            lemma_room_like_wf(placement.room, first_room);
            assert(room_has_grid(first_room, start_grid()));
            assert forall|i: int| 0 <= i < placement.room.layout@.len()
                implies (#[trigger] placement.room.layout@[i])@ == start_grid()[i] by {
                assert(placement.room.layout@[i]@ == first_room.layout@[i]@);
            }
            assert(room_has_grid(placement.room, start_grid()));
        }
        let mut room_stack: Vec<RoomPlacement> = Vec::new();
        room_stack.push(placement);
        let rooms = build_catalog();
        let g = MapGenerator { width, height, room_stack, prev_placed: kd_tree, rng, rooms };
        proof {
            assert(rect_of(g.room_stack@[0]) == seed_rect);
            assert(g.prev_placed@ == Multiset::<Rect>::empty().insert(seed_rect));
            assert forall|x: Rect| #[trigger] g.prev_placed@.contains(x) implies x == seed_rect by {
                assert(Multiset::<Rect>::empty().count(x) == 0);
            }
            assert(rect_in_region(seed_rect, width, height));
            assert(pairwise_disjoint(g.prev_placed@)) by {
                assert forall|a: Rect| g.prev_placed@.count(a) >= 2 implies !a.spec_overlaps(a) by {
                    assert(Multiset::<Rect>::empty().count(a) == 0);
                    assert(g.prev_placed@.count(a) <= 1);
                }
            }
        }
        g
    }

    /// Pops the most recently accepted pending placement, grows the frontier
    /// from it, and yields it; reports end of sequence once the pending
    /// stack is empty (a terminal state: the generator never restarts).
    pub fn next(&mut self) -> (res: Option<RoomPlacement>)
        requires
            old(self).wf(),
        ensures
            final(self).wf(),
            final(self).spec_width() == old(self).spec_width(),
            final(self).spec_height() == old(self).spec_height(),
            old(self).stack().len() == 0 ==> res is None
                && final(self).stack() == old(self).stack()
                && final(self).placed() == old(self).placed(),
            final(self).catalog() == old(self).catalog(),
            old(self).stack().len() > 0 ==> {
                &&& res == Some(old(self).stack().last())
                &&& placement_ok(old(self).stack().last(), old(self).spec_width(),
                    old(self).spec_height())
                &&& old(self).stack().drop_last().is_prefix_of(final(self).stack())
                &&& old(self).placed().subset_of(final(self).placed())
                &&& final(self).placed().contains(rect_of(old(self).stack().last()))
                &&& final(self).placed().len() - old(self).placed().len()
                    == final(self).stack().len() - (old(self).stack().len() - 1)
                &&& forall|t: int| old(self).stack().len() - 1 <= t < final(self).stack().len()
                    ==> is_attachment(old(self).catalog(), old(self).stack().last(),
                        #[trigger] final(self).stack()[t])
                        && !old(self).placed().contains(rect_of(final(self).stack()[t]))
                &&& (exists|d: Direction, x: i32| #![auto]
                    old(self).stack().last().room.spec_is_entrance(d, x)
                    && exit_accepts(old(self).catalog(), old(self).placed(),
                        old(self).spec_width(), old(self).spec_height(),
                        old(self).stack().last(), d, x))
                    ==> final(self).stack().len() > old(self).stack().len() - 1
                &&& final(self).stack().len() - (old(self).stack().len() - 1)
                    <= old(self).stack().last().room.north@.len()
                        + old(self).stack().last().room.east@.len()
                        + old(self).stack().last().room.south@.len()
                        + old(self).stack().last().room.west@.len()
            },
    {
        let curr_room = match self.room_stack.pop() {
            Some(room) => room,
            // No rooms left, the search has terminated.
            None => {
                return None;
            },
        };
        proof {
            assert(self.room_stack@ =~= old(self).room_stack@.drop_last());
            Self::lemma_pop_wf(*old(self), *self);
            assert(placement_ok(curr_room, self.width, self.height));
        }
        let ghost popped = *self;
        self.next_placements(&curr_room);
        proof {
            assert(old(self).stack().drop_last().is_prefix_of(self.room_stack@));
            assert(self.prev_placed@.count(rect_of(curr_room))
                >= popped.prev_placed@.count(rect_of(curr_room)));
        }
        Some(curr_room)
    }

    /// Measure of the work a run can still perform. It is non-negative and
    /// strictly decreases at every yielding step (see
    /// [`MapGenerator::lemma_step_measure_decreases`]), so any run reaches
    /// end of sequence after finitely many steps.
    pub open spec fn step_measure(self) -> int {
        2 * (region_capacity(self.spec_width(), self.spec_height()) - self.placed().len())
            + self.stack().len()
    }

    /// A generator can record only boundedly many rectangles: recorded
    /// rectangles are pairwise disjoint and non-degenerate, so no two share
    /// a minimum corner, and every minimum corner is a lattice point of a
    /// finite box around the generation area.
    pub proof fn lemma_placed_bounded(self)
        requires
            self.wf(),
        ensures
            self.placed().len() <= region_capacity(self.spec_width(), self.spec_height()),
    {
        broadcast use vstd::multiset::group_multiset_axioms;

        let m = self.placed();
        let bw = self.spec_width() + 20;
        let bh = self.spec_height() + 20;
        self.lemma_placed_no_duplicates();
        Self::lemma_count_le_one_len(m);
        let f = |r: Rect| r.min.x + r.min.y * bw;
        assert forall|a: Rect, b: Rect|
            m.dom().contains(a) && m.dom().contains(b) && #[trigger] f(a) == #[trigger] f(b)
            implies a == b by {
            assert(m.contains(a) && m.contains(b));
            assert(rect_in_region(a, self.spec_width(), self.spec_height()));
            assert(rect_in_region(b, self.spec_width(), self.spec_height()));
            let dxa = a.min.x as int;
            let dya = a.min.y as int;
            let dxb = b.min.x as int;
            let dyb = b.min.y as int;
            assert(dxa == dxb && dya == dyb) by (nonlinear_arith)
                requires
                    dxa + dya * bw == dxb + dyb * bw,
                    0 <= dxa < bw,
                    0 <= dxb < bw,
            {
            }
            assert(a.min == b.min);
            if a != b {
                assert(!a.spec_overlaps(b));
                assert(a.spec_overlaps(b));
            }
        }
        assert(vstd::relations::injective_on(f, m.dom()));
        let image = m.dom().map(f);
        vstd::set_lib::lemma_map_size(m.dom(), image, f);
        assert(0 < bw * bh && (bh - 1) * bw + bw == bh * bw) by (nonlinear_arith)
            requires
                0 < bw,
                0 < bh,
        {
        }
        assert forall|idx: int| #[trigger] image.contains(idx) implies 0 <= idx < bw * bh by {
            let r = choose|r: Rect| m.dom().contains(r) && idx == f(r);
            assert(m.contains(r));
            assert(rect_in_region(r, self.spec_width(), self.spec_height()));
            let dx = r.min.x as int;
            let dy = r.min.y as int;
            assert(0 <= dx + dy * bw < bw * bh) by (nonlinear_arith)
                requires
                    0 <= dx < bw,
                    0 <= dy < bh,
                    (bh - 1) * bw + bw == bh * bw,
            {
            }
        }
        vstd::set_lib::lemma_int_range(0, bw * bh);
        assert(image.subset_of(vstd::set_lib::set_int_range(0, bw * bh)));
        vstd::set_lib::lemma_len_subset(image, vstd::set_lib::set_int_range(0, bw * bh));
    }

    /// A multiset in which no rectangle occurs twice has exactly one
    /// element per point of its domain.
    proof fn lemma_count_le_one_len(m: Multiset<Rect>)
        requires
            forall|x: Rect| #[trigger] m.count(x) <= 1,
        ensures
            m.dom().finite(),
            m.len() == m.dom().len(),
        decreases m.len(),
    {
        broadcast use vstd::multiset::group_multiset_axioms;
        broadcast use vstd::multiset::group_multiset_properties;

        if m.len() == 0 {
            assert(m =~= Multiset::<Rect>::empty());
            assert(m.dom() =~= Set::<Rect>::empty());
        } else {
            let v = m.choose();
            assert(m.count(v) > 0);
            let m2 = m.remove(v);
            assert forall|x: Rect| #[trigger] m2.count(x) <= 1 by {
                assert(m.count(x) <= 1);
            }
            assert(m2.insert(v) =~= m);
            assert(m.len() == m2.len() + 1);
            Self::lemma_count_le_one_len(m2);
            assert(m.dom() =~= m2.dom().insert(v));
            assert(!m2.dom().contains(v));
            assert(m.dom().len() == m2.dom().len() + 1);
        }
    }

    /// A multiset contained in another is no longer than it.
    proof fn lemma_subset_len(m1: Multiset<Rect>, m2: Multiset<Rect>)
        requires
            m1.subset_of(m2),
        ensures
            m1.len() <= m2.len(),
    {
        broadcast use vstd::multiset::group_multiset_axioms;

        let d = m2.sub(m1);
        assert(m1.add(d) =~= m2);
        assert(m2.len() == m1.len() + d.len());
    }

    /// Termination: each yielding step strictly decreases the non-negative
    /// step measure — the step pops one pending placement and records one
    /// new rectangle per placement it pushes, and only boundedly many
    /// rectangles fit. The requirements below are exactly what
    /// [`MapGenerator::next`] ensures of a step that yielded a placement.
    pub proof fn lemma_step_measure_decreases(pre: Self, post: Self)
        requires
            pre.wf(),
            post.wf(),
            pre.stack().len() > 0,
            post.spec_width() == pre.spec_width(),
            post.spec_height() == pre.spec_height(),
            pre.placed().subset_of(post.placed()),
            post.placed().len() - pre.placed().len()
                == post.stack().len() - (pre.stack().len() - 1),
        ensures
            0 <= post.step_measure(),
            post.step_measure() < pre.step_measure(),
    {
        Self::lemma_subset_len(pre.placed(), post.placed());
        post.lemma_placed_bounded();
    }

    /// Popping the pending stack preserves the generator invariant.
    proof fn lemma_pop_wf(pre: Self, post: Self)
        requires
            pre.wf(),
            pre.room_stack@.len() > 0,
            post.width == pre.width,
            post.height == pre.height,
            post.rooms == pre.rooms,
            post.prev_placed == pre.prev_placed,
            post.room_stack@ == pre.room_stack@.drop_last(),
        ensures
            post.wf(),
    {
        assert forall|i: int| 0 <= i < post.room_stack@.len()
            implies placement_ok(#[trigger] post.room_stack@[i], post.width, post.height) by {
            assert(post.room_stack@[i] == pre.room_stack@[i]);
        }
        assert forall|i: int| 0 <= i < post.room_stack@.len()
            implies post.prev_placed@.contains(rect_of(#[trigger] post.room_stack@[i])) by {
            assert(post.room_stack@[i] == pre.room_stack@[i]);
        }
        assert forall|i: int, j: int| 0 <= i < j < post.room_stack@.len()
            implies rect_of(#[trigger] post.room_stack@[i])
                != rect_of(#[trigger] post.room_stack@[j]) by {
            assert(post.room_stack@[i] == pre.room_stack@[i]);
            assert(post.room_stack@[j] == pre.room_stack@[j]);
        }
    }

    /// An owned copy of the doorway offsets of `curr`'s room on side `d`.
    fn exits_of(curr: &RoomPlacement, d: Direction) -> (v: Vec<i32>)
        requires
            curr.room.wf(),
        ensures
            v@ == curr.room.spec_entrances(d),
    {
        let list = match d {
            Direction::North => &curr.room.north,
            Direction::East => &curr.room.east,
            Direction::South => &curr.room.south,
            Direction::West => &curr.room.west,
        };
        copy_offsets(list)
    }
}

} // verus!
