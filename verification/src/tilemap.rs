//! Grids of tiles in layers, addressed by world tile coordinates.
//!
//! A tile is the caller's type `T` (its texture and texture rectangle); the
//! grid decides which cell a coordinate names and whether it is on the map.
use vstd::prelude::*;

verus! {

/// One layer of tiles, row by row.
#[derive(Debug)]
pub struct TilemapLayer<T> {
    pub name: String,
    pub tiles: Vec<T>,
    pub visible: bool,
}

/// The cell `(x, y)` of a grid `width` cells wide.
pub open spec fn cell_index(x: u32, y: u32, width: u32) -> int {
    y * width + x
}

impl<T: Clone> TilemapLayer<T> {
    /// A shown layer of `width * height` copies of `empty`.
    pub fn new(name: String, width: u32, height: u32, empty: T) -> (r: Self)
        requires
            width * height <= u32::MAX,
        ensures
            r.name@ == name@,
            r.visible,
            r.tiles@.len() == width * height,
            forall|i: int| 0 <= i < r.tiles@.len() ==> cloned(empty, #[trigger] r.tiles@[i]),
    {
        let n: u32 = width * height;
        let mut tiles: Vec<T> = Vec::new();
        let mut i: u32 = 0;
        while i < n
            invariant
                i <= n,
                tiles@.len() == i,
                forall|k: int| 0 <= k < i ==> cloned(empty, #[trigger] tiles@[k]),
            decreases n - i,
        {
            tiles.push(empty.clone());
            i = i + 1;
        }
        TilemapLayer { name, tiles, visible: true }
    }

    /// Puts `tile` at `(x, y)`, when that cell exists.
    pub fn set_tile(&mut self, x: u32, y: u32, width: u32, tile: T)
        requires
            cell_index(x, y, width) <= u32::MAX,
        ensures
            final(self).name == old(self).name,
            final(self).visible == old(self).visible,
            final(self).tiles@ == (if cell_index(x, y, width) < old(self).tiles@.len() {
                old(self).tiles@.update(cell_index(x, y, width), tile)
            } else {
                old(self).tiles@
            }),
    {
        let index = (y * width + x) as usize;
        if index < self.tiles.len() {
            self.tiles.set(index, tile);
        }
    }

    /// The tile at `(x, y)`, when that cell exists.
    pub fn get_tile(&self, x: u32, y: u32, width: u32) -> (r: Option<&T>)
        requires
            cell_index(x, y, width) <= u32::MAX,
        ensures
            match r {
                Some(t) => cell_index(x, y, width) < self.tiles@.len() && *t == self.tiles@[cell_index(x, y, width)],
                None => cell_index(x, y, width) >= self.tiles@.len(),
            },
    {
        let index = (y * width + x) as usize;
        if index < self.tiles.len() {
            Some(&self.tiles[index])
        } else {
            None
        }
    }
}

/// A map of `width` by `height` tiles; world tile `(offset.0, offset.1)` is
/// its first cell.
#[derive(Debug)]
pub struct Tilemap<T> {
    pub width: u32,
    pub height: u32,
    pub tile_size: (usize, usize),
    pub offset: (i32, i32),
    pub layers: Vec<TilemapLayer<T>>,
}

/// The column (or row) a world coordinate names on the map, as an unsigned
/// number: coordinates before the map wrap to large numbers, which are off
/// the map.
pub open spec fn map_cell(world: i32, offset: i32) -> u32 {
    let d = world - offset;
    if d >= 0 {
        d as u32
    } else {
        (d + 0x1_0000_0000) as u32
    }
}

fn cell_of(world: i32, offset: i32) -> (r: u32)
    requires
        i32::MIN <= world - offset <= i32::MAX,
    ensures
        r == map_cell(world, offset),
{
    let d: i32 = world - offset;
    if d >= 0 {
        d as u32
    } else {
        (d as i64 + 0x1_0000_0000i64) as u32
    }
}

/// The offset that centres a side of `side` tiles: minus half of the side
/// read as an `i32` (which wraps sides of 2^31 and more to negative
/// numbers), halved towards zero.
pub open spec fn centre_offset(side: u32) -> i32 {
    if side < 0x8000_0000 {
        (-((side / 2) as int)) as i32
    } else {
        ((0x1_0000_0000 - side) / 2) as i32
    }
}

fn offset_for(side: u32) -> (r: i32)
    requires
        side != 0x8000_0000,
    ensures
        r == centre_offset(side),
{
    if side < 0x8000_0000 {
        let half: u32 = side / 2;
        -(half as i32)
    } else {
        let d: u64 = 0x1_0000_0000u64 - side as u64;
        (d / 2) as i32
    }
}

/// Whether `(world_x, world_y)` is on the map.
pub open spec fn on_map<T>(m: &Tilemap<T>, world_x: i32, world_y: i32) -> bool {
    map_cell(world_x, m.offset.0) < m.width && map_cell(world_y, m.offset.1) < m.height
}

impl<T: Clone> Tilemap<T> {
    /// A map with no layers whose centre is world tile `(0, 0)`. A side of
    /// 2^31 tiles or more is taken as the negative `i32` it wraps to, so its
    /// offset is positive; a side of exactly 2^31 has no offset (its negation
    /// overflows).
    pub fn centered(width: u32, height: u32, tile_size: (usize, usize)) -> (r: Self)
        requires
            width != 0x8000_0000,
            height != 0x8000_0000,
        ensures
            r.width == width,
            r.height == height,
            r.tile_size == tile_size,
            r.offset == (centre_offset(width), centre_offset(height)),
            r.layers@.len() == 0,
    {
        let ox: i32 = offset_for(width);
        let oy: i32 = offset_for(height);
        Tilemap { width, height, tile_size, offset: (ox, oy), layers: Vec::new() }
    }

    pub fn add_layer(&mut self, layer: TilemapLayer<T>)
        ensures
            final(self).layers@ == old(self).layers@.push(layer),
            final(self).width == old(self).width,
            final(self).height == old(self).height,
            final(self).offset == old(self).offset,
            final(self).tile_size == old(self).tile_size,
    {
        self.layers.push(layer);
    }

    /// Puts a copy of `tile` at world tile `(world_x, world_y)` in every
    /// layer, when that tile is on the map (and the layer has its cell).
    pub fn set_tile(&mut self, world_x: i32, world_y: i32, tile: T)
        requires
            i32::MIN <= world_x - old(self).offset.0 <= i32::MAX,
            i32::MIN <= world_y - old(self).offset.1 <= i32::MAX,
            on_map(old(self), world_x, world_y) ==> cell_index(
                map_cell(world_x, old(self).offset.0),
                map_cell(world_y, old(self).offset.1),
                old(self).width,
            ) <= u32::MAX,
        ensures
            final(self).width == old(self).width,
            final(self).height == old(self).height,
            final(self).offset == old(self).offset,
            final(self).tile_size == old(self).tile_size,
            final(self).layers@.len() == old(self).layers@.len(),
            ({
                let i = cell_index(map_cell(world_x, old(self).offset.0), map_cell(world_y, old(self).offset.1), old(self).width);
                forall|l: int| 0 <= l < old(self).layers@.len() ==> {
                    let before = old(self).layers@[l];
                    let after = #[trigger] final(self).layers@[l];
                    &&& after.name == before.name
                    &&& after.visible == before.visible
                    &&& after.tiles@.len() == before.tiles@.len()
                    &&& forall|k: int| 0 <= k < before.tiles@.len() && (k != i || !on_map(old(self), world_x, world_y))
                        ==> #[trigger] after.tiles@[k] == before.tiles@[k]
                    &&& on_map(old(self), world_x, world_y) && 0 <= i < before.tiles@.len() ==> cloned(tile, after.tiles@[i])
                }
            }),
    {
        let x = cell_of(world_x, self.offset.0);
        let y = cell_of(world_y, self.offset.1);
        if x < self.width && y < self.height {
            let width = self.width;
            let ghost old_layers = self.layers@;
            let mut l: usize = 0;
            while l < self.layers.len()
                invariant
                    self.width == width,
                    self.width == old(self).width,
                    self.height == old(self).height,
                    self.offset == old(self).offset,
                    self.tile_size == old(self).tile_size,
                    old_layers == old(self).layers@,
                    self.layers@.len() == old_layers.len(),
                    x == map_cell(world_x, old(self).offset.0),
                    y == map_cell(world_y, old(self).offset.1),
                    on_map(old(self), world_x, world_y),
                    cell_index(x, y, width) <= u32::MAX,
                    l <= self.layers@.len(),
                    forall|j: int| l <= j < self.layers@.len() ==> #[trigger] self.layers@[j] == old_layers[j],
                    forall|j: int| 0 <= j < l ==> {
                        let before = old_layers[j];
                        let after = #[trigger] self.layers@[j];
                        &&& after.name == before.name
                        &&& after.visible == before.visible
                        &&& after.tiles@.len() == before.tiles@.len()
                        &&& forall|k: int| 0 <= k < before.tiles@.len() && k != cell_index(x, y, width)
                            ==> #[trigger] after.tiles@[k] == before.tiles@[k]
                        &&& 0 <= cell_index(x, y, width) < before.tiles@.len() ==> cloned(tile, after.tiles@[cell_index(x, y, width)])
                    },
                decreases self.layers@.len() - l,
            {
                let copy = tile.clone();
                let ghost pre = self.layers@;
                let mut layer = self.layers.remove(l);
                layer.set_tile(x, y, width, copy);
                self.layers.insert(l, layer);
                proof {
                    assert forall|j: int| 0 <= j < self.layers@.len() && j != l implies #[trigger] self.layers@[j] == pre[j] by {}
                }
                l = l + 1;
            }
        }
    }

    /// The tile at world tile `(world_x, world_y)` in the first layer, when
    /// that tile is on the map and the layer has its cell.
    pub fn get_tile(&self, world_x: i32, world_y: i32) -> (r: Option<&T>)
        requires
            i32::MIN <= world_x - self.offset.0 <= i32::MAX,
            i32::MIN <= world_y - self.offset.1 <= i32::MAX,
            on_map(self, world_x, world_y) ==> cell_index(map_cell(world_x, self.offset.0), map_cell(world_y, self.offset.1), self.width)
                <= u32::MAX,
        ensures
            ({
                let i = cell_index(map_cell(world_x, self.offset.0), map_cell(world_y, self.offset.1), self.width);
                match r {
                    Some(t) => on_map(self, world_x, world_y) && self.layers@.len() > 0 && 0 <= i < self.layers@[0].tiles@.len()
                        && *t == self.layers@[0].tiles@[i],
                    None => !on_map(self, world_x, world_y) || self.layers@.len() == 0 || i >= self.layers@[0].tiles@.len(),
                }
            }),
    {
        let x = cell_of(world_x, self.offset.0);
        let y = cell_of(world_y, self.offset.1);
        if x < self.width && y < self.height {
            if self.layers.len() == 0 {
                return None;
            }
            self.layers[0].get_tile(x, y, self.width)
        } else {
            None
        }
    }
}

} // verus!
