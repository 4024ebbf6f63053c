//! The world: an ordered grid of chunks covering a rectangular area, the list
//! of connected clients, and, per chunk, the set of client identifiers that
//! currently have that chunk loaded.

use vstd::prelude::*;
use vstd::arithmetic::div_mod::{
    lemma_fundamental_div_mod, lemma_fundamental_div_mod_converse_div,
    lemma_fundamental_div_mod_converse_mod, lemma_div_pos_is_pos, lemma_mod_bound,
};
use crate::block::Block;
use crate::chunk::Chunk;
use rayon::iter::{IntoParallelIterator, IntoParallelRefMutIterator, ParallelIterator};

verus! {

/// A connected client as the world sees it: a stable unique identifier. The
/// session layer owns the real connection; the world only compares ids.
#[derive(Debug, Copy, Clone, PartialEq, Eq, Structural)]
pub struct ClientConnection {
    pub id: u32,
}

/// Everything that can go wrong inside the world core. Each fallible
/// operation reports exactly one of these; no error is recovered locally.
#[derive(Debug, Clone, PartialEq, Eq, Structural)]
pub enum WorldError {
    /// World dimensions not divisible by the chunk size; construction only.
    MismatchedChunkSize,
    /// A chunk or cell coordinate outside the valid range.
    OutOfBounds(u32, u32),
    /// Reserved for a caller-side placement policy; no operation raises it.
    PlaceOutOfLoadedChunk,
    /// A duplicate subscription attempt for the same chunk and client.
    ChunkAlreadyLoaded,
    /// Reserved; unsubscribing an absent id is a silent no-op, not an error.
    ChunkAlreadyUnloaded,
}

/// The authoritative world state. `chunks` is row-major in chunk-grid space:
/// the chunk at chunk coordinates (x, y) sits at index
/// `y * width_chunks + x`. `player_loaded` is a parallel sequence with the
/// same indexing, holding per chunk the ids of the clients that loaded it.
#[derive(Debug)]
pub struct World {
    pub width: u32,
    pub height: u32,
    pub chunk_size: u32,
    pub chunks: Vec<Chunk>,
    pub width_chunks: u32,
    pub height_chunks: u32,
    pub players: Vec<ClientConnection>,
    pub player_loaded: Vec<Vec<u32>>,
}

impl World {
    /// Number of chunk columns.
    pub open spec fn spec_width_chunks(self) -> int {
        self.width as int / self.chunk_size as int
    }

    /// Number of chunk rows.
    pub open spec fn spec_height_chunks(self) -> int {
        self.height as int / self.chunk_size as int
    }

    /// Valid chunk coordinates.
    pub open spec fn chunk_in_bounds(self, chunk_x: int, chunk_y: int) -> bool {
        &&& 0 <= chunk_x < self.spec_width_chunks()
        &&& 0 <= chunk_y < self.spec_height_chunks()
    }

    /// Valid cell coordinates: either axis out of range rejects the position.
    pub open spec fn cell_in_bounds(self, x: int, y: int) -> bool {
        &&& 0 <= x < self.width
        &&& 0 <= y < self.height
    }

    /// Row-major index of the chunk at chunk coordinates (chunk_x, chunk_y).
    pub open spec fn spec_chunk_index(self, chunk_x: int, chunk_y: int) -> int {
        chunk_y * self.spec_width_chunks() + chunk_x
    }

    /// The block stored at world cell (x, y): the cell's chunk is found by
    /// integer division, the slot inside it by the remainders.
    pub open spec fn spec_block_at(self, x: int, y: int) -> Block {
        let cs = self.chunk_size as int;
        self.chunks@[self.spec_chunk_index(x / cs, y / cs)].spec_block_at(x % cs, y % cs)
    }

    /// The ids of the clients that currently have chunk `i` (row-major
    /// index) loaded.
    pub open spec fn subscribers(self, i: int) -> Seq<u32> {
        self.player_loaded@[i]@
    }

    /// The world's structural invariant: the chunk size divides both
    /// dimensions, the cached chunk counts match, every chunk sits at its
    /// row-major position with the right side length, and each chunk has one
    /// duplicate-free subscriber list. The total cell count staying within
    /// `u32` bounds keeps every index computation exact.
    pub open spec fn wf(self) -> bool {
        &&& self.chunk_size >= 1
        &&& self.width % self.chunk_size == 0
        &&& self.height % self.chunk_size == 0
        &&& self.width * self.height <= u32::MAX
        &&& self.width_chunks == self.width / self.chunk_size
        &&& self.height_chunks == self.height / self.chunk_size
        &&& self.chunks@.len() == self.spec_width_chunks() * self.spec_height_chunks()
        &&& self.player_loaded@.len() == self.chunks@.len()
        &&& forall|i: int| 0 <= i < self.chunks@.len() ==> (#[trigger] self.chunks@[i]).is_at(
            self.chunk_size,
            i % self.spec_width_chunks(),
            i / self.spec_width_chunks(),
        )
        &&& forall|i: int| 0 <= i < self.player_loaded@.len()
            ==> (#[trigger] self.player_loaded@[i]@).no_duplicates()
    }

    /// In a well-formed world, valid chunk coordinates give a row-major index
    /// inside `chunks`, and that index decodes back to the same coordinates.
    pub proof fn lemma_chunk_index_in_bounds(self, chunk_x: int, chunk_y: int)
        requires
            self.wf(),
            self.chunk_in_bounds(chunk_x, chunk_y),
        ensures
            0 <= self.spec_chunk_index(chunk_x, chunk_y) < self.chunks@.len(),
            self.spec_chunk_index(chunk_x, chunk_y) <= u32::MAX,
            self.spec_chunk_index(chunk_x, chunk_y) % self.spec_width_chunks() == chunk_x,
            self.spec_chunk_index(chunk_x, chunk_y) / self.spec_width_chunks() == chunk_y,
    {
        let cs = self.chunk_size as int;
        let wc = self.spec_width_chunks();
        let hc = self.spec_height_chunks();
        assert(chunk_y * wc + chunk_x < wc * hc) by (nonlinear_arith)
            requires
                0 <= chunk_x < wc,
                0 <= chunk_y < hc,
        ;
        assert(0 <= chunk_y * wc + chunk_x) by (nonlinear_arith)
            requires
                0 <= chunk_x,
                0 <= chunk_y,
                wc >= 1,
        ;
        self.lemma_grid_fits();
        lemma_fundamental_div_mod_converse_mod(chunk_y * wc + chunk_x, wc, chunk_y, chunk_x);
        lemma_fundamental_div_mod_converse_div(chunk_y * wc + chunk_x, wc, chunk_y, chunk_x);
    }

    /// In a well-formed world the chunk-grid area is no larger than the cell
    /// area, so chunk counts and row-major chunk indices fit in `u32`.
    pub proof fn lemma_grid_fits(self)
        requires
            self.wf(),
        ensures
            0 <= self.spec_width_chunks() * self.spec_height_chunks() <= u32::MAX,
            self.spec_width_chunks() >= 1 && self.spec_height_chunks() >= 1
                ==> self.chunk_size * self.chunk_size <= u32::MAX,
    {
        lemma_grid_area_fits(self.width, self.height, self.chunk_size);
    }

    /// Reject chunk coordinates at or past the last valid chunk row/column.
    fn check_out_of_bounds_chunk(&self, chunk_x: u32, chunk_y: u32) -> (r: Result<
        (),
        WorldError,
    >)
        requires
            self.wf(),
        ensures
            r is Ok <==> self.chunk_in_bounds(chunk_x as int, chunk_y as int),
            r matches Err(e) ==> e == WorldError::OutOfBounds(chunk_x, chunk_y),
    {
        if chunk_x >= self.width_chunks || chunk_y >= self.height_chunks {
            Err(WorldError::OutOfBounds(chunk_x, chunk_y))
        } else {
            Ok(())
        }
    }

    /// Reject a cell position when either axis is out of range.
    fn check_out_of_bounds_block(&self, x: u32, y: u32) -> (r: Result<(), WorldError>)
        requires
            self.wf(),
        ensures
            r is Ok <==> self.cell_in_bounds(x as int, y as int),
            r matches Err(e) ==> e == WorldError::OutOfBounds(x, y),
    {
        if x >= self.width || y >= self.height {
            Err(WorldError::OutOfBounds(x, y))
        } else {
            Ok(())
        }
    }

    /// Shared access to the chunk at chunk coordinates (chunk_x, chunk_y).
    pub fn get_chunk(&self, chunk_x: u32, chunk_y: u32) -> (r: Result<&Chunk, WorldError>)
        requires
            self.wf(),
        ensures
            r is Ok <==> self.chunk_in_bounds(chunk_x as int, chunk_y as int),
            r matches Ok(c) ==> *c == self.chunks@[self.spec_chunk_index(
                chunk_x as int,
                chunk_y as int,
            )],
            r matches Err(e) ==> e == WorldError::OutOfBounds(chunk_x, chunk_y),
    {
        match self.check_out_of_bounds_chunk(chunk_x, chunk_y) {
            Err(e) => Err(e),
            Ok(()) => {
                proof {
                    self.lemma_chunk_index_in_bounds(chunk_x as int, chunk_y as int);
                }
                let idx: usize = (chunk_y * self.width_chunks + chunk_x) as usize;
                Ok(&self.chunks[idx])
            },
        }
    }

    /// The chunk coordinates of the chunk that world cell (pos_x, pos_y)
    /// belongs to.
    pub fn get_chunk_block_is_in(&self, pos_x: u32, pos_y: u32) -> (r: Result<
        (u32, u32),
        WorldError,
    >)
        requires
            self.wf(),
        ensures
            r is Ok <==> self.cell_in_bounds(pos_x as int, pos_y as int),
            r matches Ok(p) ==> p.0 == pos_x as int / self.chunk_size as int && p.1
                == pos_y as int / self.chunk_size as int,
            r matches Err(e) ==> e == WorldError::OutOfBounds(pos_x, pos_y),
    {
        match self.check_out_of_bounds_block(pos_x, pos_y) {
            Err(e) => Err(e),
            Ok(()) => {
                let chunk_x = pos_x / self.chunk_size;
                let chunk_y = pos_y / self.chunk_size;
                Ok((chunk_x, chunk_y))
            },
        }
    }

    /// Per-tick extension point for future simulation; currently a no-op
    /// that leaves the world exactly as it was.
    pub fn tick(&mut self)
        ensures
            *final(self) == *old(self),
    {
    }
}

/// The subscriber entries that survive removing `id`.
pub open spec fn keeps(id: u32) -> spec_fn(u32) -> bool {
    |c: u32| c != id
}

/// `player` is the first entry of `players` whose id equals `id`.
pub open spec fn is_first_match(
    players: Seq<ClientConnection>,
    id: u32,
    player: ClientConnection,
) -> bool {
    exists|j: int|
        0 <= j < players.len() && players[j] == player && player.id == id && (forall|k: int|
            0 <= k < j ==> players[k].id != id)
}

/// True iff `id` occurs in `list`.
fn contains_id(list: &Vec<u32>, id: u32) -> (r: bool)
    ensures
        r == list@.contains(id),
{
    let mut i: usize = 0;
    while i < list.len()
        invariant
            i <= list@.len(),
            forall|k: int| 0 <= k < i ==> list@[k] != id,
        decreases list@.len() - i,
    {
        if list[i] == id {
            assert(list@[i as int] == id);
            return true;
        }
        i = i + 1;
    }
    false
}

/// The position of the first entry of `players` with the given id, if any.
fn find_player_index(players: &Vec<ClientConnection>, id: u32) -> (r: Option<usize>)
    ensures
        match r {
            Some(j) => j < players@.len() && players@[j as int].id == id && (forall|k: int|
                0 <= k < j ==> players@[k].id != id),
            None => forall|k: int| 0 <= k < players@.len() ==> players@[k].id != id,
        },
{
    let mut i: usize = 0;
    while i < players.len()
        invariant
            i <= players@.len(),
            forall|k: int| 0 <= k < i ==> players@[k].id != id,
        decreases players@.len() - i,
    {
        if players[i].id == id {
            return Some(i);
        }
        i = i + 1;
    }
    None
}

/// Remove every occurrence of `id` from `list`, keeping the order of the
/// remaining entries.
fn remove_id(list: &mut Vec<u32>, id: u32)
    ensures
        final(list)@ == old(list)@.filter(keeps(id)),
{
    broadcast use vstd::seq_lib::group_filter_ensures;

    let mut kept: Vec<u32> = Vec::new();
    let mut i: usize = 0;
    while i < list.len()
        invariant
            i <= list@.len(),
            list@ == old(list)@,
            kept@ == list@.take(i as int).filter(keeps(id)),
        decreases list@.len() - i,
    {
        let v = list[i];
        proof {
            assert(list@.take(i + 1) =~= list@.take(i as int).push(v));
            list@.take(i as int).lemma_filter_push(v, keeps(id));
        }
        if v != id {
            kept.push(v);
        }
        i = i + 1;
    }
    proof {
        assert(list@.take(list@.len() as int) =~= list@);
    }
    *list = kept;
}

/// Appending a value that is not yet present keeps a sequence
/// duplicate-free.
proof fn lemma_push_no_duplicates(s: Seq<u32>, v: u32)
    requires
        s.no_duplicates(),
        !s.contains(v),
    ensures
        s.push(v).no_duplicates(),
{
    assert forall|a: int, b: int|
        (0 <= a < s.push(v).len() && 0 <= b < s.push(v).len() && a != b) implies s.push(v)[a]
        != s.push(v)[b] by {
        if a < s.len() && s[a] == v {
            assert(s.contains(v));
        }
        if b < s.len() && s[b] == v {
            assert(s.contains(v));
        }
    }
}

/// Every element of a filtered sequence occurs in the sequence it was
/// filtered from.
proof fn lemma_filter_element_from_source(s: Seq<u32>, pred: spec_fn(u32) -> bool, i: int)
    requires
        0 <= i < s.filter(pred).len(),
    ensures
        s.contains(s.filter(pred)[i]),
    decreases s.len(),
{
    reveal(Seq::filter);
    if s.len() > 0 {
        let sub = s.drop_last();
        if pred(s.last()) && i == s.filter(pred).len() - 1 {
            assert(s.filter(pred)[i] == s.last());
            assert(s[s.len() - 1] == s.last());
        } else {
            assert(s.filter(pred)[i] == sub.filter(pred)[i]);
            lemma_filter_element_from_source(sub, pred, i);
            let j = choose|j: int| 0 <= j < sub.len() && sub[j] == sub.filter(pred)[i];
            assert(s[j] == sub.filter(pred)[i]);
        }
    }
}

/// Filtering keeps a duplicate-free sequence duplicate-free.
proof fn lemma_filter_keeps_no_duplicates(s: Seq<u32>, pred: spec_fn(u32) -> bool)
    requires
        s.no_duplicates(),
    ensures
        s.filter(pred).no_duplicates(),
    decreases s.len(),
{
    reveal(Seq::filter);
    if s.len() > 0 {
        let sub = s.drop_last();
        assert(sub.no_duplicates());
        lemma_filter_keeps_no_duplicates(sub, pred);
        if pred(s.last()) {
            assert forall|a: int| 0 <= a < sub.filter(pred).len() implies sub.filter(pred)[a]
                != s.last() by {
                lemma_filter_element_from_source(sub, pred, a);
                let j = choose|j: int| 0 <= j < sub.len() && sub[j] == sub.filter(pred)[a];
                assert(s[j] == sub.filter(pred)[a]);
            }
            assert(!sub.filter(pred).contains(s.last()));
            lemma_push_no_duplicates(sub.filter(pred), s.last());
        }
    }
}

impl World {
    /// A valid cell decomposes into a valid chunk coordinate pair and a valid
    /// row-major slot inside that chunk.
    pub proof fn lemma_cell_decomposition(self, x: int, y: int)
        requires
            self.wf(),
            self.cell_in_bounds(x, y),
        ensures
            self.chunk_in_bounds(x / (self.chunk_size as int), y / (self.chunk_size as int)),
            0 <= x % (self.chunk_size as int) < (self.chunk_size as int),
            0 <= y % (self.chunk_size as int) < (self.chunk_size as int),
            0 <= (y % (self.chunk_size as int)) * (self.chunk_size as int) + (
            x % (self.chunk_size as int)) < (self.chunk_size as int) * (self.chunk_size as int),
            self.chunk_size * (x / (self.chunk_size as int)) + x % (self.chunk_size as int) == x,
            self.chunk_size * (y / (self.chunk_size as int)) + y % (self.chunk_size as int) == y,
    {
        let cs = self.chunk_size as int;
        let wc = self.spec_width_chunks();
        let hc = self.spec_height_chunks();
        lemma_mod_bound(x, cs);
        lemma_mod_bound(y, cs);
        lemma_div_pos_is_pos(x, cs);
        lemma_div_pos_is_pos(y, cs);
        lemma_fundamental_div_mod(x, cs);
        lemma_fundamental_div_mod(y, cs);
        lemma_fundamental_div_mod(self.width as int, cs);
        lemma_fundamental_div_mod(self.height as int, cs);
        assert(x / cs < wc) by {
            if x / cs >= wc {
                assert(cs * (x / cs) >= cs * wc) by (nonlinear_arith)
                    requires
                        cs >= 1,
                        x / cs >= wc,
                ;
            }
        }
        assert(y / cs < hc) by {
            if y / cs >= hc {
                assert(cs * (y / cs) >= cs * hc) by (nonlinear_arith)
                    requires
                        cs >= 1,
                        y / cs >= hc,
                ;
            }
        }
        assert((y % cs) * cs + (x % cs) < cs * cs) by (nonlinear_arith)
            requires
                0 <= x % cs < cs,
                0 <= y % cs < cs,
        ;
        assert(0 <= (y % cs) * cs + (x % cs)) by (nonlinear_arith)
            requires
                0 <= x % cs,
                0 <= y % cs,
                cs >= 1,
        ;
    }

    /// Two valid cells that resolve to the same chunk index and the same slot
    /// inside it are the same cell.
    pub proof fn lemma_cell_unique(self, x: int, y: int, a: int, b: int)
        requires
            self.wf(),
            self.cell_in_bounds(x, y),
            self.cell_in_bounds(a, b),
            self.spec_chunk_index(a / (self.chunk_size as int), b / (self.chunk_size as int))
                == self.spec_chunk_index(
                x / (self.chunk_size as int),
                y / (self.chunk_size as int),
            ),
            (b % (self.chunk_size as int)) * (self.chunk_size as int) + (
            a % (self.chunk_size as int)) == (y % (self.chunk_size as int)) * (
            self.chunk_size as int) + (x % (self.chunk_size as int)),
        ensures
            a == x,
            b == y,
    {
        let cs = self.chunk_size as int;
        let wc = self.spec_width_chunks();
        self.lemma_cell_decomposition(x, y);
        self.lemma_cell_decomposition(a, b);
        lemma_fundamental_div_mod_converse_mod(
            (b / cs) * wc + (a / cs),
            wc,
            b / cs,
            a / cs,
        );
        lemma_fundamental_div_mod_converse_mod(
            (y / cs) * wc + (x / cs),
            wc,
            y / cs,
            x / cs,
        );
        lemma_fundamental_div_mod_converse_div(
            (b / cs) * wc + (a / cs),
            wc,
            b / cs,
            a / cs,
        );
        lemma_fundamental_div_mod_converse_div(
            (y / cs) * wc + (x / cs),
            wc,
            y / cs,
            x / cs,
        );
        assert(a / cs == x / cs && b / cs == y / cs);
        lemma_fundamental_div_mod_converse_mod(
            (b % cs) * cs + (a % cs),
            cs,
            b % cs,
            a % cs,
        );
        lemma_fundamental_div_mod_converse_mod(
            (y % cs) * cs + (x % cs),
            cs,
            y % cs,
            x % cs,
        );
        lemma_fundamental_div_mod_converse_div(
            (b % cs) * cs + (a % cs),
            cs,
            b % cs,
            a % cs,
        );
        lemma_fundamental_div_mod_converse_div(
            (y % cs) * cs + (x % cs),
            cs,
            y % cs,
            x % cs,
        );
        assert(a % cs == x % cs && b % cs == y % cs);
    }

    /// Exclusive access to the chunk at chunk coordinates (chunk_x, chunk_y).
    /// Whatever the caller writes through the returned borrow becomes the
    /// world's chunk at that position; everything else is untouched.
    pub fn get_chunk_mut(&mut self, chunk_x: u32, chunk_y: u32) -> (r: Result<
        &mut Chunk,
        WorldError,
    >)
        requires
            old(self).wf(),
        ensures
            r is Ok <==> old(self).chunk_in_bounds(chunk_x as int, chunk_y as int),
            r matches Err(e) ==> e == WorldError::OutOfBounds(chunk_x, chunk_y) && *final(self)
                == *old(self),
            r matches Ok(c) ==> {
                &&& *c == old(self).chunks@[old(self).spec_chunk_index(
                    chunk_x as int,
                    chunk_y as int,
                )]
                &&& final(self).chunks@ == old(self).chunks@.update(
                    old(self).spec_chunk_index(chunk_x as int, chunk_y as int),
                    *final(c),
                )
                &&& final(self).width == old(self).width
                &&& final(self).height == old(self).height
                &&& final(self).chunk_size == old(self).chunk_size
                &&& final(self).width_chunks == old(self).width_chunks
                &&& final(self).height_chunks == old(self).height_chunks
                &&& final(self).players == old(self).players
                &&& final(self).player_loaded == old(self).player_loaded
            },
    {
        match self.check_out_of_bounds_chunk(chunk_x, chunk_y) {
            Err(e) => {
                return Err(e);
            },
            Ok(()) => {},
        }
        proof {
            self.lemma_chunk_index_in_bounds(chunk_x as int, chunk_y as int);
        }
        let idx: usize = (chunk_y * self.width_chunks + chunk_x) as usize;
        Ok(&mut self.chunks[idx])
    }

    /// Overwrite the single cell (pos_x, pos_y) with `block`. This is the
    /// sole mutation entry point for block content; every other cell keeps
    /// its value, and nothing else about the world changes.
    pub fn set_block(&mut self, pos_x: u32, pos_y: u32, block: Block) -> (r: Result<
        (),
        WorldError,
    >)
        requires
            old(self).wf(),
        ensures
            final(self).wf(),
            final(self).width == old(self).width,
            final(self).height == old(self).height,
            final(self).chunk_size == old(self).chunk_size,
            final(self).players == old(self).players,
            final(self).player_loaded == old(self).player_loaded,
            final(self).player_loaded@.len() == old(self).player_loaded@.len(),
            forall|t: int|
                0 <= t < old(self).player_loaded@.len() ==> final(self).subscribers(t) == old(
                    self,
                ).subscribers(t),
            final(self).chunks@.len() == old(self).chunks@.len(),
            !old(self).cell_in_bounds(pos_x as int, pos_y as int) ==> (r matches Err(e) && e
                == WorldError::OutOfBounds(pos_x, pos_y)) && *final(self) == *old(self),
            old(self).cell_in_bounds(pos_x as int, pos_y as int) ==> r is Ok && (forall|
                a: int,
                b: int,
            |
                old(self).cell_in_bounds(a, b) ==> final(self).spec_block_at(a, b) == (if a
                    == pos_x && b == pos_y {
                    block
                } else {
                    old(self).spec_block_at(a, b)
                })),
    {
        match self.check_out_of_bounds_block(pos_x, pos_y) {
            Err(e) => {
                return Err(e);
            },
            Ok(()) => {},
        }
        let (chunk_x, chunk_y) = match self.get_chunk_block_is_in(pos_x, pos_y) {
            Ok(p) => p,
            Err(e) => {
                return Err(e);
            },
        };
        proof {
            self.lemma_cell_decomposition(pos_x as int, pos_y as int);
            self.lemma_chunk_index_in_bounds(chunk_x as int, chunk_y as int);
        }
        let pos_inside_chunk_x = pos_x - chunk_x * self.chunk_size;
        let pos_inside_chunk_y = pos_y - chunk_y * self.chunk_size;
        let idx: usize = (chunk_y * self.width_chunks + chunk_x) as usize;
        let chunk = &mut self.chunks[idx];
        chunk.set_block(pos_inside_chunk_x, pos_inside_chunk_y, block);
        proof {
            let cs = self.chunk_size as int;
            let i = old(self).spec_chunk_index(pos_x as int / cs, pos_y as int / cs);
            assert forall|t: int| 0 <= t < self.chunks@.len() implies (
            #[trigger] self.chunks@[t]).is_at(
                self.chunk_size,
                t % self.spec_width_chunks(),
                t / self.spec_width_chunks(),
            ) by {
                assert(old(self).chunks@[t].is_at(
                    old(self).chunk_size,
                    t % old(self).spec_width_chunks(),
                    t / old(self).spec_width_chunks(),
                ));
            }
            assert forall|a: int, b: int| old(self).cell_in_bounds(a, b) implies self
                .spec_block_at(a, b) == (if a == pos_x && b == pos_y {
                block
            } else {
                old(self).spec_block_at(a, b)
            }) by {
                old(self).lemma_cell_decomposition(a, b);
                old(self).lemma_chunk_index_in_bounds(a / cs, b / cs);
                let t = old(self).spec_chunk_index(a / cs, b / cs);
                let slot = (b % cs) * cs + (a % cs);
                if t == i {
                    if slot == (pos_y as int % cs) * cs + (pos_x as int % cs) {
                        old(self).lemma_cell_unique(pos_x as int, pos_y as int, a, b);
                    }
                }
            }
        }
        Ok(())
    }
}

/// A row-major grid of `count` empty chunks of side `chunk_size`: the chunk
/// at index i is all `Air` and placed at (i % width_chunks, i / width_chunks).
pub open spec fn empty_chunk_grid(
    chunks: Seq<Chunk>,
    chunk_size: u32,
    width_chunks: int,
    count: int,
) -> bool {
    &&& chunks.len() == count
    &&& forall|i: int|
        0 <= i < count ==> (#[trigger] chunks[i]).is_empty_at(
            chunk_size,
            i % width_chunks,
            i / width_chunks,
        )
}

/// The empty chunk that belongs at row-major index `idx` of a chunk grid
/// `width_chunks` columns across.
pub fn chunk_for_index(chunk_size: u32, width_chunks: u32, idx: u32) -> (chunk: Chunk)
    requires
        width_chunks >= 1,
        chunk_size * chunk_size <= u32::MAX,
    ensures
        chunk.is_empty_at(
            chunk_size,
            (idx as int) % (width_chunks as int),
            (idx as int) / (width_chunks as int),
        ),
{
    let chunk_x = idx % width_chunks;
    let chunk_y = idx / width_chunks;
    Chunk::empty(chunk_size, chunk_x, chunk_y)
}

/// Relies on rayon's `IntoParallelIterator` for ranges and
/// `ParallelIterator::map` + `collect` into a `Vec`: a range is an indexed
/// parallel iterator, so `collect` places each mapped result at its input's
/// position whatever the number of workers; each element is the result of the
/// verified `chunk_for_index`.
#[verifier::external_body]
fn par_generate_chunks(chunk_size: u32, width_chunks: u32, count: u32) -> (r: Vec<Chunk>)
    requires
        width_chunks >= 1,
        chunk_size * chunk_size <= u32::MAX,
    ensures
        empty_chunk_grid(r@, chunk_size, width_chunks as int, count as int),
{
    (0..count).into_par_iter().map(|idx| chunk_for_index(chunk_size, width_chunks, idx)).collect()
}

/// The same grid of empty chunks, produced one index at a time. The parallel
/// pass must agree with this sequential one; see
/// `lemma_empty_grid_deterministic`.
pub fn generate_chunks_sequential(chunk_size: u32, width_chunks: u32, count: u32) -> (r: Vec<
    Chunk,
>)
    requires
        width_chunks >= 1,
        chunk_size * chunk_size <= u32::MAX,
    ensures
        empty_chunk_grid(r@, chunk_size, width_chunks as int, count as int),
{
    let mut out: Vec<Chunk> = Vec::new();
    let mut i: u32 = 0;
    while i < count
        invariant
            width_chunks >= 1,
            chunk_size * chunk_size <= u32::MAX,
            i <= count,
            out@.len() == i,
            forall|t: int|
                0 <= t < i ==> (#[trigger] out@[t]).is_empty_at(
                    chunk_size,
                    t % (width_chunks as int),
                    t / (width_chunks as int),
                ),
        decreases count - i,
    {
        out.push(chunk_for_index(chunk_size, width_chunks, i));
        i = i + 1;
    }
    out
}

/// The chunk-grid area of a divisible world fits alongside its cell area, so
/// chunk counts fit in `u32`; and a non-empty grid bounds the per-chunk cell
/// count by the world's cell count.
proof fn lemma_grid_area_fits(width: u32, height: u32, chunk_size: u32)
    requires
        chunk_size >= 1,
        width % chunk_size == 0,
        height % chunk_size == 0,
        width * height <= u32::MAX,
    ensures
        0 <= (width as int / chunk_size as int) * (height as int / chunk_size as int)
            <= u32::MAX,
        (width as int / chunk_size as int) >= 1 && (height as int / chunk_size as int) >= 1
            ==> chunk_size * chunk_size <= u32::MAX,
        (width as int / chunk_size as int) * (height as int / chunk_size as int) == 0 ==> (
        width as int / chunk_size as int) == 0 || (height as int / chunk_size as int) == 0,
{
    let cs = chunk_size as int;
    let wc = width as int / cs;
    let hc = height as int / cs;
    lemma_fundamental_div_mod(width as int, cs);
    lemma_fundamental_div_mod(height as int, cs);
    lemma_div_pos_is_pos(width as int, cs);
    lemma_div_pos_is_pos(height as int, cs);
    assert(width == cs * wc);
    assert(height == cs * hc);
    assert(wc * hc <= (cs * wc) * (cs * hc)) by (nonlinear_arith)
        requires
            cs >= 1,
            wc >= 0,
            hc >= 0,
    ;
    assert(0 <= wc * hc) by (nonlinear_arith)
        requires
            wc >= 0,
            hc >= 0,
    ;
    if wc >= 1 && hc >= 1 {
        assert(cs * cs <= (cs * wc) * (cs * hc)) by (nonlinear_arith)
            requires
                cs >= 1,
                wc >= 1,
                hc >= 1,
        ;
        assert(wc * hc >= 1) by (nonlinear_arith)
            requires
                wc >= 1,
                hc >= 1,
        ;
    }
}

/// The block `generate_flat` leaves at height `y`: grass exactly at the grass
/// level, stone strictly below the row beneath it, air elsewhere (the row
/// just under the grass level stays air).
pub open spec fn flat_block(grass_level: u32, y: int) -> Block {
    if y == grass_level {
        Block::Grass
    } else if y < grass_level - 1 {
        Block::Stone
    } else {
        Block::Air
    }
}

/// Some connected client carries the given id.
pub open spec fn player_connected(players: Seq<ClientConnection>, id: u32) -> bool {
    exists|j: int| 0 <= j < players.len() && players[j].id == id
}

impl World {
    /// Register that the client with `player_loading_id` has loaded the chunk
    /// at (chunk_x, chunk_y). A duplicate registration is rejected with
    /// `ChunkAlreadyLoaded`; an id that belongs to no connected client
    /// succeeds without subscribing anyone (a deliberate defensive no-op).
    pub fn mark_chunk_loaded_by_id(
        &mut self,
        chunk_x: u32,
        chunk_y: u32,
        player_loading_id: u32,
    ) -> (r: Result<&Chunk, WorldError>)
        requires
            old(self).wf(),
        ensures
            final(self).wf(),
            final(self).width == old(self).width,
            final(self).height == old(self).height,
            final(self).chunk_size == old(self).chunk_size,
            final(self).chunks == old(self).chunks,
            final(self).players == old(self).players,
            final(self).player_loaded@.len() == old(self).player_loaded@.len(),
            !old(self).chunk_in_bounds(chunk_x as int, chunk_y as int) ==> (r matches Err(e)
                && e == WorldError::OutOfBounds(chunk_x, chunk_y)) && *final(self) == *old(self),
            old(self).chunk_in_bounds(chunk_x as int, chunk_y as int) ==> ({
                let i = old(self).spec_chunk_index(chunk_x as int, chunk_y as int);
                &&& old(self).subscribers(i).contains(player_loading_id) ==> (r matches Err(e)
                    && e == WorldError::ChunkAlreadyLoaded) && *final(self) == *old(self)
                &&& !old(self).subscribers(i).contains(player_loading_id) ==> {
                    &&& (r matches Ok(c) && *c == old(self).chunks@[i])
                    &&& player_connected(old(self).players@, player_loading_id) ==> final(self).subscribers(i) == old(self).subscribers(i).push(player_loading_id)
                    &&& !player_connected(old(self).players@, player_loading_id) ==> *final(self)
                        == *old(self)
                    &&& forall|t: int|
                        0 <= t < old(self).player_loaded@.len() && t != i ==> final(self).subscribers(t) == old(self).subscribers(t)
                }
            }),
    {
        match self.check_out_of_bounds_chunk(chunk_x, chunk_y) {
            Err(e) => {
                return Err(e);
            },
            Ok(()) => {},
        }
        proof {
            self.lemma_chunk_index_in_bounds(chunk_x as int, chunk_y as int);
        }
        let idx: usize = (chunk_y * self.width_chunks + chunk_x) as usize;
        if contains_id(&self.player_loaded[idx], player_loading_id) {
            return Err(WorldError::ChunkAlreadyLoaded);
        }
        match find_player_index(&self.players, player_loading_id) {
            Some(_) => {
                let list = &mut self.player_loaded[idx];
                list.push(player_loading_id);
                proof {
                    lemma_push_no_duplicates(
                        old(self).subscribers(idx as int),
                        player_loading_id,
                    );
                }
            },
            None => {},
        }
        Ok(&self.chunks[idx])
    }

    /// Drop the client with `player_loading_id` from the subscriber set of
    /// the chunk at (chunk_x, chunk_y); removing an absent id is a silent
    /// no-op, not an error.
    pub fn unmark_loaded_chunk_for(
        &mut self,
        chunk_x: u32,
        chunk_y: u32,
        player_loading_id: u32,
    ) -> (r: Result<(), WorldError>)
        requires
            old(self).wf(),
        ensures
            final(self).wf(),
            final(self).width == old(self).width,
            final(self).height == old(self).height,
            final(self).chunk_size == old(self).chunk_size,
            final(self).chunks == old(self).chunks,
            final(self).players == old(self).players,
            final(self).player_loaded@.len() == old(self).player_loaded@.len(),
            !old(self).chunk_in_bounds(chunk_x as int, chunk_y as int) ==> (r matches Err(e)
                && e == WorldError::OutOfBounds(chunk_x, chunk_y)) && *final(self) == *old(self),
            old(self).chunk_in_bounds(chunk_x as int, chunk_y as int) ==> r is Ok && ({
                let i = old(self).spec_chunk_index(chunk_x as int, chunk_y as int);
                &&& final(self).subscribers(i) == old(self).subscribers(i).filter(
                    keeps(player_loading_id),
                )
                &&& forall|t: int|
                    0 <= t < old(self).player_loaded@.len() && t != i ==> final(self).subscribers(
                        t,
                    ) == old(self).subscribers(t)
            }),
    {
        match self.check_out_of_bounds_chunk(chunk_x, chunk_y) {
            Err(e) => {
                return Err(e);
            },
            Ok(()) => {},
        }
        proof {
            self.lemma_chunk_index_in_bounds(chunk_x as int, chunk_y as int);
        }
        let idx: usize = (chunk_y * self.width_chunks + chunk_x) as usize;
        let list = &mut self.player_loaded[idx];
        remove_id(list, player_loading_id);
        proof {
            lemma_filter_keeps_no_duplicates(
                old(self).subscribers(idx as int),
                keeps(player_loading_id),
            );
        }
        Ok(())
    }

    /// Drop the client with `player_loading_id` from every chunk's subscriber
    /// set in one parallel pass; the per-chunk sets are independent, so the
    /// outcome does not depend on how the pass was scheduled.
    pub fn unload_all_for(&mut self, player_loading_id: u32)
        requires
            old(self).wf(),
        ensures
            final(self).wf(),
            final(self).width == old(self).width,
            final(self).height == old(self).height,
            final(self).chunk_size == old(self).chunk_size,
            final(self).chunks == old(self).chunks,
            final(self).players == old(self).players,
            final(self).player_loaded@.len() == old(self).player_loaded@.len(),
            forall|i: int|
                0 <= i < old(self).player_loaded@.len() ==> final(self).subscribers(i) == old(
                    self,
                ).subscribers(i).filter(keeps(player_loading_id)),
    {
        par_remove_id(&mut self.player_loaded, player_loading_id);
        proof {
            assert forall|i: int|
                0 <= i < self.player_loaded@.len() implies (
            #[trigger] self.player_loaded@[i]@).no_duplicates() by {
                lemma_filter_keeps_no_duplicates(
                    old(self).subscribers(i),
                    keeps(player_loading_id),
                );
            }
        }
    }

    /// Resolve every subscriber id of the chunk at (chunk_x, chunk_y) to its
    /// connected client, first match in `players` order. The caller keeps the
    /// sets consistent: every subscriber id present must belong to a
    /// connected client (always unsubscribe before dropping a client).
    #[verifier::loop_isolation(false)]
    pub fn get_list_of_players_loading_chunk(&self, chunk_x: u32, chunk_y: u32) -> (r: Result<
        Vec<ClientConnection>,
        WorldError,
    >)
        requires
            self.wf(),
            self.chunk_in_bounds(chunk_x as int, chunk_y as int) ==> forall|k: int|
                0 <= k < self.subscribers(
                    self.spec_chunk_index(chunk_x as int, chunk_y as int),
                ).len() ==> player_connected(
                    self.players@,
                    self.subscribers(self.spec_chunk_index(chunk_x as int, chunk_y as int))[k],
                ),
        ensures
            r is Ok <==> self.chunk_in_bounds(chunk_x as int, chunk_y as int),
            r matches Err(e) ==> e == WorldError::OutOfBounds(chunk_x, chunk_y),
            r matches Ok(v) ==> ({
                let i = self.spec_chunk_index(chunk_x as int, chunk_y as int);
                &&& v@.len() == self.subscribers(i).len()
                &&& forall|k: int|
                    0 <= k < v@.len() ==> is_first_match(
                        self.players@,
                        self.subscribers(i)[k],
                        v@[k],
                    )
            }),
    {
        match self.check_out_of_bounds_chunk(chunk_x, chunk_y) {
            Err(e) => {
                return Err(e);
            },
            Ok(()) => {},
        }
        proof {
            self.lemma_chunk_index_in_bounds(chunk_x as int, chunk_y as int);
        }
        let idx: usize = (chunk_y * self.width_chunks + chunk_x) as usize;
        let ids = &self.player_loaded[idx];
        let mut out: Vec<ClientConnection> = Vec::new();
        let mut k: usize = 0;
        while k < ids.len()
            invariant
                k <= ids@.len(),
                out@.len() == k,
                forall|t: int|
                    0 <= t < k ==> is_first_match(self.players@, ids@[t], out@[t]),
            decreases ids@.len() - k,
        {
            let id = ids[k];
            match find_player_index(&self.players, id) {
                Some(j) => {
                    out.push(self.players[j]);
                },
                None => {
                    proof {
                        let ghost i = self.spec_chunk_index(chunk_x as int, chunk_y as int);
                        self.lemma_chunk_index_in_bounds(chunk_x as int, chunk_y as int);
                        assert(idx as int == i);
                        assert(self.subscribers(i)[k as int] == ids@[k as int]);
                        assert(player_connected(self.players@, self.subscribers(i)[k as int]));
                        assert(false);
                    }
                },
            }
            k = k + 1;
        }
        Ok(out)
    }
}

/// Relies on rayon's `par_iter_mut` and `ParallelIterator::for_each`: the
/// closure runs exactly once on each element of the vector, mutating it in
/// place, so afterwards every entry is its old value with `id` removed, per
/// `remove_id`'s verified contract. The entries are independent, so the
/// parallel pass gives the same outcome as a sequential one.
#[verifier::external_body]
fn par_remove_id(lists: &mut Vec<Vec<u32>>, id: u32)
    ensures
        final(lists)@.len() == old(lists)@.len(),
        forall|i: int| 0 <= i < old(lists)@.len() ==> (#[trigger] final(lists)@[i])@
            == old(lists)@[i]@.filter(keeps(id)),
{
    lists.par_iter_mut().for_each(|list| remove_id(list, id));
}

impl World {
    /// Build a world of all-`Air` chunks covering `width * height` cells,
    /// partitioned into square chunks of side `chunk_size`. Fails fast with
    /// `MismatchedChunkSize` when the chunk size does not divide both
    /// dimensions; never silently truncates. Chunk contents depend only on
    /// each chunk's own coordinates, so they are generated in parallel and
    /// collected back into row-major order.
    pub fn generate_empty(width: u32, height: u32, chunk_size: u32) -> (r: Result<
        World,
        WorldError,
    >)
        requires
            chunk_size >= 1,
            width * height <= u32::MAX,
        ensures
            r is Ok <==> width % chunk_size == 0 && height % chunk_size == 0,
            r matches Err(e) ==> e == WorldError::MismatchedChunkSize,
            r matches Ok(w) ==> {
                &&& w.wf()
                &&& w.width == width
                &&& w.height == height
                &&& w.chunk_size == chunk_size
                &&& w.players@.len() == 0
                &&& empty_chunk_grid(
                    w.chunks@,
                    chunk_size,
                    w.spec_width_chunks(),
                    w.chunks@.len() as int,
                )
                &&& forall|i: int| 0 <= i < w.player_loaded@.len() ==> w.subscribers(i).len() == 0
                &&& forall|x: int, y: int|
                    w.cell_in_bounds(x, y) ==> w.spec_block_at(x, y) == Block::Air
            },
    {
        if width % chunk_size != 0 || height % chunk_size != 0 {
            return Err(WorldError::MismatchedChunkSize);
        }
        proof {
            lemma_grid_area_fits(width, height, chunk_size);
        }
        let width_chunks = width / chunk_size;
        let height_chunks = height / chunk_size;
        let count = width_chunks * height_chunks;
        let chunks = if count == 0 {
            Vec::new()
        } else {
            proof {
                assert(width_chunks >= 1 && height_chunks >= 1) by (nonlinear_arith)
                    requires
                        count as int == width_chunks as int * height_chunks as int,
                        count != 0,
                ;
                assert(chunk_size * chunk_size <= u32::MAX);
            }
            par_generate_chunks(chunk_size, width_chunks, count)
        };
        let mut player_loaded: Vec<Vec<u32>> = Vec::new();
        let mut i: u32 = 0;
        while i < count
            invariant
                i <= count,
                player_loaded@.len() == i,
                forall|t: int| 0 <= t < i ==> (#[trigger] player_loaded@[t])@.len() == 0,
            decreases count - i,
        {
            player_loaded.push(Vec::new());
            i = i + 1;
        }
        let w = World {
            width,
            height,
            chunk_size,
            chunks,
            width_chunks,
            height_chunks,
            players: Vec::new(),
            player_loaded,
        };
        proof {
            let cs = chunk_size as int;
            assert(w.wf());
            assert forall|x: int, y: int| w.cell_in_bounds(x, y) implies w.spec_block_at(x, y)
                == Block::Air by {
                w.lemma_cell_decomposition(x, y);
                w.lemma_chunk_index_in_bounds(x / cs, y / cs);
            }
        }
        Ok(w)
    }

    /// Build an empty world, then lay flat terrain through the single-cell
    /// mutation API: every cell strictly below row `grass_level - 1` becomes
    /// stone and the whole row at `grass_level` becomes grass (when
    /// `grass_level` is zero the stone fill is skipped but the grass row is
    /// still placed). A grass level at or past the world's height makes the
    /// underlying placement fail with its out-of-bounds error.
    pub fn generate_flat(width: u32, height: u32, chunk_size: u32, grass_level: u32) -> (r:
        Result<World, WorldError>)
        requires
            chunk_size >= 1,
            width * height <= u32::MAX,
        ensures
            r is Ok <==> (width % chunk_size == 0 && height % chunk_size == 0 && (width == 0
                || grass_level < height)),
            r matches Err(e) ==> {
                &&& (e == WorldError::MismatchedChunkSize <==> (width % chunk_size != 0 || height
                    % chunk_size != 0))
                &&& (width % chunk_size == 0 && height % chunk_size == 0 && width > 0
                    && grass_level >= height + 2) ==> e == WorldError::OutOfBounds(0, height)
                &&& (width % chunk_size == 0 && height % chunk_size == 0 && width > 0 && height
                    <= grass_level < height + 2) ==> e == WorldError::OutOfBounds(0, grass_level)
            },
            r matches Ok(w) ==> {
                &&& w.wf()
                &&& w.width == width
                &&& w.height == height
                &&& w.chunk_size == chunk_size
                &&& w.players@.len() == 0
                &&& forall|i: int| 0 <= i < w.player_loaded@.len() ==> w.subscribers(i).len() == 0
                &&& forall|x: int, y: int|
                    w.cell_in_bounds(x, y) ==> w.spec_block_at(x, y) == flat_block(grass_level, y)
            },
    {
        let mut w = match World::generate_empty(width, height, chunk_size) {
            Ok(w) => w,
            Err(e) => {
                return Err(e);
            },
        };
        if grass_level != 0 {
            let mut y: u32 = 0;
            while y + 1 < grass_level
                invariant
                    w.wf(),
                    w.width == width,
                    w.height == height,
                    w.chunk_size == chunk_size,
                    w.players@.len() == 0,
                    forall|i: int| 0 <= i < w.player_loaded@.len() ==> w.subscribers(i).len() == 0,
                    grass_level >= 1,
                    y < grass_level,
                    width > 0 ==> y <= height,
                    forall|a: int, b: int|
                        w.cell_in_bounds(a, b) ==> w.spec_block_at(a, b) == (if b < y {
                            Block::Stone
                        } else {
                            Block::Air
                        }),
                decreases grass_level - y,
            {
                let mut x: u32 = 0;
                while x < width
                    invariant
                        w.wf(),
                        w.width == width,
                        w.height == height,
                        w.chunk_size == chunk_size,
                        w.players@.len() == 0,
                        forall|i: int|
                            0 <= i < w.player_loaded@.len() ==> w.subscribers(i).len() == 0,
                        grass_level >= 1,
                        y + 1 < grass_level,
                        x <= width,
                        width > 0 ==> y <= height,
                        x > 0 ==> y < height,
                        forall|a: int, b: int|
                            w.cell_in_bounds(a, b) ==> w.spec_block_at(a, b) == (if b < y || (b
                                == y && a < x) {
                                Block::Stone
                            } else {
                                Block::Air
                            }),
                    decreases width - x,
                {
                    match w.set_block(x, y, Block::Stone) {
                        Ok(()) => {},
                        Err(e) => {
                            return Err(e);
                        },
                    }
                    x = x + 1;
                }
                y = y + 1;
            }
        }
        let mut x: u32 = 0;
        while x < width
            invariant
                w.wf(),
                w.width == width,
                w.height == height,
                w.chunk_size == chunk_size,
                w.players@.len() == 0,
                forall|i: int| 0 <= i < w.player_loaded@.len() ==> w.subscribers(i).len() == 0,
                x <= width,
                width > 0 ==> grass_level <= height + 1,
                x > 0 ==> grass_level < height,
                forall|a: int, b: int|
                    w.cell_in_bounds(a, b) ==> w.spec_block_at(a, b) == (if b < grass_level - 1 {
                        Block::Stone
                    } else if b == grass_level && a < x {
                        Block::Grass
                    } else {
                        Block::Air
                    }),
            decreases width - x,
        {
            match w.set_block(x, grass_level, Block::Grass) {
                Ok(()) => {},
                Err(e) => {
                    return Err(e);
                },
            }
            x = x + 1;
        }
        Ok(w)
    }
}

/// Law: a well-formed world holds exactly `width_chunks * height_chunks`
/// chunks, and the chunk at row-major index i sits at chunk coordinates
/// (i % width_chunks, i / width_chunks).
pub proof fn lemma_chunk_grid_layout(w: World, i: int)
    requires
        w.wf(),
        0 <= i < w.chunks@.len(),
    ensures
        w.chunks@.len() == w.spec_width_chunks() * w.spec_height_chunks(),
        w.chunks@[i].chunk_x == i % w.spec_width_chunks(),
        w.chunks@[i].chunk_y == i / w.spec_width_chunks(),
{
}

/// Law: a successful subscription leaves the id present and the set one entry
/// longer, so by `mark_chunk_loaded_by_id`'s contract an immediate repeat for
/// the same chunk and id must fail with `ChunkAlreadyLoaded` and leave every
/// subscriber set unchanged.
pub proof fn lemma_repeat_mark_rejected(before: World, after: World, i: int, id: u32)
    requires
        after.subscribers(i) == before.subscribers(i).push(id),
    ensures
        after.subscribers(i).contains(id),
        after.subscribers(i).len() == before.subscribers(i).len() + 1,
{
    assert(after.subscribers(i)[before.subscribers(i).len() as int] == id);
}

/// Law: once every subscriber list has had `id` filtered out, as
/// `unload_all_for` ensures, a chunk's resolved subscriber list, as
/// `get_list_of_players_loading_chunk` ensures it, never contains a client
/// with that id.
pub proof fn lemma_unloaded_never_listed(
    sub_before: Seq<u32>,
    id: u32,
    players: Seq<ClientConnection>,
    resolved: Seq<ClientConnection>,
)
    requires
        resolved.len() == sub_before.filter(keeps(id)).len(),
        forall|k: int|
            0 <= k < resolved.len() ==> is_first_match(
                players,
                sub_before.filter(keeps(id))[k],
                resolved[k],
            ),
    ensures
        forall|k: int| 0 <= k < resolved.len() ==> (#[trigger] resolved[k]).id != id,
{
    broadcast use vstd::seq_lib::group_filter_ensures;

    assert forall|k: int| 0 <= k < resolved.len() implies (#[trigger] resolved[k]).id != id by {
        assert(keeps(id)(sub_before.filter(keeps(id))[k]));
        assert(is_first_match(players, sub_before.filter(keeps(id))[k], resolved[k]));
    }
}

/// Law: any two chunk sequences that satisfy the empty-grid description for
/// the same parameters agree chunk by chunk, so the parallel generation pass
/// and the sequential one produce identical grids from the same inputs.
pub proof fn lemma_empty_grid_deterministic(
    s1: Seq<Chunk>,
    s2: Seq<Chunk>,
    chunk_size: u32,
    width_chunks: int,
    count: int,
)
    requires
        empty_chunk_grid(s1, chunk_size, width_chunks, count),
        empty_chunk_grid(s2, chunk_size, width_chunks, count),
    ensures
        s1.len() == s2.len(),
        forall|i: int|
            0 <= i < count ==> {
                &&& (#[trigger] s1[i]).size == s2[i].size
                &&& s1[i].chunk_x == s2[i].chunk_x
                &&& s1[i].chunk_y == s2[i].chunk_y
                &&& s1[i].blocks@ == s2[i].blocks@
            },
{
    assert forall|i: int| 0 <= i < count implies {
        &&& (#[trigger] s1[i]).size == s2[i].size
        &&& s1[i].chunk_x == s2[i].chunk_x
        &&& s1[i].chunk_y == s2[i].chunk_y
        &&& s1[i].blocks@ == s2[i].blocks@
    } by {
        assert(s1[i].blocks@ =~= s2[i].blocks@);
    }
}

} // verus!
