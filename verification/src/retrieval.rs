//! Planning the retrieval of the tiles that cover a rectangle.
//!
//! The retriever decides which tile is asked for next and how many requests
//! may be under way at once. It makes no request itself: the caller asks
//! for the tile that `next_fetch` names and reports how that went with
//! `complete`. When every tile has been asked for and answered, `finish`
//! yields the batch, or the first error that was reported.

use vstd::prelude::*;
use vstd::multiset::Multiset;
use vstd::seq_lib::{to_multiset_build, to_multiset_contains, to_multiset_len, to_multiset_remove};
use crate::batch::{as_map, distinct, holds, lemma_lookup, position, TileBatch};
use crate::fetch::FetchError;
use crate::geometry::{TileBox, TileIndex};

verus! {

/// The most requests that are under way at once.
pub const MAX_IN_FLIGHT: usize = 10;

/// The tile at place `i` of the grid that covers `b`. The grid is walked
/// column by column, and each column from top to bottom.
pub open spec fn grid_tile(b: TileBox, i: int) -> TileIndex {
    TileIndex {
        x: (b.first_column() + i / b.rows()) as u32,
        y: (b.first_row() + i % b.rows()) as u32,
        z: b.zoom(),
    }
}

/// The tiles that cover `b`: every column from the first to the last, and
/// in each every row from the first to the last.
pub open spec fn grid(b: TileBox) -> Seq<TileIndex> {
    Seq::new(b.tile_count() as nat, |i: int| grid_tile(b, i))
}

/// Column and row of the tile at place `i` of the grid.
pub proof fn lemma_grid_tile(b: TileBox, i: int)
    requires
        0 <= i < b.tile_count(),
    ensures
        0 < b.rows(),
        0 < b.columns(),
        0 <= i / b.rows() < b.columns(),
        0 <= i % b.rows() < b.rows(),
        i == (i / b.rows()) * b.rows() + i % b.rows(),
        grid_tile(b, i).x == b.first_column() + i / b.rows(),
        grid_tile(b, i).y == b.first_row() + i % b.rows(),
        b.covers(grid_tile(b, i)),
{
    let rows = b.rows();
    let columns = b.columns();
    assert(rows > 0 && columns > 0) by (nonlinear_arith)
        requires
            0 <= i < columns * rows,
            rows >= 0,
            columns >= 0,
    ;
    vstd::arithmetic::div_mod::lemma_fundamental_div_mod(i, rows);
    vstd::arithmetic::div_mod::lemma_mod_bound(i, rows);
    let q = i / rows;
    let m = i % rows;
    assert(0 <= q < columns) by (nonlinear_arith)
        requires
            i == rows * q + m,
            0 <= m < rows,
            0 <= i < columns * rows,
    ;
    assert(rows * q == q * rows) by (nonlinear_arith);
}

/// A tile that `b` covers stands in the grid, at the place that its column
/// and row give it.
pub proof fn lemma_grid_holds(b: TileBox, t: TileIndex)
    requires
        b.covers(t),
    ensures
        0 <= (t.x - b.first_column()) * b.rows() + (t.y - b.first_row()) < b.tile_count(),
        grid(b)[(t.x - b.first_column()) * b.rows() + (t.y - b.first_row())] == t,
        grid(b).contains(t),
{
    let rows = b.rows();
    let c = t.x - b.first_column();
    let r = t.y - b.first_row();
    let i = c * rows + r;
    crate::raster::lemma_offset_in_bounds(c, r, b.columns(), rows);
    vstd::arithmetic::div_mod::lemma_fundamental_div_mod_converse(i, rows, c, r);
    assert(grid(b)[i] == t);
}

/// No tile stands in the grid twice.
pub proof fn lemma_grid_distinct(b: TileBox)
    ensures
        grid(b).no_duplicates(),
        forall|i: int| 0 <= i < grid(b).len() ==> (#[trigger] grid(b)[i]).z == b.zoom(),
{
    assert forall|i: int, j: int|
        0 <= i < grid(b).len() && 0 <= j < grid(b).len() && i != j implies grid(b)[i] != grid(
        b,
    )[j] by {
        lemma_grid_tile(b, i);
        lemma_grid_tile(b, j);
    }
}

/// A rectangle that lies within one tile is covered by that tile alone.
pub proof fn lemma_one_tile(b: TileBox)
    requires
        b.first_column() == b.last_column(),
        b.first_row() == b.last_row(),
    ensures
        b.tile_count() == 1,
        grid(b).len() == 1,
        grid(b)[0] == (TileIndex {
            x: b.first_column() as u32,
            y: b.first_row() as u32,
            z: b.zoom(),
        }),
{
    assert(b.columns() * b.rows() == 1) by (nonlinear_arith)
        requires
            b.columns() == 1,
            b.rows() == 1,
    ;
    lemma_grid_tile(b, 0);
}

/// A rectangle that spans the columns `x0` to `x1` and the rows `y0` to
/// `y1` is covered by `(x1 - x0 + 1) * (y1 - y0 + 1)` tiles.
pub proof fn lemma_tile_count(b: TileBox)
    requires
        b.first_column() <= b.last_column(),
        b.first_row() <= b.last_row(),
    ensures
        grid(b).len() == (b.last_column() - b.first_column() + 1) * (b.last_row() - b.first_row()
            + 1),
{
    assert(b.columns() * b.rows() >= 0) by (nonlinear_arith)
        requires
            b.columns() >= 1,
            b.rows() >= 1,
    ;
}

/// The tiles that cover `tile_box`, in the order of the grid.
pub fn tile_coords(tile_box: &TileBox) -> (tiles: Vec<TileIndex>)
    ensures
        tiles@ == grid(*tile_box),
{
    let (x0, y0) = tile_box.outer_top_left();
    let (x1, y1) = tile_box.outer_bottom_right();
    let z = tile_box.top_left.z;
    let mut tiles: Vec<TileIndex> = Vec::new();
    let ghost b = *tile_box;
    if x0 > x1 || y0 > y1 {
        proof {
            assert(b.columns() * b.rows() == 0) by (nonlinear_arith)
                requires
                    b.columns() == 0 || b.rows() == 0,
            ;
            assert(tiles@ =~= grid(b));
        }
        return tiles;
    }
    let ghost rows: int = y1 - y0 + 1;
    let ghost columns: int = x1 - x0 + 1;
    let mut x: u64 = x0 as u64;
    while x <= x1 as u64
        invariant
            x0 <= x <= x1 + 1,
            y0 <= y1,
            rows == y1 - y0 + 1,
            rows == b.rows(),
            columns == x1 - x0 + 1,
            columns == b.columns(),
            x0 == b.first_column(),
            y0 == b.first_row(),
            z == b.zoom(),
            tiles@.len() == (x - x0) * rows,
            forall|k: int| 0 <= k < tiles@.len() ==> tiles@[k] == grid_tile(b, k),
        decreases x1 + 1 - x,
    {
        let mut y: u64 = y0 as u64;
        proof {
            assert((x - x0) * rows + rows == (x + 1 - x0) * rows) by (nonlinear_arith);
        }
        while y <= y1 as u64
            invariant
                x0 <= x <= x1,
                y0 <= y <= y1 + 1,
                rows == y1 - y0 + 1,
                rows == b.rows(),
                columns == x1 - x0 + 1,
                columns == b.columns(),
                x0 == b.first_column(),
                y0 == b.first_row(),
                z == b.zoom(),
                tiles@.len() == (x - x0) * rows + (y - y0),
                forall|k: int| 0 <= k < tiles@.len() ==> tiles@[k] == grid_tile(b, k),
            decreases y1 + 1 - y,
        {
            proof {
                let k = tiles@.len() as int;
                vstd::arithmetic::div_mod::lemma_fundamental_div_mod_converse(
                    k,
                    rows,
                    x - x0,
                    y - y0,
                );
            }
            tiles.push(TileIndex { x: x as u32, y: y as u32, z });
            y += 1;
        }
        x += 1;
    }
    proof {
        assert(tiles@ =~= grid(b));
    }
    tiles
}

/// What a caller reported of a request, as the contracts see it.
pub open spec fn seen(outcome: Result<Vec<u8>, FetchError>) -> Result<Seq<u8>, FetchError> {
    match outcome {
        Ok(bytes) => Ok(bytes@),
        Err(e) => Err(e),
    }
}

/// The answer at place `i` is the first that reports an error.
pub open spec fn is_first_failure(
    answers: Seq<(TileIndex, Result<Seq<u8>, FetchError>)>,
    i: int,
) -> bool {
    &&& 0 <= i < answers.len()
    &&& answers[i].1 is Err
    &&& forall|j: int| 0 <= j < i ==> (#[trigger] answers[j]).1 is Ok
}

/// No answer reports an error.
pub open spec fn all_ok(answers: Seq<(TileIndex, Result<Seq<u8>, FetchError>)>) -> bool {
    forall|i: int| 0 <= i < answers.len() ==> (#[trigger] answers[i]).1 is Ok
}

/// The tiles that the answers brought, each with its bytes.
pub open spec fn brought(answers: Seq<(TileIndex, Result<Seq<u8>, FetchError>)>) -> Seq<
    (TileIndex, Seq<u8>),
> {
    Seq::new(answers.len(), |i: int| (answers[i].0, answers[i].1->Ok_0))
}

/// A request that was answered: the tile and what came of it.
#[derive(Debug)]
pub struct Completed {
    pub tile: TileIndex,
    pub outcome: Result<Vec<u8>, FetchError>,
}

/// The state of one retrieval.
#[derive(Debug)]
pub struct BatchRetriever {
    zoom: u32,
    tiles: Vec<TileIndex>,
    next: usize,
    in_flight: Vec<TileIndex>,
    done: Vec<Completed>,
}

impl BatchRetriever {
    /// The zoom level of the tiles.
    pub closed spec fn zoom_level(&self) -> u32 {
        self.zoom
    }

    /// The tiles to ask for, in the order in which they are asked for.
    pub closed spec fn plan(&self) -> Seq<TileIndex> {
        self.tiles@
    }

    /// How many tiles have been asked for.
    pub closed spec fn started(&self) -> nat {
        self.next as nat
    }

    /// The tiles that have been asked for and not yet answered.
    pub closed spec fn waiting(&self) -> Seq<TileIndex> {
        self.in_flight@
    }

    /// The answers in the order in which they came.
    pub closed spec fn answers(&self) -> Seq<(TileIndex, Result<Seq<u8>, FetchError>)> {
        Seq::new(self.done@.len(), |i: int| (self.done@[i].tile, seen(self.done@[i].outcome)))
    }

    /// The tiles that have been answered, in the order of the answers.
    pub open spec fn finished(&self) -> Seq<TileIndex> {
        Seq::new(self.answers().len(), |i: int| self.answers()[i].0)
    }

    /// No more than ten requests are under way. The tiles that are waiting
    /// and those that are finished are, together, the tiles that were
    /// asked for, each once. No tile is planned twice, and all lie at one
    /// zoom level.
    pub open spec fn wf(&self) -> bool {
        &&& self.started() <= self.plan().len()
        &&& self.waiting().len() <= MAX_IN_FLIGHT
        &&& self.waiting().to_multiset().add(self.finished().to_multiset()) == self.plan().take(
            self.started() as int,
        ).to_multiset()
        &&& self.plan().no_duplicates()
        &&& forall|i: int|
            0 <= i < self.plan().len() ==> (#[trigger] self.plan()[i]).z == self.zoom_level()
    }

    /// Every tile has been asked for and answered.
    pub open spec fn all_done(&self) -> bool {
        self.started() == self.plan().len() && self.waiting().len() == 0
    }

    /// A retrieval of the tiles that cover `tile_box`. Nothing has been
    /// asked for yet.
    pub fn new(tile_box: &TileBox) -> (r: BatchRetriever)
        ensures
            r.wf(),
            r.plan() == grid(*tile_box),
            r.zoom_level() == tile_box.zoom(),
            r.started() == 0,
            r.waiting().len() == 0,
            r.answers().len() == 0,
    {
        let tiles = tile_coords(tile_box);
        let r = BatchRetriever {
            zoom: tile_box.top_left.z,
            tiles,
            next: 0,
            in_flight: Vec::new(),
            done: Vec::new(),
        };
        proof {
            broadcast use vstd::multiset::group_multiset_axioms;

            lemma_grid_distinct(*tile_box);
            to_multiset_len(r.waiting());
            to_multiset_len(r.finished());
            to_multiset_len(r.plan().take(0));
            assert(r.waiting().to_multiset().add(r.finished().to_multiset())
                =~= r.plan().take(0).to_multiset());
        }
        r
    }

    /// How many tiles the retrieval asks for in all.
    pub fn total(&self) -> (n: usize)
        ensures
            n == self.plan().len(),
    {
        self.tiles.len()
    }

    /// How many tiles have been asked for so far.
    pub fn dispatched(&self) -> (n: usize)
        ensures
            n == self.started(),
    {
        self.next
    }

    /// How many requests are under way.
    pub fn in_flight(&self) -> (n: usize)
        ensures
            n == self.waiting().len(),
    {
        self.in_flight.len()
    }

    /// Whether every tile has been asked for and answered.
    pub fn is_done(&self) -> (done: bool)
        ensures
            done == self.all_done(),
    {
        self.next == self.tiles.len() && self.in_flight.len() == 0
    }

    /// The tile to ask for next. `None` while ten requests are under way,
    /// and when every tile has been asked for.
    pub fn next_fetch(&mut self) -> (out: Option<TileIndex>)
        requires
            old(self).wf(),
        ensures
            final(self).wf(),
            final(self).plan() == old(self).plan(),
            final(self).zoom_level() == old(self).zoom_level(),
            final(self).answers() == old(self).answers(),
            out is Some <==> old(self).started() < old(self).plan().len() && old(self).waiting().len()
                < MAX_IN_FLIGHT,
            out matches Some(t) ==> t == old(self).plan()[old(self).started() as int]
                && final(self).started() == old(self).started() + 1 && final(self).waiting()
                == old(self).waiting().push(t),
            out is None ==> final(self).started() == old(self).started() && final(self).waiting()
                == old(self).waiting(),
    {
        if self.next >= self.tiles.len() || self.in_flight.len() >= MAX_IN_FLIGHT {
            return None;
        }
        let t = self.tiles[self.next];
        proof {
            broadcast use vstd::multiset::group_multiset_axioms;

            let k = self.next as int;
            assert(self.plan().take(k + 1) =~= self.plan().take(k).push(t));
            to_multiset_build(self.plan().take(k), t);
            to_multiset_build(self.waiting(), t);
            assert(self.waiting().push(t).to_multiset().add(self.finished().to_multiset())
                =~= self.plan().take(k + 1).to_multiset());
        }
        self.in_flight.push(t);
        self.next = self.next + 1;
        Some(t)
    }

    /// The place at which `tile` waits, if it does.
    fn find_waiting(&self, tile: &TileIndex) -> (at: Option<usize>)
        ensures
            match at {
                Some(i) => i < self.waiting().len() && self.waiting()[i as int] == *tile,
                None => !self.waiting().contains(*tile),
            },
    {
        let mut i: usize = 0;
        while i < self.in_flight.len()
            invariant
                i <= self.in_flight@.len(),
                forall|j: int| 0 <= j < i ==> self.in_flight@[j] != *tile,
            decreases self.in_flight@.len() - i,
        {
            let t = self.in_flight[i];
            if t.x == tile.x && t.y == tile.y && t.z == tile.z {
                return Some(i);
            }
            i += 1;
        }
        None
    }

    /// Takes the answer to the request for `tile`. Where no request for
    /// `tile` is under way, nothing changes and the result is `false`.
    pub fn complete(&mut self, tile: TileIndex, outcome: Result<Vec<u8>, FetchError>) -> (taken:
        bool)
        requires
            old(self).wf(),
        ensures
            final(self).wf(),
            final(self).plan() == old(self).plan(),
            final(self).zoom_level() == old(self).zoom_level(),
            final(self).started() == old(self).started(),
            taken == old(self).waiting().contains(tile),
            taken ==> final(self).waiting() == old(self).waiting().remove(
                old(self).waiting().index_of(tile),
            ) && final(self).answers() == old(self).answers().push((tile, seen(outcome))),
            !taken ==> final(self).waiting() == old(self).waiting() && final(self).answers()
                == old(self).answers(),
    {
        let ghost before = *self;
        let i = match self.find_waiting(&tile) {
            Some(i) => i,
            None => {
                return false;
            },
        };
        proof {
            broadcast use vstd::multiset::group_multiset_axioms;

            let w = before.waiting();
            let f = before.finished();
            assert(w.contains(tile));
            before.lemma_waiting_distinct();
            let p = w.index_of(tile);
            assert(p == i);
            to_multiset_remove(w, i as int);
            to_multiset_build(f, tile);
            to_multiset_contains(w, tile);
            assert(w.remove(i as int).to_multiset().add(f.push(tile).to_multiset())
                =~= w.to_multiset().add(f.to_multiset()));
        }
        self.in_flight.remove(i);
        self.done.push(Completed { tile, outcome });
        proof {
            assert(self.answers() =~= before.answers().push((tile, seen(outcome))));
            assert(self.finished() =~= before.finished().push(tile));
        }
        true
    }

    /// No tile waits twice, none is finished twice, and none both waits
    /// and is finished.
    pub proof fn lemma_waiting_distinct(&self)
        requires
            self.wf(),
        ensures
            self.waiting().no_duplicates(),
            self.finished().no_duplicates(),
            forall|i: int, j: int|
                0 <= i < self.waiting().len() && 0 <= j < self.finished().len()
                    ==> self.waiting()[i] != self.finished()[j],
            self.waiting().len() + self.finished().len() == self.started(),
    {
        broadcast use vstd::multiset::group_multiset_axioms;

        let w = self.waiting();
        let f = self.finished();
        let p = self.plan().take(self.started() as int);
        assert(p.no_duplicates());
        p.lemma_multiset_has_no_duplicates();
        assert forall|x: TileIndex| w.to_multiset().contains(x) implies w.to_multiset().count(x)
            == 1 by {
            assert(p.to_multiset().count(x) == w.to_multiset().count(x) + f.to_multiset().count(
                x,
            ));
        }
        w.lemma_multiset_has_no_duplicates_conv();
        assert forall|x: TileIndex| f.to_multiset().contains(x) implies f.to_multiset().count(x)
            == 1 by {
            assert(p.to_multiset().count(x) == w.to_multiset().count(x) + f.to_multiset().count(
                x,
            ));
        }
        f.lemma_multiset_has_no_duplicates_conv();
        assert forall|i: int, j: int|
            0 <= i < w.len() && 0 <= j < f.len() implies w[i] != f[j] by {
            let x = w[i];
            to_multiset_contains(w, x);
            to_multiset_contains(f, x);
            assert(w.contains(x));
            if w[i] == f[j] {
                assert(f.contains(x));
                assert(p.to_multiset().count(x) == w.to_multiset().count(x)
                    + f.to_multiset().count(x));
            }
        }
        to_multiset_len(w);
        to_multiset_len(f);
        to_multiset_len(p);
    }

    /// Never are more than ten requests under way, and every tile that was
    /// asked for is either waiting or finished.
    pub proof fn lemma_in_flight_bounded(&self)
        requires
            self.wf(),
        ensures
            self.waiting().len() <= MAX_IN_FLIGHT,
            self.waiting().len() + self.finished().len() == self.started(),
            self.started() <= self.plan().len(),
    {
        self.lemma_waiting_distinct();
    }

    /// When every tile has been asked for and answered, the finished tiles
    /// are the planned ones, each once: a tile is finished if and only if
    /// it is planned, and there are as many of the one as of the other.
    pub proof fn lemma_all_fetched_once(&self)
        requires
            self.wf(),
            self.all_done(),
        ensures
            self.finished().to_multiset() == self.plan().to_multiset(),
            self.finished().len() == self.plan().len(),
            self.finished().no_duplicates(),
            forall|t: TileIndex| self.finished().contains(t) <==> self.plan().contains(t),
    {
        broadcast use vstd::multiset::group_multiset_axioms;

        self.lemma_waiting_distinct();
        let w = self.waiting();
        let f = self.finished();
        assert(self.plan().take(self.started() as int) =~= self.plan());
        to_multiset_len(w);
        assert(w.to_multiset() =~= Multiset::<TileIndex>::empty());
        assert(f.to_multiset() =~= self.plan().to_multiset());
        assert forall|t: TileIndex| f.contains(t) <==> self.plan().contains(t) by {
            to_multiset_contains(f, t);
            to_multiset_contains(self.plan(), t);
        }
    }

    /// A finished retrieval for a rectangle that spans the columns `x0` to
    /// `x1` and the rows `y0` to `y1` has asked for exactly
    /// `(x1 - x0 + 1) * (y1 - y0 + 1)` tiles and has as many answers: one
    /// where the rectangle lies within one tile.
    pub proof fn lemma_fetches_issued(&self, b: TileBox)
        requires
            self.wf(),
            self.all_done(),
            self.plan() == grid(b),
            b.first_column() <= b.last_column(),
            b.first_row() <= b.last_row(),
        ensures
            self.started() == (b.last_column() - b.first_column() + 1) * (b.last_row()
                - b.first_row() + 1),
            self.answers().len() == self.started(),
            b.first_column() == b.last_column() && b.first_row() == b.last_row()
                ==> self.started() == 1,
    {
        lemma_tile_count(b);
        self.lemma_all_fetched_once();
        if b.first_column() == b.last_column() && b.first_row() == b.last_row() {
            lemma_one_tile(b);
        }
    }

    /// Ends the retrieval. Where any answer reported an error, the first
    /// such error is the result, and no tile is handed out. Else the result
    /// is the batch of all tiles with their bytes.
    pub fn finish(self) -> (out: Result<TileBatch, FetchError>)
        requires
            self.wf(),
            self.all_done(),
        ensures
            out is Ok <==> all_ok(self.answers()),
            match out {
                Ok(batch) => {
                    &&& batch.wf()
                    &&& batch.zoom_level() == self.zoom_level()
                    &&& batch@ == as_map(brought(self.answers()))
                    &&& distinct(brought(self.answers()))
                    &&& forall|t: TileIndex| batch@.contains_key(t) <==> self.plan().contains(t)
                },
                Err(e) => exists|i: int|
                    is_first_failure(self.answers(), i) && (#[trigger] self.answers()[i]).1
                        == Err::<Seq<u8>, FetchError>(e),
            },
    {
        let ghost answers = self.answers();
        let ghost plan = self.plan();
        let ghost finished = self.finished();
        let zoom = self.zoom;
        let mut done = self.done;
        proof {
            self.lemma_all_fetched_once();
            assert forall|j: int| 0 <= j < answers.len() implies (#[trigger] answers[j]).0.z
                == zoom by {
                assert(finished[j] == answers[j].0);
                assert(finished.contains(answers[j].0));
                let p = plan.index_of(answers[j].0);
                assert(plan[p].z == zoom);
            }
        }
        let n = done.len();
        let mut i: usize = 0;
        let mut failed: Option<usize> = None;
        while i < n && failed.is_none()
            invariant
                i <= n,
                n == done@.len(),
                n == answers.len(),
                forall|j: int|
                    0 <= j < n ==> (#[trigger] answers[j]) == (done@[j].tile, seen(done@[j].outcome)),
                match failed {
                    Some(k) => k < n && is_first_failure(answers, k as int),
                    None => forall|j: int| 0 <= j < i ==> (#[trigger] answers[j]).1 is Ok,
                },
            decreases n - i + (if failed is None { 1int } else { 0int }),
        {
            if done[i].outcome.is_err() {
                failed = Some(i);
            } else {
                i += 1;
            }
        }
        if let Some(k) = failed {
            let c = done.swap_remove(k);
            match c.outcome {
                Err(e) => {
                    proof {
                        assert(answers[k as int].1 == Err::<Seq<u8>, FetchError>(e));
                    }
                    return Err(e);
                },
                Ok(_) => {
                    proof {
                        assert(answers[k as int].1 is Err);
                        assert(false);
                    }
                    return Ok(TileBatch::new(zoom));
                },
            }
        }
        let ghost all = brought(answers);
        proof {
            assert forall|a: int, b: int| 0 <= a < b < all.len() implies (#[trigger] all[a]).0 != (
            #[trigger] all[b]).0 by {
                assert(finished[a] == answers[a].0);
                assert(finished[b] == answers[b].0);
            }
        }
        let mut batch = TileBatch::new(zoom);
        while done.len() > 0
            invariant
                n == answers.len(),
                all == brought(answers),
                distinct(all),
                all_ok(answers),
                done@.len() <= n,
                forall|j: int|
                    0 <= j < done@.len() ==> (#[trigger] answers[j]) == (
                        done@[j].tile,
                        seen(done@[j].outcome),
                    ),
                forall|j: int| 0 <= j < n ==> (#[trigger] answers[j]).0.z == zoom,
                batch.wf(),
                batch.zoom_level() == zoom,
                forall|t: TileIndex|
                    batch@.contains_key(t) <==> exists|j: int|
                        done@.len() <= j < n && (#[trigger] all[j]).0 == t,
                forall|j: int| done@.len() <= j < n ==> batch@[(#[trigger] all[j]).0] == all[j].1,
            decreases done@.len(),
        {
            let ghost k = done@.len() - 1;
            let ghost held = batch@;
            let c = done.pop().unwrap();
            let t = c.tile;
            match c.outcome {
                Ok(bytes) => {
                    proof {
                        assert(answers[k] == (t, Ok::<Seq<u8>, FetchError>(bytes@)));
                        assert(all[k] == (t, bytes@));
                    }
                    let taken = batch.insert(t, bytes);
                    proof {
                        assert(taken);
                        assert forall|u: TileIndex|
                            batch@.contains_key(u) <==> exists|j: int|
                                k <= j < n && (#[trigger] all[j]).0 == u by {
                            if batch@.contains_key(u) && u != t {
                                assert(held.contains_key(u));
                            }
                            if u == t {
                                assert(all[k].0 == u);
                            }
                        }
                        assert forall|j: int| k <= j < n implies batch@[(#[trigger] all[j]).0]
                            == all[j].1 by {
                            if j > k {
                                assert(all[k].0 != all[j].0);
                            }
                        }
                    }
                },
                Err(e) => {
                    proof {
                        assert(answers[k].1 is Ok);
                        assert(false);
                    }
                    return Err(e);
                },
            }
        }
        proof {
            assert forall|t: TileIndex| batch@.contains_key(t) == holds(all, t) by {
                if holds(all, t) {
                    let p = position(all, t);
                    assert(all[p].0 == t);
                }
            }
            assert forall|t: TileIndex| holds(all, t) implies batch@[t] == as_map(all)[t] by {
                let p = position(all, t);
                lemma_lookup(all, p);
            }
            assert(batch@ =~= as_map(all));
            assert forall|t: TileIndex| batch@.contains_key(t) <==> plan.contains(t) by {
                if batch@.contains_key(t) {
                    let p = position(all, t);
                    assert(finished[p] == t);
                    assert(finished.contains(t));
                }
                if plan.contains(t) {
                    assert(finished.contains(t));
                    let p = finished.index_of(t);
                    assert(all[p].0 == t);
                }
            }
        }
        Ok(batch)
    }
}

} // verus!
