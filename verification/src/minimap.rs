//! Minimap zoom and the queue of map tiles waiting to be decoded.

use vstd::prelude::*;

verus! {

/// Blocks per minimap pixel at each zoom level, closest first.
pub const ZOOM_LEVELS: [u32; 5] = [1, 2, 4, 8, 16];

/// How many tile decodes run at once.
pub const MAX_DECODE_IN_FLIGHT: usize = 8;

/// How many tiles may wait for decoding; beyond that the oldest is dropped.
pub const MAX_PENDING_DECODE: usize = 64;

/// The zoom level after a key press: zooming in moves toward the last
/// level, zooming out toward the first, neither beyond the ends (when both
/// keys are pressed, in then out).
pub fn zoom_index_after(index: usize, zoom_in: bool, zoom_out: bool) -> (r: usize)
    requires
        index < 5,
    ensures
        r < 5,
        r == ({
            let a = if zoom_in { if index + 1 < 4 { index + 1 } else { 4 } } else { index as int };
            if zoom_out { if a >= 1 { a - 1 } else { 0 } } else { a }
        }),
{
    let mut i = index;
    if zoom_in {
        i = if i + 1 < 4 { i + 1 } else { 4 };
    }
    if zoom_out {
        i = if i >= 1 { i - 1 } else { 0 };
    }
    i
}

/// Blocks per pixel of a zoom level.
pub fn zoom_bpp(index: usize) -> (r: u32)
    requires
        index < 5,
    ensures
        r == ZOOM_LEVELS[index as int],
{
    ZOOM_LEVELS[index]
}

/// Pixels of a minimap image where no map tile is loaded yet: every pixel
/// `color` and opaque, laid out four bytes to a pixel (RGBA). A last,
/// partial pixel gets the first bytes of that pattern.
pub fn fill_unloaded_rgba(len: usize, color: [u8; 3]) -> (r: Vec<u8>)
    ensures
        r@.len() == len,
        forall|i: int|
            0 <= i < len ==> #[trigger] r@[i] == if i % 4 == 3 {
                255u8
            } else {
                color[i % 4]
            },
{
    let mut rgba: Vec<u8> = Vec::with_capacity(len);
    let mut i: usize = 0;
    while i < len
        invariant
            i <= len,
            rgba@.len() == i,
            forall|k: int|
                0 <= k < i ==> #[trigger] rgba@[k] == if k % 4 == 3 {
                    255u8
                } else {
                    color[k % 4]
                },
        decreases len - i,
    {
        let b: u8 = if i % 4 == 3 {
            255
        } else {
            color[i % 4]
        };
        rgba.push(b);
        i = i + 1;
    }
    rgba
}

/// A compressed map tile: its tile coordinates and bytes.
pub type PendingTile = (i32, i32, Vec<u8>);

/// Position of the first waiting tile at `(mx, mz)`, or -1.
pub open spec fn tile_index(p: Seq<PendingTile>, mx: i32, mz: i32) -> int
    decreases p.len(),
{
    if p.len() == 0 {
        -1
    } else {
        let r = tile_index(p.drop_last(), mx, mz);
        if r >= 0 {
            r
        } else if p.last().0 == mx && p.last().1 == mz {
            p.len() - 1
        } else {
            -1
        }
    }
}

proof fn lemma_tile_index(p: Seq<PendingTile>, mx: i32, mz: i32)
    ensures
        -1 <= tile_index(p, mx, mz) < p.len(),
        tile_index(p, mx, mz) >= 0 ==> p[tile_index(p, mx, mz)].0 == mx && p[tile_index(
            p,
            mx,
            mz,
        )].1 == mz,
        forall|j: int|
            0 <= j < p.len() && (tile_index(p, mx, mz) < 0 || j < tile_index(p, mx, mz)) ==> !(
            p[j].0 == mx && p[j].1 == mz),
    decreases p.len(),
{
    if p.len() > 0 {
        lemma_tile_index(p.drop_last(), mx, mz);
        assert forall|j: int| 0 <= j < p.len() - 1 implies p.drop_last()[j] == p[j] by {}
    }
}

/// The waiting tiles after `(mx, mz, blob)` arrives: it replaces a waiting
/// tile at the same coordinates in place; otherwise it joins the end, after
/// the oldest tile was dropped if [`MAX_PENDING_DECODE`] were waiting.
pub open spec fn enqueued(p: Seq<PendingTile>, mx: i32, mz: i32, blob: Vec<u8>) -> Seq<PendingTile> {
    let k = tile_index(p, mx, mz);
    if k >= 0 {
        p.update(k, (mx, mz, blob))
    } else if p.len() >= MAX_PENDING_DECODE {
        p.skip(1).push((mx, mz, blob))
    } else {
        p.push((mx, mz, blob))
    }
}

/// How many waiting tiles a pump starts.
pub open spec fn pump_count(waiting: int, running: int) -> int {
    if running >= MAX_DECODE_IN_FLIGHT {
        0
    } else if waiting < MAX_DECODE_IN_FLIGHT - running {
        waiting
    } else {
        MAX_DECODE_IN_FLIGHT - running
    }
}

/// The results of a poll: `(task, None)` while the task runs,
/// `(task, Some(None))` when decoding failed, `(task, Some(Some(tile)))`
/// when it produced a tile.
pub open spec fn still_decoding<T, R>(polled: Seq<(T, Option<Option<R>>)>) -> Seq<T>
    decreases polled.len(),
{
    if polled.len() == 0 {
        Seq::empty()
    } else {
        let prev = still_decoding(polled.drop_last());
        if polled.last().1 is None {
            prev.push(polled.last().0)
        } else {
            prev
        }
    }
}

/// The tiles a poll produced, in order.
pub open spec fn decoded_tiles<T, R>(polled: Seq<(T, Option<Option<R>>)>) -> Seq<R>
    decreases polled.len(),
{
    if polled.len() == 0 {
        Seq::empty()
    } else {
        let prev = decoded_tiles(polled.drop_last());
        match polled.last().1 {
            Some(Some(tile)) => prev.push(tile),
            _ => prev,
        }
    }
}

/// Map tiles waiting to be decoded, oldest first, and the decodes running.
pub struct MinimapDecodeQueue<T> {
    pending: Vec<PendingTile>,
    in_flight: Vec<T>,
}

impl<T> MinimapDecodeQueue<T> {
    pub closed spec fn pending_view(&self) -> Seq<PendingTile> {
        self.pending@
    }

    pub closed spec fn in_flight_view(&self) -> Seq<T> {
        self.in_flight@
    }

    /// An empty queue.
    pub fn new() -> (r: Self)
        ensures
            r.pending_view().len() == 0,
            r.in_flight_view().len() == 0,
    {
        MinimapDecodeQueue { pending: Vec::new(), in_flight: Vec::new() }
    }

    /// Queues a compressed tile (see [`enqueued`]).
    pub fn enqueue(&mut self, mx: i32, mz: i32, compressed: Vec<u8>)
        ensures
            final(self).pending_view() == enqueued(old(self).pending_view(), mx, mz, compressed),
            final(self).in_flight_view() == old(self).in_flight_view(),
    {
        proof {
            lemma_tile_index(self.pending@, mx, mz);
        }
        let mut k: usize = 0;
        while k < self.pending.len()
            invariant
                k <= self.pending@.len(),
                self.pending@ == old(self).pending@,
                self.in_flight@ == old(self).in_flight@,
                forall|j: int| 0 <= j < k ==> !(self.pending@[j].0 == mx && self.pending@[j].1 == mz),
                -1 <= tile_index(self.pending@, mx, mz) < self.pending@.len(),
                tile_index(self.pending@, mx, mz) >= 0 ==> self.pending@[tile_index(
                    self.pending@,
                    mx,
                    mz,
                )].0 == mx && self.pending@[tile_index(self.pending@, mx, mz)].1 == mz,
                forall|j: int|
                    0 <= j < self.pending@.len() && (tile_index(self.pending@, mx, mz) < 0 || j
                        < tile_index(self.pending@, mx, mz)) ==> !(self.pending@[j].0 == mx
                        && self.pending@[j].1 == mz),
            decreases self.pending@.len() - k,
        {
            if self.pending[k].0 == mx && self.pending[k].1 == mz {
                assert(tile_index(self.pending@, mx, mz) == k);
                self.pending.set(k, (mx, mz, compressed));
                return;
            }
            k = k + 1;
        }
        assert(tile_index(self.pending@, mx, mz) < 0);
        if self.pending.len() >= MAX_PENDING_DECODE {
            self.pending.remove(0);
        }
        self.pending.push((mx, mz, compressed));
    }

    /// Drops every waiting tile.
    pub fn clear(&mut self)
        ensures
            final(self).pending_view().len() == 0,
            final(self).in_flight_view() == old(self).in_flight_view(),
    {
        self.pending.clear();
    }

    /// Starts decoding waiting tiles, oldest first, while fewer than
    /// [`MAX_DECODE_IN_FLIGHT`] decodes run; `spawn` starts the decode of
    /// one tile and returns its task.
    pub fn pump<F>(&mut self, spawn: F) where F: Fn(i32, i32, Vec<u8>) -> T
        requires
            forall|mx: i32, mz: i32, b: Vec<u8>| #[trigger] spawn.requires((mx, mz, b)),
        ensures
            ({
                let n = pump_count(old(self).pending_view().len() as int, old(self).in_flight_view().len() as int);
                &&& final(self).pending_view() == old(self).pending_view().skip(n)
                &&& final(self).in_flight_view().len() == old(self).in_flight_view().len() + n
                &&& final(self).in_flight_view().take(old(self).in_flight_view().len() as int)
                    == old(self).in_flight_view()
                &&& forall|i: int|
                    0 <= i < n ==> {
                        let t = #[trigger] old(self).pending_view()[i];
                        spawn.ensures(
                            (t.0, t.1, t.2),
                            final(self).in_flight_view()[old(self).in_flight_view().len() + i],
                        )
                    }
            }),
    {
        let ghost p0 = self.pending@;
        let ghost f0 = self.in_flight@;
        let ghost n = pump_count(p0.len() as int, f0.len() as int);
        let mut started: usize = 0;
        while self.in_flight.len() < MAX_DECODE_IN_FLIGHT && self.pending.len() > 0
            invariant
                forall|mx: i32, mz: i32, b: Vec<u8>| #[trigger] spawn.requires((mx, mz, b)),
                started <= p0.len(),
                self.pending@ == p0.skip(started as int),
                self.in_flight@.len() == f0.len() + started,
                self.in_flight@.take(f0.len() as int) == f0,
                started > 0 ==> f0.len() + started <= MAX_DECODE_IN_FLIGHT,
                started <= n,
                n == pump_count(p0.len() as int, f0.len() as int),
                forall|i: int|
                    0 <= i < started ==> {
                        let t = #[trigger] p0[i];
                        spawn.ensures((t.0, t.1, t.2), self.in_flight@[f0.len() + i])
                    },
            decreases self.pending@.len(),
        {
            let (mx, mz, blob) = self.pending.remove(0);
            assert(p0[started as int] == (mx, mz, blob));
            let task = spawn(mx, mz, blob);
            let ghost before = self.in_flight@;
            self.in_flight.push(task);
            assert(self.in_flight@.take(f0.len() as int) =~= before.take(f0.len() as int));
            started = started + 1;
            assert(self.pending@ =~= p0.skip(started as int));
        }
    }

    /// Takes the running decodes out for polling; they come back through
    /// [`MinimapDecodeQueue::drain_ready`].
    pub fn take_in_flight(&mut self) -> (r: Vec<T>)
        ensures
            r@ == old(self).in_flight_view(),
            final(self).in_flight_view().len() == 0,
            final(self).pending_view() == old(self).pending_view(),
    {
        let mut out: Vec<T> = Vec::new();
        std::mem::swap(&mut out, &mut self.in_flight);
        out
    }

    /// Takes back polled decodes: running ones return to the running list,
    /// in order; the tiles of finished ones are returned, in order, and
    /// failed decodes are dropped.
    pub fn drain_ready<R>(&mut self, polled: Vec<(T, Option<Option<R>>)>) -> (r: Vec<R>)
        ensures
            r@ == decoded_tiles(polled@),
            final(self).in_flight_view() == old(self).in_flight_view() + still_decoding(polled@),
            final(self).pending_view() == old(self).pending_view(),
    {
        let ghost orig = polled@;
        let ghost f0 = self.in_flight@;
        let mut rest = polled;
        let total = rest.len();
        let mut ready: Vec<R> = Vec::new();
        let mut n: usize = 0;
        while rest.len() > 0
            invariant
                orig.len() == total,
                n <= orig.len(),
                rest@ == orig.skip(n as int),
                self.pending@ == old(self).pending@,
                self.in_flight@ == f0 + still_decoding(orig.take(n as int)),
                ready@ == decoded_tiles(orig.take(n as int)),
            decreases rest@.len(),
        {
            assert(orig.take(n as int + 1).drop_last() =~= orig.take(n as int));
            let (t, res) = rest.remove(0);
            assert(orig.take(n as int + 1).last() == (t, res));
            match res {
                None => {
                    self.in_flight.push(t);
                },
                Some(Some(tile)) => {
                    ready.push(tile);
                },
                Some(None) => {},
            }
            n = n + 1;
            assert(rest@ =~= orig.skip(n as int));
        }
        assert(orig.take(n as int) =~= orig);
        ready
    }
}


/// Whether two tile lists hold the same tiles.
pub fn same_tiles(a: &Vec<(i32, i32)>, b: &Vec<(i32, i32)>) -> (r: bool)
    ensures
        r == (a@.to_set() == b@.to_set()),
{
    let mut i: usize = 0;
    while i < a.len()
        invariant
            i <= a@.len(),
            forall|j: int| 0 <= j < i ==> b@.contains(#[trigger] a@[j]),
        decreases a@.len() - i,
    {
        if !contains_tile(b, a[i]) {
            assert(a@.to_set().contains(a@[i as int]));
            assert(!b@.to_set().contains(a@[i as int]));
            return false;
        }
        i = i + 1;
    }
    let mut k: usize = 0;
    while k < b.len()
        invariant
            k <= b@.len(),
            forall|j: int| 0 <= j < a@.len() ==> b@.contains(#[trigger] a@[j]),
            forall|j: int| 0 <= j < k ==> a@.contains(#[trigger] b@[j]),
        decreases b@.len() - k,
    {
        if !contains_tile(a, b[k]) {
            assert(b@.to_set().contains(b@[k as int]));
            assert(!a@.to_set().contains(b@[k as int]));
            return false;
        }
        k = k + 1;
    }
    assert forall|t: (i32, i32)| a@.to_set().contains(t) <==> b@.to_set().contains(t) by {
        if a@.contains(t) {
            let j = choose|j: int| 0 <= j < a@.len() && a@[j] == t;
            assert(b@.contains(a@[j]));
        }
        if b@.contains(t) {
            let j = choose|j: int| 0 <= j < b@.len() && b@[j] == t;
            assert(a@.contains(b@[j]));
        }
    }
    assert(a@.to_set() =~= b@.to_set());
    true
}

/// Whether a tile list holds a tile.
pub fn contains_tile(v: &Vec<(i32, i32)>, t: (i32, i32)) -> (r: bool)
    ensures
        r == v@.contains(t),
{
    let mut i: usize = 0;
    while i < v.len()
        invariant
            i <= v@.len(),
            forall|j: int| 0 <= j < i ==> v@[j] != t,
        decreases v@.len() - i,
    {
        if v[i].0 == t.0 && v[i].1 == t.1 {
            assert(v@[i as int] == t);
            return true;
        }
        i = i + 1;
    }
    false
}

/// A copy of a tile list.
pub fn copy_tiles(v: &Vec<(i32, i32)>) -> (r: Vec<(i32, i32)>)
    ensures
        r@ == v@,
{
    let mut out: Vec<(i32, i32)> = Vec::new();
    let mut i: usize = 0;
    while i < v.len()
        invariant
            i <= v@.len(),
            out@ == v@.take(i as int),
        decreases v@.len() - i,
    {
        out.push(v[i]);
        assert(out@ =~= v@.take(i as int + 1));
        i = i + 1;
    }
    assert(v@.take(v@.len() as int) =~= v@);
    out
}

/// Which map tiles the server streams to the minimap: the tiles last
/// subscribed to, whether the minimap shows, and whether the subscription
/// must be sent again.
#[derive(Debug, Clone)]
pub struct MinimapSubscription {
    pub visible: bool,
    pub last_subscribed_tiles: Vec<(i32, i32)>,
    pub needs_subscribe: bool,
}

impl MinimapSubscription {
    /// Notes the tiles the minimap currently covers. While hidden, a
    /// subscription still held must be cancelled; while shown, a changed
    /// tile set becomes the subscription. Returns whether the tile cache
    /// must drop every tile outside `current`.
    pub fn mark_subscribe_if_needed(&mut self, current: &Vec<(i32, i32)>) -> (prune: bool)
        ensures
            final(self).visible == old(self).visible,
            if !old(self).visible {
                &&& !prune
                &&& final(self).last_subscribed_tiles@ == old(self).last_subscribed_tiles@
                &&& final(self).needs_subscribe == (old(self).needs_subscribe || old(
                    self,
                ).last_subscribed_tiles@.len() > 0)
            } else if current@.to_set() != old(self).last_subscribed_tiles@.to_set() {
                &&& prune
                &&& final(self).last_subscribed_tiles@ == current@
                &&& final(self).needs_subscribe
            } else {
                &&& !prune
                &&& final(self).last_subscribed_tiles@ == old(self).last_subscribed_tiles@
                &&& final(self).needs_subscribe == old(self).needs_subscribe
            },
    {
        if !self.visible {
            if self.last_subscribed_tiles.len() > 0 {
                self.needs_subscribe = true;
            }
            return false;
        }
        if !same_tiles(current, &self.last_subscribed_tiles) {
            self.last_subscribed_tiles = copy_tiles(current);
            self.needs_subscribe = true;
            return true;
        }
        false
    }

    /// The subscription to send, if one is due: while shown, active for the
    /// tiles `current`; while hidden, inactive with no tiles (and the held
    /// subscription is forgotten).
    pub fn build_subscribe_message(&mut self, current: &Vec<(i32, i32)>) -> (r: Option<(bool, Vec<(i32, i32)>)>)
        ensures
            final(self).visible == old(self).visible,
            !final(self).needs_subscribe,
            if !old(self).needs_subscribe {
                &&& r is None
                &&& final(self).last_subscribed_tiles@ == old(self).last_subscribed_tiles@
            } else if !old(self).visible {
                &&& r matches Some((active, tiles)) && !active && tiles@.len() == 0
                &&& final(self).last_subscribed_tiles@.len() == 0
            } else {
                &&& r matches Some((active, tiles)) && active && tiles@ == current@
                &&& final(self).last_subscribed_tiles@ == old(self).last_subscribed_tiles@
            },
    {
        if !self.needs_subscribe {
            return None;
        }
        self.needs_subscribe = false;
        if !self.visible {
            self.last_subscribed_tiles.clear();
            return Some((false, Vec::new()));
        }
        Some((true, copy_tiles(current)))
    }
}

} // verus!
