//! A map keyed by chunk position: a hash map under a packed integer key,
//! with its keys listed in the order they were first inserted.

use std::collections::HashMap;
use vstd::prelude::*;

verus! {

broadcast use vstd::std_specs::hash::group_hash_axioms;

/// Position of a chunk in chunk coordinates.
#[derive(Debug, Clone, Copy, PartialEq, Eq, Hash, Structural)]
pub struct ChunkPos {
    pub x: i32,
    pub y: i32,
    pub z: i32,
}

impl ChunkPos {
    pub fn new(x: i32, y: i32, z: i32) -> (r: Self)
        ensures
            r == (ChunkPos { x, y, z }),
    {
        ChunkPos { x, y, z }
    }
}

/// The hash key of a chunk: its three coordinates, each shifted to be
/// non-negative, as the digits of a number in base 2^32.
pub open spec fn chunk_key(p: ChunkPos) -> int {
    (p.x + 0x8000_0000) * 0x1_0000_0000_0000_0000 + (p.y + 0x8000_0000) * 0x1_0000_0000 + (p.z
        + 0x8000_0000)
}

proof fn lemma_chunk_key_digits(p: ChunkPos)
    ensures
        0 <= chunk_key(p) < 0x1_0000_0000_0000_0000_0000_0000,
        chunk_key(p) / 0x1_0000_0000_0000_0000 == p.x + 0x8000_0000,
        (chunk_key(p) % 0x1_0000_0000_0000_0000) / 0x1_0000_0000 == p.y + 0x8000_0000,
        chunk_key(p) % 0x1_0000_0000 == p.z + 0x8000_0000,
{
    let a: int = p.x + 0x8000_0000;
    let b: int = p.y + 0x8000_0000;
    let c: int = p.z + 0x8000_0000;
    assert(0 <= b * 0x1_0000_0000 <= 0xFFFF_FFFF * 0x1_0000_0000) by (nonlinear_arith)
        requires
            0 <= b <= 0xFFFF_FFFF,
    ;
    assert(0 <= a * 0x1_0000_0000_0000_0000 <= 0xFFFF_FFFF * 0x1_0000_0000_0000_0000) by (nonlinear_arith)
        requires
            0 <= a <= 0xFFFF_FFFF,
    ;
    let r = b * 0x1_0000_0000 + c;
    vstd::arithmetic::div_mod::lemma_fundamental_div_mod_converse(
        chunk_key(p),
        0x1_0000_0000_0000_0000,
        a,
        r,
    );
    vstd::arithmetic::div_mod::lemma_fundamental_div_mod_converse(r, 0x1_0000_0000, b, c);
}

/// Distinct chunks have distinct keys.
proof fn lemma_chunk_key_injective(p: ChunkPos, q: ChunkPos)
    ensures
        chunk_key(p) == chunk_key(q) <==> p == q,
{
    lemma_chunk_key_digits(p);
    lemma_chunk_key_digits(q);
}

/// The hash key of `p` (see [`chunk_key`]).
fn key_of(p: ChunkPos) -> (r: u128)
    ensures
        r == chunk_key(p),
{
    proof {
        lemma_chunk_key_digits(p);
    }
    let a: u128 = (p.x as i64 + 0x8000_0000i64) as u128;
    let b: u128 = (p.y as i64 + 0x8000_0000i64) as u128;
    let c: u128 = (p.z as i64 + 0x8000_0000i64) as u128;
    proof {
        assert(b * 0x1_0000_0000 <= 0xFFFF_FFFF * 0x1_0000_0000) by (nonlinear_arith)
            requires
                b <= 0xFFFF_FFFF,
        ;
        assert(a * 0x1_0000_0000_0000_0000 <= 0xFFFF_FFFF * 0x1_0000_0000_0000_0000) by (nonlinear_arith)
            requires
                a <= 0xFFFF_FFFF,
        ;
    }
    a * 0x1_0000_0000_0000_0000u128 + b * 0x1_0000_0000u128 + c
}

/// Whether a chunk lies within `h` chunks of the center horizontally and
/// `v` chunks vertically.
pub open spec fn in_stream(p: ChunkPos, cx: int, cy: int, cz: int, h: int, v: int) -> bool {
    &&& (p.x - cx <= h && cx - p.x <= h)
    &&& (p.z - cz <= h && cz - p.z <= h)
    &&& (p.y - cy <= v && cy - p.y <= v)
}

/// The streamed region is the box of chunks at most `h` away from the
/// center along x and z and at most `v` away along y: every chunk in it
/// lies within those bounds, the center and the box's corners are in it
/// (for non-negative radii), and a chunk no farther from the center than a
/// streamed chunk along each axis is streamed too.
pub proof fn lemma_stream_region_is_a_box(p: ChunkPos, q: ChunkPos, cx: int, cy: int, cz: int, h: int, v: int)
    ensures
        in_stream(p, cx, cy, cz, h, v) ==> -h <= p.x - cx <= h && -h <= p.z - cz <= h && -v <= p.y - cy <= v,
        0 <= h && 0 <= v && p.x == cx && p.y == cy && p.z == cz ==> in_stream(p, cx, cy, cz, h, v),
        0 <= h && 0 <= v && (p.x - cx == h || cx - p.x == h) && (p.z - cz == h || cz - p.z == h) && (p.y
            - cy == v || cy - p.y == v) ==> in_stream(p, cx, cy, cz, h, v),
        in_stream(p, cx, cy, cz, h, v) && (q.x - cx) * (q.x - cx) <= (p.x - cx) * (p.x - cx) && (q.y
            - cy) * (q.y - cy) <= (p.y - cy) * (p.y - cy) && (q.z - cz) * (q.z - cz) <= (p.z - cz) * (
        p.z - cz) ==> in_stream(q, cx, cy, cz, h, v),
{
    if in_stream(p, cx, cy, cz, h, v) && (q.x - cx) * (q.x - cx) <= (p.x - cx) * (p.x - cx) && (q.y
        - cy) * (q.y - cy) <= (p.y - cy) * (p.y - cy) && (q.z - cz) * (q.z - cz) <= (p.z - cz) * (p.z
        - cz) {
        lemma_square_le_bounds(q.x - cx, p.x - cx, h);
        lemma_square_le_bounds(q.y - cy, p.y - cy, v);
        lemma_square_le_bounds(q.z - cz, p.z - cz, h);
    }
}

/// An offset whose square is at most another's is bounded as that one is.
proof fn lemma_square_le_bounds(a: int, b: int, r: int)
    requires
        a * a <= b * b,
        -r <= b <= r,
    ensures
        -r <= a <= r,
{
    if a > r {
        assert(a * a > b * b) by (nonlinear_arith)
            requires
                a > r,
                -r <= b <= r,
        ;
    }
    if a < -r {
        assert(a * a > b * b) by (nonlinear_arith)
            requires
                a < -r,
                -r <= b <= r,
        ;
    }
}

/// Whether a chunk lies within the streamed region around the center.
pub fn chunk_in_stream(
    pos: ChunkPos,
    center_x: i32,
    center_y: i32,
    center_z: i32,
    horizontal_radius: i32,
    vertical_radius: i32,
) -> (r: bool)
    ensures
        r == in_stream(
            pos,
            center_x as int,
            center_y as int,
            center_z as int,
            horizontal_radius as int,
            vertical_radius as int,
        ),
{
    let dx = pos.x as i64 - center_x as i64;
    let dz = pos.z as i64 - center_z as i64;
    let dy = pos.y as i64 - center_y as i64;
    let h = horizontal_radius as i64;
    let v = vertical_radius as i64;
    (dx <= h && -dx <= h) && (dz <= h && -dz <= h) && (dy <= v && -dy <= v)
}

/// A map from chunk positions to values.
pub struct ChunkMap<V> {
    map: HashMap<u128, V>,
    order: Vec<ChunkPos>,
}

impl<V> View for ChunkMap<V> {
    type V = Map<ChunkPos, V>;

    closed spec fn view(&self) -> Map<ChunkPos, V> {
        Map::new(
            |p: ChunkPos| self.map@.contains_key(chunk_key(p) as u128),
            |p: ChunkPos| self.map@[chunk_key(p) as u128],
        )
    }
}

impl<V> ChunkMap<V> {
    /// The key list names each key of the hash map once.
    pub closed spec fn wf(&self) -> bool {
        &&& self.order@.no_duplicates()
        &&& forall|p: ChunkPos| #[trigger] self.order@.contains(p) <==> self.map@.contains_key(chunk_key(p) as u128)
    }

    /// The keys, each once, in the order they were first inserted.
    pub closed spec fn key_seq(&self) -> Seq<ChunkPos> {
        self.order@
    }

    pub proof fn lemma_view(&self)
        requires
            self.wf(),
        ensures
            self@.dom().finite(),
            forall|p: ChunkPos| #[trigger] self@.dom().contains(p) <==> self.key_seq().contains(p),
            self.key_seq().no_duplicates(),
            self@.dom().len() == self.key_seq().len(),
    {
        broadcast use vstd::seq_lib::seq_to_set_is_finite;

        assert(self@.dom() =~= self.order@.to_set());
        self.order@.unique_seq_to_set();
    }

    pub fn new() -> (r: Self)
        ensures
            r.wf(),
            r@ == Map::<ChunkPos, V>::empty(),
    {
        let r = ChunkMap { map: HashMap::new(), order: Vec::new() };
        assert(r@ =~= Map::<ChunkPos, V>::empty());
        r
    }

    /// Position of `pos` in the key list.
    fn index_of(&self, pos: ChunkPos) -> (r: Option<usize>)
        ensures
            match r {
                Some(k) => k < self.order@.len() && self.order@[k as int] == pos,
                None => !self.order@.contains(pos),
            },
    {
        let mut k: usize = 0;
        while k < self.order.len()
            invariant
                k <= self.order@.len(),
                forall|j: int| 0 <= j < k ==> self.order@[j] != pos,
            decreases self.order@.len() - k,
        {
            if self.order[k] == pos {
                return Some(k);
            }
            k = k + 1;
        }
        None
    }

    /// The value stored for `pos`, if any.
    pub fn get_ref(&self, pos: ChunkPos) -> (r: Option<&V>)
        requires
            self.wf(),
        ensures
            match r {
                Some(v) => self@.dom().contains(pos) && *v == self@[pos],
                None => !self@.dom().contains(pos),
            },
    {
        let k = key_of(pos);
        self.map.get(&k)
    }

    pub fn contains_key(&self, pos: ChunkPos) -> (r: bool)
        requires
            self.wf(),
        ensures
            r == self@.dom().contains(pos),
    {
        let k = key_of(pos);
        self.map.contains_key(&k)
    }

    pub fn len(&self) -> (r: usize)
        requires
            self.wf(),
        ensures
            r == self@.dom().len(),
    {
        proof {
            self.lemma_view();
        }
        self.order.len()
    }

    pub fn is_empty(&self) -> (r: bool)
        requires
            self.wf(),
        ensures
            r == (self@.dom().len() == 0),
    {
        self.len() == 0
    }

    pub fn insert(&mut self, pos: ChunkPos, v: V)
        requires
            old(self).wf(),
        ensures
            final(self).wf(),
            final(self)@ == old(self)@.insert(pos, v),
            final(self).key_seq() == if old(self)@.dom().contains(pos) {
                old(self).key_seq()
            } else {
                old(self).key_seq().push(pos)
            },
    {
        let k = key_of(pos);
        if !self.map.contains_key(&k) {
            self.order.push(pos);
        }
        self.map.insert(k, v);
        proof {
            assert forall|p: ChunkPos| #[trigger] self.order@.contains(p) <==> self.map@.contains_key(
                chunk_key(p) as u128,
            ) by {
                lemma_chunk_key_injective(p, pos);
                lemma_chunk_key_digits(p);
                lemma_chunk_key_digits(pos);
                if p == pos {
                    assert(self.order@.contains(pos)) by {
                        if !old(self).order@.contains(pos) {
                            assert(self.order@[self.order@.len() - 1] == pos);
                        }
                    }
                }
                if self.order@.contains(p) && p != pos {
                    if !old(self).order@.contains(pos) {
                        let j = choose|j: int| 0 <= j < self.order@.len() && self.order@[j] == p;
                        assert(old(self).order@[j] == p);
                    }
                }
                if old(self).order@.contains(p) && !old(self).order@.contains(pos) {
                    let j = choose|j: int| 0 <= j < old(self).order@.len() && old(self).order@[j] == p;
                    assert(self.order@[j] == p);
                }
            }
            assert forall|p: ChunkPos| true implies (old(self)@.insert(pos, v).dom().contains(p)
                <==> self@.dom().contains(p)) by {
                lemma_chunk_key_injective(p, pos);
                lemma_chunk_key_digits(p);
                lemma_chunk_key_digits(pos);
            }
            assert forall|p: ChunkPos| #[trigger] self@.dom().contains(p) implies old(self)@.insert(pos, v)[p]
                == self@[p] by {
                lemma_chunk_key_injective(p, pos);
                lemma_chunk_key_digits(p);
                lemma_chunk_key_digits(pos);
            }
            assert(self@ =~= old(self)@.insert(pos, v));
        }
    }

    pub fn remove(&mut self, pos: ChunkPos) -> (r: Option<V>)
        requires
            old(self).wf(),
        ensures
            final(self).wf(),
            final(self)@ == old(self)@.remove(pos),
            r matches Some(v) ==> old(self)@.dom().contains(pos) && v == old(self)@[pos],
            r is None ==> !old(self)@.dom().contains(pos),
    {
        let k = key_of(pos);
        let r = self.map.remove(&k);
        match self.index_of(pos) {
            Some(i) => {
                self.order.remove(i);
            },
            None => {},
        }
        proof {
            assert forall|p: ChunkPos| #[trigger] self.order@.contains(p) <==> self.map@.contains_key(
                chunk_key(p) as u128,
            ) by {
                lemma_chunk_key_injective(p, pos);
                lemma_chunk_key_digits(p);
                lemma_chunk_key_digits(pos);
                if old(self).order@.contains(pos) {
                    let i = choose|i: int| 0 <= i < old(self).order@.len() && old(self).order@[i] == pos;
                    assert(old(self).order@.remove(i) == self.order@) by {
                        assert(self.order@ =~= old(self).order@.remove(i));
                    }
                    if self.order@.contains(p) {
                        let j = choose|j: int| 0 <= j < self.order@.len() && self.order@[j] == p;
                        if j < i {
                            assert(old(self).order@[j] == p);
                        } else {
                            assert(old(self).order@[j + 1] == p);
                            assert(j + 1 != i);
                        }
                    }
                    if old(self).order@.contains(p) && p != pos {
                        let j = choose|j: int| 0 <= j < old(self).order@.len() && old(self).order@[j] == p;
                        if j < i {
                            assert(self.order@[j] == p);
                        } else {
                            assert(self.order@[j - 1] == p);
                        }
                    }
                }
            }
            assert(self.order@.no_duplicates()) by {
                if old(self).order@.contains(pos) {
                    let i = choose|i: int| 0 <= i < old(self).order@.len() && old(self).order@[i] == pos;
                    assert(self.order@ =~= old(self).order@.remove(i));
                }
            }
            assert forall|p: ChunkPos| true implies (old(self)@.remove(pos).dom().contains(p)
                <==> self@.dom().contains(p)) by {
                lemma_chunk_key_injective(p, pos);
                lemma_chunk_key_digits(p);
                lemma_chunk_key_digits(pos);
            }
            assert forall|p: ChunkPos| #[trigger] self@.dom().contains(p) implies old(self)@.remove(pos)[p]
                == self@[p] by {
                lemma_chunk_key_injective(p, pos);
                lemma_chunk_key_digits(p);
                lemma_chunk_key_digits(pos);
            }
            assert(self@ =~= old(self)@.remove(pos));
        }
        r
    }

    /// Removes every entry.
    pub fn clear(&mut self)
        ensures
            final(self).wf(),
            final(self)@ == Map::<ChunkPos, V>::empty(),
    {
        self.map.clear();
        self.order.clear();
        assert(self@ =~= Map::<ChunkPos, V>::empty());
    }

    /// The keys in insertion order.
    pub fn keys(&self) -> (r: Vec<ChunkPos>)
        ensures
            r@ == self.key_seq(),
    {
        let mut out: Vec<ChunkPos> = Vec::new();
        let mut k: usize = 0;
        while k < self.order.len()
            invariant
                k <= self.order@.len(),
                out@ == self.order@.take(k as int),
            decreases self.order@.len() - k,
        {
            out.push(self.order[k]);
            k = k + 1;
            assert(out@ =~= self.order@.take(k as int));
        }
        assert(self.order@.take(k as int) =~= self.order@);
        out
    }
}

impl<V: Copy> ChunkMap<V> {
    pub fn get(&self, pos: ChunkPos) -> (r: Option<V>)
        requires
            self.wf(),
        ensures
            r == if self@.dom().contains(pos) {
                Some(self@[pos])
            } else {
                None
            },
    {
        match self.get_ref(pos) {
            Some(v) => Some(*v),
            None => None,
        }
    }

    /// The values in key insertion order.
    pub fn values(&self) -> (r: Vec<V>)
        requires
            self.wf(),
        ensures
            r@.len() == self.key_seq().len(),
            forall|j: int| 0 <= j < r@.len() ==> #[trigger] r@[j] == self@[self.key_seq()[j]],
    {
        let mut out: Vec<V> = Vec::new();
        let mut k: usize = 0;
        while k < self.order.len()
            invariant
                self.wf(),
                k <= self.order@.len(),
                out@.len() == k,
                forall|j: int| 0 <= j < k ==> #[trigger] out@[j] == self@[self.order@[j]],
            decreases self.order@.len() - k,
        {
            let p = self.order[k];
            assert(self.order@.contains(p));
            match self.get_ref(p) {
                Some(v) => {
                    out.push(*v);
                },
                None => {
                    return out;
                },
            }
            k = k + 1;
        }
        out
    }

    /// Keeps the entries whose chunk lies within `h` chunks of the center
    /// horizontally and `v` chunks vertically.
    pub fn retain_in_stream(&mut self, cx: i32, cy: i32, cz: i32, h: i32, v: i32)
        requires
            old(self).wf(),
        ensures
            final(self).wf(),
            final(self)@ == old(self)@.restrict(
                old(self)@.dom().filter(|p: ChunkPos| in_stream(p, cx as int, cy as int, cz as int, h as int, v as int)),
            ),
    {
        let ghost keep = |p: ChunkPos| in_stream(p, cx as int, cy as int, cz as int, h as int, v as int);
        let ghost target = old(self)@.restrict(old(self)@.dom().filter(keep));
        let mut out: ChunkMap<V> = ChunkMap::new();
        let mut k: usize = 0;
        while k < self.order.len()
            invariant
                self.wf(),
                *self == *old(self),
                out.wf(),
                k <= self.order@.len(),
                keep == (|p: ChunkPos| in_stream(p, cx as int, cy as int, cz as int, h as int, v as int)),
                target == old(self)@.restrict(old(self)@.dom().filter(keep)),
                forall|p: ChunkPos| #[trigger] out@.dom().contains(p) <==> (self.order@.take(k as int).contains(p) && keep(p)),
                forall|p: ChunkPos| #[trigger] out@.dom().contains(p) ==> out@[p] == self@[p],
            decreases self.order@.len() - k,
        {
            let p = self.order[k];
            assert(self.order@.contains(p));
            let ghost out0 = out@;
            if chunk_in_stream(p, cx, cy, cz, h, v) {
                match self.get_ref(p) {
                    Some(val) => {
                        out.insert(p, *val);
                    },
                    None => {},
                }
            }
            proof {
                let t0 = self.order@.take(k as int);
                let t1 = self.order@.take(k + 1);
                assert(t1 =~= t0.push(p));
                assert forall|q: ChunkPos| #[trigger] out@.dom().contains(q) <==> (t1.contains(q) && keep(q)) by {
                    if q == p {
                        assert(t1[k as int] == q);
                    }
                    if t0.contains(q) {
                        let j = choose|j: int| 0 <= j < t0.len() && t0[j] == q;
                        assert(t1[j] == q);
                    }
                    if t1.contains(q) {
                        let j = choose|j: int| 0 <= j < t1.len() && t1[j] == q;
                        if j < k {
                            assert(t0[j] == q);
                        }
                    }
                }
            }
            k = k + 1;
        }
        proof {
            assert(self.order@.take(k as int) =~= self.order@);
            self.lemma_view();
            assert(out@ =~= target);
        }
        *self = out;
    }
}

} // verus!
