//! Remesh and GPU-upload request scheduling: urgency-ordered queues of chunk
//! requests with per-chunk versions, so that a newer request supersedes an
//! older one and finished work for a superseded version is discarded.

use vstd::prelude::*;
use crate::chunk_map::{ChunkMap, ChunkPos, in_stream};
use vstd::multiset::Multiset;

verus! {

broadcast use vstd::seq_lib::group_to_multiset_ensures;

/// At most this many meshes are built at a time.
pub const MAX_MESH_IN_FLIGHT: usize = 16;

/// At most this many background or visible remeshes start per frame.
pub const MAX_BACKGROUND_DISPATCH_PER_FRAME: usize = 8;

/// At most this many dirty chunks are scheduled per frame.
pub const MAX_DIRTY_DRAIN_PER_FRAME: usize = 32;

/// At most this many chunks are uploaded to the GPU per frame.
pub const MAX_UPLOAD_PER_FRAME: usize = 32;

/// How soon a chunk must be remeshed, least urgent first.
#[derive(Clone, Copy, Debug, PartialEq, Eq, Structural)]
pub enum RemeshUrgency {
    Background,
    Visible,
    Circuit,
    Interactive,
}

pub open spec fn urgency_rank(u: RemeshUrgency) -> int {
    match u {
        RemeshUrgency::Background => 0,
        RemeshUrgency::Visible => 1,
        RemeshUrgency::Circuit => 2,
        RemeshUrgency::Interactive => 3,
    }
}

/// Rank of an urgency: 0 for background up to 3 for interactive.
pub fn urgency_level(u: RemeshUrgency) -> (r: u8)
    ensures
        r as int == urgency_rank(u),
{
    match u {
        RemeshUrgency::Background => 0,
        RemeshUrgency::Visible => 1,
        RemeshUrgency::Circuit => 2,
        RemeshUrgency::Interactive => 3,
    }
}

/// One request to remesh (or upload) a chunk.
#[derive(Clone, Copy, Debug, PartialEq, Eq, Structural)]
pub struct MeshRequest {
    pub urgency: RemeshUrgency,
    pub distance_sq: i32,
    pub version: u64,
    pub pos: ChunkPos,
}

/// `a` is served before `b`: more urgent first; at equal urgency nearer
/// first; at equal distance the newer version first.
pub open spec fn served_before(a: MeshRequest, b: MeshRequest) -> bool {
    ||| urgency_rank(a.urgency) > urgency_rank(b.urgency)
    ||| urgency_rank(a.urgency) == urgency_rank(b.urgency) && a.distance_sq < b.distance_sq
    ||| urgency_rank(a.urgency) == urgency_rank(b.urgency) && a.distance_sq == b.distance_sq
        && a.version > b.version
}

/// Urgency `a` is declared after `b` in Background, Visible, Circuit,
/// Interactive: it is the more urgent of the two.
pub open spec fn declared_after(a: RemeshUrgency, b: RemeshUrgency) -> bool {
    ||| a is Visible && b is Background
    ||| a is Circuit && (b is Background || b is Visible)
    ||| a is Interactive && !(b is Interactive)
}

/// Urgencies rank in their declaration order: background remeshes least,
/// then visible ones, then circuit updates, then interactive edits; so a
/// request of a more urgent kind is served before one of a less urgent
/// kind, whatever their distances and versions.
pub proof fn lemma_urgency_follows_declaration(a: MeshRequest, b: MeshRequest)
    ensures
        urgency_rank(RemeshUrgency::Background) < urgency_rank(RemeshUrgency::Visible),
        urgency_rank(RemeshUrgency::Visible) < urgency_rank(RemeshUrgency::Circuit),
        urgency_rank(RemeshUrgency::Circuit) < urgency_rank(RemeshUrgency::Interactive),
        declared_after(a.urgency, b.urgency) ==> served_before(a, b) && !served_before(b, a),
        a.urgency == b.urgency ==> (served_before(a, b) <==> (a.distance_sq < b.distance_sq || (
        a.distance_sq == b.distance_sq && a.version > b.version))),
{
}

/// Whether `a` is served before `b`.
pub fn request_before(a: &MeshRequest, b: &MeshRequest) -> (r: bool)
    ensures
        r == served_before(*a, *b),
{
    let ua = urgency_level(a.urgency);
    let ub = urgency_level(b.urgency);
    if ua != ub {
        ua > ub
    } else if a.distance_sq != b.distance_sq {
        a.distance_sq < b.distance_sq
    } else {
        a.version > b.version
    }
}

/// Index of an entry that no other entry is served before.
fn index_of_first_served(heap: &Vec<MeshRequest>) -> (r: usize)
    requires
        heap@.len() > 0,
    ensures
        r < heap@.len(),
        forall|j: int| 0 <= j < heap@.len() ==> !served_before(#[trigger] heap@[j], heap@[r as int]),
{
    let mut best: usize = 0;
    let mut k: usize = 1;
    while k < heap.len()
        invariant
            1 <= k <= heap@.len(),
            best < k,
            forall|j: int| 0 <= j < k ==> !served_before(#[trigger] heap@[j], heap@[best as int]),
        decreases heap@.len() - k,
    {
        if request_before(&heap[k], &heap[best]) {
            best = k;
        }
        k = k + 1;
    }
    best
}

/// Pending requests ordered for service, with a version per chunk.
pub struct RemeshQueue {
    pending: ChunkMap<MeshRequest>,
    heap: Vec<MeshRequest>,
    versions: ChunkMap<u64>,
}

impl RemeshQueue {
    /// The latest request of each chunk that still waits.
    pub closed spec fn pending_view(&self) -> Map<ChunkPos, MeshRequest> {
        self.pending@
    }

    /// The current request version of each chunk.
    pub closed spec fn version_view(&self) -> Map<ChunkPos, u64> {
        self.versions@
    }

    /// The requests queued for service, superseded ones included.
    pub closed spec fn heap_view(&self) -> Multiset<MeshRequest> {
        self.heap@.to_multiset()
    }

    /// Pending chunks in the order they were first requested.
    pub closed spec fn pending_order(&self) -> Seq<ChunkPos> {
        self.pending.key_seq()
    }

    pub closed spec fn wf(&self) -> bool {
        &&& self.pending.wf()
        &&& self.versions.wf()
        &&& forall|p: ChunkPos| #[trigger] self.pending@.dom().contains(p) ==> self.pending@[p].pos == p
    }

    /// A queued request is current when its chunk's pending request has its
    /// version.
    pub open spec fn is_current(&self, r: MeshRequest) -> bool {
        self.pending_view().dom().contains(r.pos) && self.pending_view()[r.pos].version == r.version
    }

    /// Every current entry of the service queue is its chunk's waiting
    /// request. This holds after [`RemeshQueue::rebuild_heap`]; it can fail
    /// once a chunk's version was forgotten while an older request of the
    /// chunk still sat in the service queue, and a new request then got
    /// that same version.
    pub open spec fn coherent(&self) -> bool {
        forall|x: MeshRequest|
            #[trigger] self.heap_view().count(x) > 0 && self.is_current(x) ==> x
                == self.pending_view()[x.pos]
    }

    /// Every waiting request is in the service queue.
    pub open spec fn all_queued(&self) -> bool {
        forall|p: ChunkPos|
            #[trigger] self.pending_view().dom().contains(p) ==> self.heap_view().count(
                self.pending_view()[p],
            ) > 0
    }

    /// What a pop that served `e` and returned `cur` gives, when the queue
    /// was coherent: `cur` is the request that was served, so no current
    /// request of the queue is served before it, and when every waiting
    /// request was queued, no waiting request is.
    pub proof fn lemma_popped_coherent(
        &self,
        after: Multiset<MeshRequest>,
        cur: MeshRequest,
        e: MeshRequest,
        stale: Multiset<MeshRequest>,
    )
        requires
            self.wf(),
            self.popped(after, cur, e, stale),
        ensures
            self.coherent() ==> forall|x: MeshRequest|
                #[trigger] self.heap_view().count(x) > 0 && self.is_current(x) ==> !served_before(x, cur),
            self.coherent() && self.all_queued() ==> forall|p: ChunkPos|
                #[trigger] self.pending_view().dom().contains(p) ==> !served_before(
                    self.pending_view()[p],
                    cur,
                ),
    {
        self.lemma_wf();
        if self.coherent() {
            assert(self.heap_view().count(e) > 0);
            assert(e == cur);
            if self.all_queued() {
                assert forall|p: ChunkPos| #[trigger] self.pending_view().dom().contains(p) implies !served_before(
                    self.pending_view()[p],
                    cur,
                ) by {
                    let q = self.pending_view()[p];
                    assert(self.heap_view().count(q) > 0);
                    assert(self.is_current(q));
                }
            }
        }
    }

    /// Version the next request of `pos` gets.
    pub open spec fn next_version(&self, pos: ChunkPos) -> int {
        if self.version_view().dom().contains(pos) {
            self.version_view()[pos] + 1
        } else {
            1
        }
    }

    pub proof fn lemma_wf(&self)
        requires
            self.wf(),
        ensures
            self.pending_view().dom().finite(),
            forall|p: ChunkPos|
                #[trigger] self.pending_view().dom().contains(p) <==> self.pending_order().contains(p),
            self.pending_order().no_duplicates(),
            forall|p: ChunkPos|
                #[trigger] self.pending_view().dom().contains(p) ==> self.pending_view()[p].pos == p,
    {
        self.pending.lemma_view();
    }

    /// Popping from this queue served `e`, a current request whose
    /// chunk's waiting request is `cur`, dropped the superseded requests
    /// `stale`, and left `after`; no current request was served before `e`.
    pub open spec fn popped(
        &self,
        after: Multiset<MeshRequest>,
        cur: MeshRequest,
        e: MeshRequest,
        stale: Multiset<MeshRequest>,
    ) -> bool {
        &&& self.is_current(e)
        &&& cur == self.pending_view()[e.pos]
        &&& self.heap_view() == after.add(stale).insert(e)
        &&& forall|x: MeshRequest| #[trigger] stale.count(x) > 0 ==> !self.is_current(x)
        &&& forall|x: MeshRequest|
            #[trigger] self.heap_view().count(x) > 0 && self.is_current(x) ==> !served_before(x, e)
    }

    /// `after` is this queue after a request of `pos`: ignored when the
    /// chunk already waits with a strictly higher urgency; otherwise the
    /// chunk's version advances and the new request replaces the waiting one
    /// and joins the service queue.
    pub open spec fn requested(
        &self,
        after: Self,
        pos: ChunkPos,
        urgency: RemeshUrgency,
        distance_sq: i32,
    ) -> bool {
        if self.pending_view().dom().contains(pos) && urgency_rank(self.pending_view()[pos].urgency)
            > urgency_rank(urgency) {
            &&& after.pending_view() == self.pending_view()
            &&& after.version_view() == self.version_view()
            &&& after.heap_view() == self.heap_view()
        } else {
            let req = MeshRequest { urgency, distance_sq, version: self.next_version(pos) as u64, pos };
            &&& after.version_view() == self.version_view().insert(pos, self.next_version(pos) as u64)
            &&& after.pending_view() == self.pending_view().insert(pos, req)
            &&& after.heap_view() == self.heap_view().insert(req)
        }
    }

    /// A request never lowers the urgency of a chunk that waits: one less
    /// urgent than the waiting request is ignored, and one at least as
    /// urgent replaces it, with its own urgency and distance.
    pub proof fn lemma_request_keeps_higher_urgency(
        &self,
        after: Self,
        pos: ChunkPos,
        urgency: RemeshUrgency,
        distance_sq: i32,
    )
        requires
            self.requested(after, pos, urgency, distance_sq),
            self.pending_view().dom().contains(pos),
        ensures
            declared_after(self.pending_view()[pos].urgency, urgency) ==> after.pending_view()
                == self.pending_view() && after.heap_view() == self.heap_view(),
            !declared_after(self.pending_view()[pos].urgency, urgency) ==> after.pending_view()[pos].urgency
                == urgency && after.pending_view()[pos].distance_sq == distance_sq,
    {
    }

    pub fn new() -> (r: Self)
        ensures
            r.wf(),
            r.pending_view() == Map::<ChunkPos, MeshRequest>::empty(),
            r.version_view() == Map::<ChunkPos, u64>::empty(),
            r.heap_view() == Multiset::<MeshRequest>::empty(),
    {
        let r = RemeshQueue { pending: ChunkMap::new(), heap: Vec::new(), versions: ChunkMap::new() };
        assert(r.heap@ =~= Seq::<MeshRequest>::empty());
        r
    }

    /// Requests a remesh of `pos`. A request for a chunk that already waits
    /// with a strictly higher urgency is ignored; otherwise the chunk's
    /// version advances and the new request replaces the waiting one.
    pub fn request(&mut self, pos: ChunkPos, urgency: RemeshUrgency, distance_sq: i32)
        requires
            old(self).wf(),
            old(self).next_version(pos) <= u64::MAX,
        ensures
            final(self).wf(),
            old(self).requested(*final(self), pos, urgency, distance_sq),
    {
        if let Some(existing) = self.pending.get(pos) {
            if urgency_level(existing.urgency) > urgency_level(urgency) {
                return;
            }
        }
        let version: u64 = match self.versions.get(pos) {
            Some(v) => v + 1,
            None => 1,
        };
        self.versions.insert(pos, version);
        let req = MeshRequest { urgency, distance_sq, version, pos };
        self.pending.insert(pos, req);
        self.heap.push(req);
    }

    /// Forgets `pos`: its waiting request and its version.
    pub fn cancel(&mut self, pos: ChunkPos)
        requires
            old(self).wf(),
        ensures
            final(self).wf(),
            final(self).pending_view() == old(self).pending_view().remove(pos),
            final(self).version_view() == old(self).version_view().remove(pos),
            final(self).heap_view() == old(self).heap_view(),
    {
        self.pending.remove(pos);
        self.versions.remove(pos);
    }

    pub fn is_pending(&self, pos: ChunkPos) -> (r: bool)
        requires
            self.wf(),
        ensures
            r == self.pending_view().dom().contains(pos),
    {
        self.pending.contains_key(pos)
    }

    pub fn has_pending(&self) -> (r: bool)
        requires
            self.wf(),
        ensures
            r == (self.pending_view().dom().len() > 0),
    {
        !self.pending.is_empty()
    }

    /// The waiting request of `pos`, if any.
    pub fn pending_request(&self, pos: ChunkPos) -> (r: Option<MeshRequest>)
        requires
            self.wf(),
        ensures
            r == if self.pending_view().dom().contains(pos) {
                Some(self.pending_view()[pos])
            } else {
                None
            },
    {
        self.pending.get(pos)
    }

    /// The current version of `pos`, if it has one.
    pub fn version_of(&self, pos: ChunkPos) -> (r: Option<u64>)
        requires
            self.wf(),
        ensures
            r == if self.version_view().dom().contains(pos) {
                Some(self.version_view()[pos])
            } else {
                None
            },
    {
        self.versions.get(pos)
    }

    /// Drops `pos`'s waiting request but keeps its version (the request was
    /// served).
    pub fn take_pending(&mut self, pos: ChunkPos)
        requires
            old(self).wf(),
        ensures
            final(self).wf(),
            final(self).pending_view() == old(self).pending_view().remove(pos),
            final(self).version_view() == old(self).version_view(),
            final(self).heap_view() == old(self).heap_view(),
    {
        self.pending.remove(pos);
    }

    /// Queues a request for service again.
    pub fn requeue(&mut self, req: MeshRequest)
        requires
            old(self).wf(),
        ensures
            final(self).wf(),
            final(self).pending_view() == old(self).pending_view(),
            final(self).version_view() == old(self).version_view(),
            final(self).heap_view() == old(self).heap_view().insert(req),
    {
        self.heap.push(req);
    }

    /// Makes the service queue hold exactly the waiting requests.
    pub fn rebuild_heap(&mut self)
        requires
            old(self).wf(),
        ensures
            final(self).wf(),
            final(self).pending_view() == old(self).pending_view(),
            final(self).version_view() == old(self).version_view(),
            final(self).pending_order() == old(self).pending_order(),
            final(self).heap_view() == old(self).pending_order().map_values(
                |p: ChunkPos| old(self).pending_view()[p],
            ).to_multiset(),
            final(self).coherent(),
            final(self).all_queued(),
    {
        let values = self.pending.values();
        assert(values@ =~= self.pending_order().map_values(|p: ChunkPos| self.pending_view()[p]));
        self.heap = values;
        proof {
            self.lemma_wf();
            let vs = self.pending_order().map_values(|p: ChunkPos| self.pending_view()[p]);
            assert forall|x: MeshRequest|
                #[trigger] self.heap_view().count(x) > 0 && self.is_current(x) implies x
                    == self.pending_view()[x.pos] by {
                assert(vs.contains(x));
                let j = choose|j: int| 0 <= j < vs.len() && vs[j] == x;
                assert(self.pending_view().dom().contains(self.pending_order()[j]));
            }
            assert forall|p: ChunkPos| #[trigger] self.pending_view().dom().contains(p) implies self.heap_view().count(
                self.pending_view()[p],
            ) > 0 by {
                assert(self.pending_order().contains(p));
                let j = choose|j: int| 0 <= j < self.pending_order().len() && self.pending_order()[j] == p;
                assert(vs[j] == self.pending_view()[p]);
                assert(vs.contains(self.pending_view()[p]));
            }
        }
    }

    /// Keeps only the pending requests and versions of chunks inside the
    /// streamed region.
    pub fn retain_in_stream(&mut self, cx: i32, cy: i32, cz: i32, h: i32, v: i32)
        requires
            old(self).wf(),
        ensures
            final(self).wf(),
            final(self).pending_view() == old(self).pending_view().restrict(
                old(self).pending_view().dom().filter(|p: ChunkPos| in_stream(p, cx as int, cy as int, cz as int, h as int, v as int)),
            ),
            final(self).version_view() == old(self).version_view().restrict(
                old(self).version_view().dom().filter(|p: ChunkPos| in_stream(p, cx as int, cy as int, cz as int, h as int, v as int)),
            ),
            final(self).heap_view() == old(self).heap_view(),
    {
        self.pending.retain_in_stream(cx, cy, cz, h, v);
        self.versions.retain_in_stream(cx, cy, cz, h, v);
    }

    /// Takes requests off the service queue, most urgent first, until one is
    /// current, and returns that chunk's waiting request. Superseded requests
    /// taken on the way are dropped.
    pub fn pop_next(&mut self) -> (r: Option<MeshRequest>)
        requires
            old(self).wf(),
        ensures
            final(self).wf(),
            final(self).pending_view() == old(self).pending_view(),
            final(self).version_view() == old(self).version_view(),
            final(self).pending_order() == old(self).pending_order(),
            match r {
                None => {
                    &&& final(self).heap_view().len() == 0
                    &&& forall|x: MeshRequest| #[trigger] old(self).heap_view().count(x) > 0 ==> !old(self).is_current(x)
                },
                Some(cur) => exists|e: MeshRequest, stale: Multiset<MeshRequest>|
                    #[trigger] old(self).popped(final(self).heap_view(), cur, e, stale),
            },
            r matches Some(c) ==> old(self).pending_view().dom().contains(c.pos) && old(self).pending_view()[c.pos] == c,
            old(self).all_queued() ==> (r is None <==> old(self).pending_view().dom() == Set::<
                ChunkPos,
            >::empty()),
            old(self).coherent() ==> (r matches Some(cur) ==> forall|x: MeshRequest|
                #[trigger] old(self).heap_view().count(x) > 0 && old(self).is_current(x) ==> !served_before(x, cur)),
            old(self).coherent() && old(self).all_queued() ==> (r matches Some(cur) ==> forall|p: ChunkPos|
                #[trigger] old(self).pending_view().dom().contains(p) ==> !served_before(
                    old(self).pending_view()[p],
                    cur,
                )),
    {
        let ghost h0 = self.heap@.to_multiset();
        let ghost mut stale = Multiset::<MeshRequest>::empty();
        while self.heap.len() > 0
            invariant
                self.wf(),
                old(self).wf(),
                self.pending@ == old(self).pending@,
                self.versions@ == old(self).versions@,
                self.pending.key_seq() == old(self).pending.key_seq(),
                h0 == old(self).heap_view(),
                h0 == self.heap@.to_multiset().add(stale),
                forall|x: MeshRequest| #[trigger] stale.count(x) > 0 ==> !old(self).is_current(x),
            decreases self.heap@.len(),
        {
            let k = index_of_first_served(&self.heap);
            let ghost hs = self.heap@;
            let e = self.heap.remove(k);
            proof {
                assert(hs.remove(k as int).to_multiset() =~= hs.to_multiset().remove(e));
                assert(hs.to_multiset().count(e) > 0);
            }
            match self.pending.get(e.pos) {
                Some(current) => {
                    if current.version == e.version {
                        proof {
                            assert(old(self).is_current(e));
                            assert(h0 =~= self.heap@.to_multiset().add(stale).insert(e));
                            assert forall|x: MeshRequest|
                                #[trigger] h0.count(x) > 0 && old(self).is_current(x) implies !served_before(x, e) by {
                                if hs.to_multiset().count(x) > 0 {
                                    let j = choose|j: int| 0 <= j < hs.len() && hs[j] == x;
                                    assert(hs.contains(x));
                                    assert(!served_before(hs[j], hs[k as int]));
                                }
                            }
                        }
                        assert(old(self).popped(self.heap_view(), current, e, stale));
                        proof {
                            old(self).lemma_popped_coherent(self.heap_view(), current, e, stale);
                            old(self).lemma_wf();
                            assert(old(self).pending_view().dom().contains(e.pos));
                        }
                        return Some(current);
                    }
                },
                None => {},
            }
            proof {
                assert(!old(self).is_current(e));
                stale = stale.insert(e);
                assert(h0 =~= self.heap@.to_multiset().add(stale));
            }
        }
        proof {
            assert(self.heap@.to_multiset().len() == 0);
            assert forall|x: MeshRequest| #[trigger] h0.count(x) > 0 implies !old(self).is_current(x) by {
                assert(self.heap@.to_multiset().count(x) == 0);
            }
            if old(self).all_queued() {
                old(self).lemma_wf();
                assert forall|p: ChunkPos| !#[trigger] old(self).pending_view().dom().contains(p) by {
                    if old(self).pending_view().dom().contains(p) {
                        assert(h0.count(old(self).pending_view()[p]) > 0);
                    }
                }
                assert(old(self).pending_view().dom() =~= Set::<ChunkPos>::empty());
            }
        }
        None
    }
}


/// Whether remeshes of this urgency count toward the per-frame background
/// dispatch cap.
pub fn counts_toward_dispatch_cap(urgency: RemeshUrgency) -> (r: bool)
    ensures
        r == (urgency_rank(urgency) <= 1),
{
    match urgency {
        RemeshUrgency::Background | RemeshUrgency::Visible => true,
        _ => false,
    }
}

/// A mesh build that was started: the chunk, the request version it was
/// started for, and the running task.
pub struct MeshInFlight<T> {
    pub pos: ChunkPos,
    pub expected_version: u64,
    pub task: T,
}

pub open spec fn sat_sub_nat(a: int, b: int) -> int {
    if a >= b { a - b } else { 0 }
}

/// The tasks of a poll that are still running, in order.
pub open spec fn still_running<T, M>(polled: Seq<(MeshInFlight<T>, Option<M>)>) -> Seq<MeshInFlight<T>>
    decreases polled.len(),
{
    if polled.len() == 0 {
        Seq::empty()
    } else {
        let prev = still_running(polled.drop_last());
        if polled.last().1 is None {
            prev.push(polled.last().0)
        } else {
            prev
        }
    }
}

/// How many tasks of a poll finished.
pub open spec fn finished_count<T, M>(polled: Seq<(MeshInFlight<T>, Option<M>)>) -> int
    decreases polled.len(),
{
    if polled.len() == 0 {
        0
    } else {
        finished_count(polled.drop_last()) + if polled.last().1 is Some { 1int } else { 0 }
    }
}

/// The finished meshes of a poll whose task was started for the chunk's
/// current version, in order.
pub open spec fn fresh_meshes<T, M>(
    polled: Seq<(MeshInFlight<T>, Option<M>)>,
    versions: Map<ChunkPos, u64>,
) -> Seq<(ChunkPos, M)>
    decreases polled.len(),
{
    if polled.len() == 0 {
        Seq::empty()
    } else {
        let prev = fresh_meshes(polled.drop_last(), versions);
        let (t, res) = polled.last();
        let current = if versions.dom().contains(t.pos) { versions[t.pos] as int } else { 0 };
        match res {
            Some(m) => if t.expected_version == current {
                prev.push((t.pos, m))
            } else {
                prev
            },
            None => prev,
        }
    }
}

/// Whether some task of a poll for this chunk finished.
pub open spec fn finished_at<T, M>(polled: Seq<(MeshInFlight<T>, Option<M>)>, p: ChunkPos) -> bool {
    exists|i: int| 0 <= i < polled.len() && polled[i].0.pos == p && #[trigger] polled[i].1 is Some
}

/// Remeshing of chunks: requests wait in a [`RemeshQueue`]; at most
/// [`MAX_MESH_IN_FLIGHT`] meshes build at a time; a finished mesh is kept
/// only if no newer request for its chunk came in meanwhile.
pub struct MeshScheduler<T, M> {
    queue: RemeshQueue,
    in_progress: ChunkMap<()>,
    mesh_in_flight: usize,
    tasks: Vec<MeshInFlight<T>>,
    ready_meshes: Vec<(ChunkPos, M)>,
    background_dispatched_this_frame: usize,
}

impl<T, M> MeshScheduler<T, M> {
    pub closed spec fn queue(&self) -> RemeshQueue {
        self.queue
    }

    /// Chunks whose mesh is being built.
    pub closed spec fn in_progress_view(&self) -> Set<ChunkPos> {
        self.in_progress@.dom()
    }

    /// The count of meshes being built.
    pub closed spec fn in_flight(&self) -> int {
        self.mesh_in_flight as int
    }

    pub closed spec fn tasks_view(&self) -> Seq<MeshInFlight<T>> {
        self.tasks@
    }

    /// Built meshes waiting to be committed, oldest first.
    pub closed spec fn ready_view(&self) -> Seq<(ChunkPos, M)> {
        self.ready_meshes@
    }

    /// Background and visible remeshes started this frame.
    pub closed spec fn dispatched_this_frame(&self) -> int {
        self.background_dispatched_this_frame as int
    }

    pub closed spec fn wf(&self) -> bool {
        &&& self.queue.wf()
        &&& self.in_progress.wf()
    }

    /// Everything but the task list and the in-flight count is as in `other`.
    pub open spec fn same_but_tasks(&self, other: Self) -> bool {
        &&& self.queue() == other.queue()
        &&& self.in_progress_view() == other.in_progress_view()
        &&& self.ready_view() == other.ready_view()
        &&& self.dispatched_this_frame() == other.dispatched_this_frame()
    }

    pub fn new() -> (r: Self)
        ensures
            r.wf(),
            r.queue().pending_view() == Map::<ChunkPos, MeshRequest>::empty(),
            r.queue().version_view() == Map::<ChunkPos, u64>::empty(),
            r.queue().heap_view() == Multiset::<MeshRequest>::empty(),
            r.in_progress_view() == Set::<ChunkPos>::empty(),
            r.in_flight() == 0,
            r.tasks_view().len() == 0,
            r.ready_view().len() == 0,
            r.dispatched_this_frame() == 0,
    {
        MeshScheduler {
            queue: RemeshQueue::new(),
            in_progress: ChunkMap::new(),
            mesh_in_flight: 0,
            tasks: Vec::new(),
            ready_meshes: Vec::new(),
            background_dispatched_this_frame: 0,
        }
    }

    /// Requests a remesh of `pos` (see [`RemeshQueue::requested`]).
    pub fn request(&mut self, pos: ChunkPos, urgency: RemeshUrgency, distance_sq: i32)
        requires
            old(self).wf(),
            old(self).queue().next_version(pos) <= u64::MAX,
        ensures
            final(self).wf(),
            old(self).queue().requested(final(self).queue(), pos, urgency, distance_sq),
            final(self).in_progress_view() == old(self).in_progress_view(),
            final(self).in_flight() == old(self).in_flight(),
            final(self).tasks_view() == old(self).tasks_view(),
            final(self).ready_view() == old(self).ready_view(),
            final(self).dispatched_this_frame() == old(self).dispatched_this_frame(),
    {
        self.queue.request(pos, urgency, distance_sq);
    }

    /// Whether `pos` waits for a remesh.
    pub fn is_pending(&self, pos: ChunkPos) -> (r: bool)
        requires
            self.wf(),
        ensures
            r == self.queue().pending_view().dom().contains(pos),
    {
        self.queue.is_pending(pos)
    }

    /// Whether `pos`'s mesh is being built.
    pub fn is_in_progress(&self, pos: ChunkPos) -> (r: bool)
        requires
            self.wf(),
        ensures
            r == self.in_progress_view().contains(pos),
    {
        self.in_progress.contains_key(pos)
    }

    /// The current version of `pos`, if it has one.
    pub fn version_of(&self, pos: ChunkPos) -> (r: Option<u64>)
        requires
            self.wf(),
        ensures
            r == if self.queue().version_view().dom().contains(pos) {
                Some(self.queue().version_view()[pos])
            } else {
                None
            },
    {
        self.queue.version_of(pos)
    }

    /// See [`RemeshQueue::pop_next`].
    pub fn pop_next(&mut self) -> (r: Option<MeshRequest>)
        requires
            old(self).wf(),
        ensures
            final(self).wf(),
            final(self).queue().pending_view() == old(self).queue().pending_view(),
            final(self).queue().version_view() == old(self).queue().version_view(),
            match r {
                None => {
                    &&& final(self).queue().heap_view().len() == 0
                    &&& forall|x: MeshRequest| #[trigger] old(self).queue().heap_view().count(x) > 0 ==> !old(self).queue().is_current(x)
                },
                Some(cur) => exists|e: MeshRequest, stale: Multiset<MeshRequest>|
                    #[trigger] old(self).queue().popped(final(self).queue().heap_view(), cur, e, stale),
            },
            r matches Some(c) ==> old(self).queue().pending_view().dom().contains(c.pos)
                && old(self).queue().pending_view()[c.pos] == c,
            old(self).queue().all_queued() ==> (r is None <==> old(self).queue().pending_view().dom()
                == Set::<ChunkPos>::empty()),
            old(self).queue().coherent() ==> (r matches Some(cur) ==> forall|x: MeshRequest|
                #[trigger] old(self).queue().heap_view().count(x) > 0 && old(self).queue().is_current(x)
                    ==> !served_before(x, cur)),
            old(self).queue().coherent() && old(self).queue().all_queued() ==> (r matches Some(cur)
                ==> forall|p: ChunkPos|
                #[trigger] old(self).queue().pending_view().dom().contains(p) ==> !served_before(
                    old(self).queue().pending_view()[p],
                    cur,
                )),
            final(self).in_progress_view() == old(self).in_progress_view(),
            final(self).in_flight() == old(self).in_flight(),
            final(self).tasks_view() == old(self).tasks_view(),
            final(self).ready_view() == old(self).ready_view(),
            final(self).dispatched_this_frame() == old(self).dispatched_this_frame(),
    {
        self.queue.pop_next()
    }

    /// Drops the tasks of `pos` from the task list; returns how many.
    fn drop_tasks_at(&mut self, pos: ChunkPos) -> (removed: usize)
        ensures
            final(self).tasks_view() == old(self).tasks_view().filter(
                |t: MeshInFlight<T>| t.pos != pos,
            ),
            removed == old(self).tasks_view().len() - final(self).tasks_view().len(),
            final(self).queue == old(self).queue,
            final(self).in_progress == old(self).in_progress,
            final(self).mesh_in_flight == old(self).mesh_in_flight,
            final(self).ready_meshes == old(self).ready_meshes,
            final(self).background_dispatched_this_frame == old(self).background_dispatched_this_frame,
    {
        let ghost orig = self.tasks@;
        let total = self.tasks.len();
        let mut rest: Vec<MeshInFlight<T>> = Vec::new();
        std::mem::swap(&mut rest, &mut self.tasks);
        let ghost pred = |t: MeshInFlight<T>| t.pos != pos;
        let mut kept: Vec<MeshInFlight<T>> = Vec::new();
        let mut n: usize = 0;
        while rest.len() > 0
            invariant
                n <= orig.len(),
                orig.len() == total,
                rest@ == orig.skip(n as int),
                rest@.len() == orig.len() - n,
                pred == (|t: MeshInFlight<T>| t.pos != pos),
                kept@ == orig.take(n as int).filter(pred),
            decreases rest@.len(),
        {
            let t = rest.remove(0);
            assert(orig.take(n as int + 1).drop_last() =~= orig.take(n as int));
            assert(orig.take(n as int + 1).last() == t);
            if t.pos != pos {
                kept.push(t);
            }
            proof {
                reveal_with_fuel(Seq::<_>::filter, 1);
            }
            n = n + 1;
            assert(rest@ =~= orig.skip(n as int));
        }
        assert(orig.take(n as int) =~= orig);
        proof {
            orig.lemma_filter_len(pred);
        }
        let removed = total - kept.len();
        self.tasks = kept;
        removed
    }

    /// Forgets `pos`: its waiting request, its version, and any mesh being
    /// built for it.
    pub fn cancel(&mut self, pos: ChunkPos)
        requires
            old(self).wf(),
        ensures
            final(self).wf(),
            final(self).queue().pending_view() == old(self).queue().pending_view().remove(pos),
            final(self).queue().version_view() == old(self).queue().version_view().remove(pos),
            final(self).queue().heap_view() == old(self).queue().heap_view(),
            final(self).in_progress_view() == old(self).in_progress_view().remove(pos),
            final(self).tasks_view() == old(self).tasks_view().filter(
                |t: MeshInFlight<T>| t.pos != pos,
            ),
            final(self).in_flight() == sat_sub_nat(
                old(self).in_flight(),
                old(self).tasks_view().len() - final(self).tasks_view().len(),
            ),
            final(self).ready_view() == old(self).ready_view(),
            final(self).dispatched_this_frame() == old(self).dispatched_this_frame(),
    {
        self.queue.cancel(pos);
        self.in_progress.remove(pos);
        let removed = self.drop_tasks_at(pos);
        self.mesh_in_flight = if self.mesh_in_flight >= removed {
            self.mesh_in_flight - removed
        } else {
            0
        };
    }

    /// Hands the running tasks to the caller for polling; see
    /// [`MeshScheduler::poll`].
    pub fn take_tasks(&mut self) -> (r: Vec<MeshInFlight<T>>)
        requires
            old(self).wf(),
        ensures
            final(self).wf(),
            r@ == old(self).tasks_view(),
            final(self).tasks_view().len() == 0,
            final(self).queue() == old(self).queue(),
            final(self).in_progress_view() == old(self).in_progress_view(),
            final(self).in_flight() == old(self).in_flight(),
            final(self).ready_view() == old(self).ready_view(),
            final(self).dispatched_this_frame() == old(self).dispatched_this_frame(),
    {
        let mut out: Vec<MeshInFlight<T>> = Vec::new();
        std::mem::swap(&mut out, &mut self.tasks);
        out
    }

    /// Takes back polled tasks, each with its result if it finished: running
    /// tasks return to the task list; each finished chunk leaves the
    /// in-progress set, and its mesh is kept for committing only if it was
    /// built for the chunk's current version (0 when it has none).
    pub fn poll(&mut self, polled: Vec<(MeshInFlight<T>, Option<M>)>)
        requires
            old(self).wf(),
        ensures
            final(self).wf(),
            final(self).tasks_view() == old(self).tasks_view() + still_running(polled@),
            final(self).in_flight() == sat_sub_nat(old(self).in_flight(), finished_count(polled@)),
            forall|p: ChunkPos|
                #[trigger] final(self).in_progress_view().contains(p) <==> (old(self).in_progress_view().contains(p) && !finished_at(polled@, p)),
            final(self).ready_view() == old(self).ready_view() + fresh_meshes(
                polled@,
                old(self).queue().version_view(),
            ),
            final(self).queue() == old(self).queue(),
            final(self).dispatched_this_frame() == old(self).dispatched_this_frame(),
    {
        let ghost orig = polled@;
        let ghost tasks0 = self.tasks@;
        let ghost ready0 = self.ready_meshes@;
        let ghost ip0 = self.in_progress@.dom();
        let ghost in_flight0 = self.mesh_in_flight as int;
        let mut rest = polled;
        let total = rest.len();
        let mut n: usize = 0;
        while rest.len() > 0
            invariant
                self.wf(),
                n <= orig.len(),
                orig.len() == total,
                rest@ == orig.skip(n as int),
                rest@.len() == orig.len() - n,
                self.queue == old(self).queue,
                self.background_dispatched_this_frame == old(self).background_dispatched_this_frame,
                self.tasks@ == tasks0 + still_running(orig.take(n as int)),
                self.mesh_in_flight as int == sat_sub_nat(in_flight0, finished_count(orig.take(n as int))),
                finished_count(orig.take(n as int)) <= n,
                self.ready_meshes@ == ready0 + fresh_meshes(orig.take(n as int), self.queue.version_view()),
                forall|p: ChunkPos|
                    #[trigger] self.in_progress@.dom().contains(p) <==> (ip0.contains(p)
                        && !finished_at(orig.take(n as int), p)),
            decreases rest@.len(),
        {
            let ghost pre = orig.take(n as int);
            let ghost cur = orig.take(n as int + 1);
            assert(cur.drop_last() =~= pre);
            let (t, res) = rest.remove(0);
            assert(cur.last() == (t, res));
            match res {
                Some(mesh) => {
                    self.mesh_in_flight = if self.mesh_in_flight >= 1 { self.mesh_in_flight - 1 } else { 0 };
                    self.in_progress.remove(t.pos);
                    let current = match self.queue.version_of(t.pos) {
                        Some(v) => v,
                        None => 0,
                    };
                    if t.expected_version == current {
                        self.ready_meshes.push((t.pos, mesh));
                    }
                },
                None => {
                    self.tasks.push(t);
                },
            }
            proof {
                assert forall|p: ChunkPos| #[trigger] finished_at(cur, p) <==> (finished_at(pre, p)
                    || (cur.last().0.pos == p && cur.last().1 is Some)) by {
                    if finished_at(cur, p) {
                        let i = choose|i: int| 0 <= i < cur.len() && cur[i].0.pos == p && #[trigger] cur[i].1 is Some;
                        if i < pre.len() {
                            assert(pre[i] == cur[i]);
                        }
                    }
                    if finished_at(pre, p) {
                        let i = choose|i: int| 0 <= i < pre.len() && pre[i].0.pos == p && #[trigger] pre[i].1 is Some;
                        assert(cur[i] == pre[i]);
                    }
                    if cur.last().0.pos == p && cur.last().1 is Some {
                        assert(cur[cur.len() - 1].1 is Some);
                    }
                }
            }
            n = n + 1;
            assert(rest@ =~= orig.skip(n as int));
        }
        assert(orig.take(n as int) =~= orig);
    }

    /// Hands the built meshes to the caller for committing, oldest first.
    pub fn take_ready(&mut self) -> (r: Vec<(ChunkPos, M)>)
        requires
            old(self).wf(),
        ensures
            final(self).wf(),
            r@ == old(self).ready_view(),
            final(self).ready_view().len() == 0,
            final(self).queue() == old(self).queue(),
            final(self).in_progress_view() == old(self).in_progress_view(),
            final(self).in_flight() == old(self).in_flight(),
            final(self).tasks_view() == old(self).tasks_view(),
            final(self).dispatched_this_frame() == old(self).dispatched_this_frame(),
    {
        let mut out: Vec<(ChunkPos, M)> = Vec::new();
        std::mem::swap(&mut out, &mut self.ready_meshes);
        out
    }
}


impl<T, M> MeshScheduler<T, M> {
    /// Starts a frame's dispatching: the per-frame background count resets
    /// and the service queue is rebuilt from the waiting requests.
    pub fn start_frame(&mut self)
        requires
            old(self).wf(),
        ensures
            final(self).wf(),
            final(self).dispatched_this_frame() == 0,
            final(self).queue().pending_view() == old(self).queue().pending_view(),
            final(self).queue().version_view() == old(self).queue().version_view(),
            final(self).queue().heap_view() == old(self).queue().pending_order().map_values(
                |p: ChunkPos| old(self).queue().pending_view()[p],
            ).to_multiset(),
            final(self).in_progress_view() == old(self).in_progress_view(),
            final(self).in_flight() == old(self).in_flight(),
            final(self).tasks_view() == old(self).tasks_view(),
            final(self).ready_view() == old(self).ready_view(),
    {
        self.background_dispatched_this_frame = 0;
        self.queue.rebuild_heap();
    }

    /// Forgets every chunk outside the streamed region (when the center is
    /// known): waiting requests and versions outside it are dropped, and
    /// chunks being built outside it are cancelled; then the service queue
    /// is rebuilt from the waiting requests.
    pub fn prune_out_of_stream(
        &mut self,
        center_x: i32,
        center_y: i32,
        center_z: i32,
        valid: bool,
        horizontal_radius: i32,
        vertical_radius: i32,
    )
        requires
            old(self).wf(),
        ensures
            final(self).wf(),
            !valid ==> *final(self) == *old(self),
            valid ==> {
                let keep = |p: ChunkPos| in_stream(p, center_x as int, center_y as int, center_z as int, horizontal_radius as int, vertical_radius as int);
                &&& final(self).queue().pending_view() == old(self).queue().pending_view().restrict(
                    old(self).queue().pending_view().dom().filter(keep),
                )
                &&& final(self).queue().version_view() == old(self).queue().version_view().restrict(
                    old(self).queue().version_view().dom().filter(keep),
                )
                &&& final(self).queue().heap_view() == final(self).queue().pending_order().map_values(
                    |p: ChunkPos| final(self).queue().pending_view()[p],
                ).to_multiset()
                &&& final(self).in_progress_view() == old(self).in_progress_view().filter(keep)
                &&& final(self).tasks_view() == old(self).tasks_view().filter(
                    |t: MeshInFlight<T>| !(old(self).in_progress_view().contains(t.pos) && !keep(t.pos)),
                )
                &&& final(self).in_flight() == sat_sub_nat(
                    old(self).in_flight(),
                    old(self).tasks_view().len() - final(self).tasks_view().len(),
                )
                &&& final(self).ready_view() == old(self).ready_view()
                &&& final(self).dispatched_this_frame() == old(self).dispatched_this_frame()
            },
    {
        if !valid {
            return;
        }
        let ghost keep = |p: ChunkPos| in_stream(p, center_x as int, center_y as int, center_z as int, horizontal_radius as int, vertical_radius as int);
        let ghost drop_task = |t: MeshInFlight<T>| !(old(self).in_progress_view().contains(t.pos) && !keep(t.pos));
        self.queue.retain_in_stream(center_x, center_y, center_z, horizontal_radius, vertical_radius);
        let ghost q1 = self.queue;
        assert(q1.pending_view().dom().filter(keep) =~= q1.pending_view().dom());
        assert(q1.version_view().dom().filter(keep) =~= q1.version_view().dom());
        let in_progress = self.in_progress.keys();
        proof {
            self.in_progress.lemma_view();
        }
        let ghost tasks0 = self.tasks@;
        let ghost ip0 = self.in_progress@.dom();
        let ghost n0 = self.mesh_in_flight as int;
        proof {
            let p0 = |t: MeshInFlight<T>| !(in_progress@.take(0).contains(t.pos) && !keep(t.pos));
            assert(in_progress@.take(0) =~= Seq::<ChunkPos>::empty());
            assert forall|t: MeshInFlight<T>| #[trigger] p0(t) by {
                assert(!in_progress@.take(0).contains(t.pos));
            }
            lemma_filter_all(self.tasks@, p0);
        }
        let mut k: usize = 0;
        while k < in_progress.len()
            invariant
                self.wf(),
                k <= in_progress@.len(),
                ip0 == old(self).in_progress_view(),
                in_progress@.no_duplicates(),
                forall|p: ChunkPos| ip0.contains(p) <==> #[trigger] in_progress@.contains(p),
                keep == (|p: ChunkPos| in_stream(p, center_x as int, center_y as int, center_z as int, horizontal_radius as int, vertical_radius as int)),
                forall|p: ChunkPos|
                    #[trigger] self.in_progress@.dom().contains(p) <==> (ip0.contains(p) && (keep(p)
                        || !in_progress@.take(k as int).contains(p))),
                self.queue.pending_view() == q1.pending_view(),
                self.queue.version_view() == q1.version_view(),
                self.queue.heap_view() == q1.heap_view(),
                self.tasks@.len() <= tasks0.len(),
                self.tasks@ == tasks0.filter(|t: MeshInFlight<T>| !(in_progress@.take(k as int).contains(t.pos) && !keep(t.pos))),
                self.mesh_in_flight as int == sat_sub_nat(n0, tasks0.len() - self.tasks@.len()),
                self.ready_meshes@ == old(self).ready_meshes@,
                self.background_dispatched_this_frame == old(self).background_dispatched_this_frame,
                q1.pending_view().dom().filter(keep) == q1.pending_view().dom(),
                q1.version_view().dom().filter(keep) == q1.version_view().dom(),
            decreases in_progress@.len() - k,
        {
            let pos = in_progress[k];
            proof {
                assert(in_progress@.take(k as int + 1) =~= in_progress@.take(k as int).push(pos));
            }
            if !chunk_in_stream_pos(pos, center_x, center_y, center_z, horizontal_radius, vertical_radius) {
                let ghost before = self.tasks@;
                self.cancel(pos);
                proof {
                    assert(!q1.pending_view().dom().filter(keep).contains(pos));
                    assert(!q1.version_view().dom().filter(keep).contains(pos));
                    assert(self.queue.pending_view() =~= q1.pending_view());
                    assert(self.queue.version_view() =~= q1.version_view());
                    let pk = |t: MeshInFlight<T>| !(in_progress@.take(k as int).contains(t.pos) && !keep(t.pos));
                    let pk1 = |t: MeshInFlight<T>| !(in_progress@.take(k as int + 1).contains(t.pos) && !keep(t.pos));
                    let b = |t: MeshInFlight<T>| t.pos != pos;
                    lemma_filter_filter(tasks0, pk, b);
                    assert forall|t: MeshInFlight<T>| #[trigger] pk1(t) == (pk(t) && b(t)) by {
                        lemma_take_push_contains(in_progress@, k as int, t.pos);
                    }
                    lemma_filter_ext(tasks0, |t: MeshInFlight<T>| pk(t) && b(t), pk1);
                    before.lemma_filter_len(b);
                    assert(self.tasks@ == before.filter(b));
                }
            } else {
                proof {
                    let pk = |t: MeshInFlight<T>| !(in_progress@.take(k as int).contains(t.pos) && !keep(t.pos));
                    let pk1 = |t: MeshInFlight<T>| !(in_progress@.take(k as int + 1).contains(t.pos) && !keep(t.pos));
                    assert forall|t: MeshInFlight<T>| #[trigger] pk(t) == pk1(t) by {
                        lemma_take_push_contains(in_progress@, k as int, t.pos);
                    }
                    lemma_filter_ext(tasks0, pk, pk1);
                }
            }
            proof {
                assert forall|p: ChunkPos| #[trigger] self.in_progress@.dom().contains(p) <==> (ip0.contains(p) && (keep(p)
                        || !in_progress@.take(k as int + 1).contains(p))) by {
                    lemma_take_push_contains(in_progress@, k as int, p);
                }
            }
            k = k + 1;
        }
        proof {
            assert(in_progress@.take(k as int) =~= in_progress@);
            assert(self.in_progress@.dom() =~= ip0.filter(keep));
            let pk = |t: MeshInFlight<T>| !(in_progress@.take(k as int).contains(t.pos) && !keep(t.pos));
            assert forall|t: MeshInFlight<T>| #[trigger] pk(t) == drop_task(t) by {}
            lemma_filter_ext(tasks0, pk, drop_task);
        }
        self.queue.rebuild_heap();
    }
}

proof fn lemma_filter_filter<A>(s: Seq<A>, a: spec_fn(A) -> bool, b: spec_fn(A) -> bool)
    ensures
        s.filter(a).filter(b) == s.filter(|x: A| a(x) && b(x)),
    decreases s.len(),
{
    reveal_with_fuel(Seq::<_>::filter, 1);
    if s.len() > 0 {
        lemma_filter_filter(s.drop_last(), a, b);
        let fa = s.drop_last().filter(a);
        if a(s.last()) {
            assert(s.filter(a).drop_last() =~= fa);
        }
    }
    assert(s.filter(a).filter(b) =~= s.filter(|x: A| a(x) && b(x)));
}

proof fn lemma_filter_ext<A>(s: Seq<A>, a: spec_fn(A) -> bool, b: spec_fn(A) -> bool)
    requires
        forall|x: A| #[trigger] a(x) == b(x),
    ensures
        s.filter(a) == s.filter(b),
    decreases s.len(),
{
    reveal_with_fuel(Seq::<_>::filter, 1);
    if s.len() > 0 {
        lemma_filter_ext(s.drop_last(), a, b);
        assert(a(s.last()) == b(s.last()));
    }
}

proof fn lemma_take_push_contains<A>(s: Seq<A>, k: int, x: A)
    requires
        0 <= k < s.len(),
    ensures
        s.take(k + 1).contains(x) <==> (s.take(k).contains(x) || x == s[k]),
{
    assert(s.take(k + 1) =~= s.take(k).push(s[k]));
    if s.take(k + 1).contains(x) {
        let t = s.take(k + 1);
        let i = choose|i: int| 0 <= i < t.len() && t[i] == x;
        if i < k {
            assert(s.take(k)[i] == x);
        }
    }
    if s.take(k).contains(x) {
        let t = s.take(k);
        let i = choose|i: int| 0 <= i < t.len() && t[i] == x;
        assert(s.take(k + 1)[i] == x);
    }
    if x == s[k] {
        assert(s.take(k + 1)[k] == x);
    }
}

proof fn lemma_filter_all<A>(s: Seq<A>, a: spec_fn(A) -> bool)
    requires
        forall|x: A| #[trigger] a(x),
    ensures
        s.filter(a) == s,
    decreases s.len(),
{
    reveal_with_fuel(Seq::<_>::filter, 1);
    if s.len() > 0 {
        lemma_filter_all(s.drop_last(), a);
        assert(s.drop_last().push(s.last()) =~= s);
    } else {
        assert(s.filter(a) =~= s);
    }
}

/// Whether a chunk lies within the streamed region around the center.
fn chunk_in_stream_pos(pos: ChunkPos, cx: i32, cy: i32, cz: i32, h: i32, v: i32) -> (r: bool)
    ensures
        r == in_stream(pos, cx as int, cy as int, cz as int, h as int, v as int),
{
    crate::chunk_map::chunk_in_stream(pos, cx, cy, cz, h, v)
}


impl<T, M> MeshScheduler<T, M> {
    /// `after` is this scheduler after starting the mesh build `t` for the
    /// waiting request `req`: the request left the queue, its chunk is in
    /// progress, and the task joined the task list; a background or visible
    /// build counts toward the frame's cap, which it was below.
    pub open spec fn started(&self, after: Self, req: MeshRequest, t: MeshInFlight<T>) -> bool {
        &&& self.queue().pending_view().dom().contains(req.pos)
        &&& self.queue().pending_view()[req.pos] == req
        &&& !self.in_progress_view().contains(req.pos)
        &&& t.pos == req.pos
        &&& t.expected_version == req.version
        &&& after.queue().pending_view() == self.queue().pending_view().remove(req.pos)
        &&& after.queue().version_view() == self.queue().version_view()
        &&& after.in_progress_view() == self.in_progress_view().insert(req.pos)
        &&& after.in_flight() == self.in_flight() + 1
        &&& after.tasks_view() == self.tasks_view().push(t)
        &&& after.ready_view() == self.ready_view()
        &&& if urgency_rank(req.urgency) <= 1 {
            &&& self.dispatched_this_frame() < MAX_BACKGROUND_DISPATCH_PER_FRAME
            &&& after.dispatched_this_frame() == self.dispatched_this_frame() + 1
        } else {
            after.dispatched_this_frame() == self.dispatched_this_frame()
        }
    }

    /// Task `t` was started during a frame that began in this state: its
    /// chunk waited then, with the request version the task carries, and
    /// was not being built; `chunk_ready` reported the chunk ready and
    /// `start` returned the task.
    pub open spec fn started_in_frame<R: Fn(ChunkPos) -> bool, C: Fn(ChunkPos) -> Option<T>>(
        &self,
        t: MeshInFlight<T>,
        chunk_ready: R,
        start: C,
    ) -> bool {
        &&& self.queue().pending_view().dom().contains(t.pos)
        &&& self.queue().pending_view()[t.pos].version == t.expected_version
        &&& !self.in_progress_view().contains(t.pos)
        &&& chunk_ready.ensures((t.pos,), true)
        &&& start.ensures((t.pos,), Some(t.task))
    }

    /// `after` holds a task for chunk `p` that this state did not hold.
    pub open spec fn new_task_at(&self, after: Self, p: ChunkPos) -> bool {
        exists|i: int|
            self.tasks_view().len() <= i < after.tasks_view().len() && #[trigger] after.tasks_view()[i].pos == p
    }

    /// Why waiting chunk `p` cannot start building now: it is being built,
    /// it is a background or visible remesh and the frame's cap is reached,
    /// `chunk_ready` said it is not generated and loaded, or `start` could
    /// not snapshot it.
    pub open spec fn deferred<R: Fn(ChunkPos) -> bool, C: Fn(ChunkPos) -> Option<T>>(
        &self,
        p: ChunkPos,
        chunk_ready: R,
        start: C,
    ) -> bool {
        ||| self.in_progress_view().contains(p)
        ||| urgency_rank(self.queue().pending_view()[p].urgency) <= 1 && self.dispatched_this_frame()
            >= MAX_BACKGROUND_DISPATCH_PER_FRAME
        ||| chunk_ready.ensures((p,), false)
        ||| start.ensures((p,), None)
    }

    /// Tries to start one mesh build. Requests are taken most urgent first
    /// (at most 64 per call, rebuilding the service queue once if it runs
    /// dry while requests still wait). A request is put back for later when
    /// its chunk is already being built, when it is a background or visible
    /// remesh and the frame's cap is reached, when `chunk_ready` says the
    /// chunk is not generated and loaded, or when `start` cannot snapshot
    /// the chunk; otherwise `start` returns the running task and the build
    /// is recorded. Nothing starts while the in-flight limit is reached.
    pub fn dispatch_one<R, C>(&mut self, chunk_ready: R, start: C) -> (r: bool) where
        R: Fn(ChunkPos) -> bool,
        C: Fn(ChunkPos) -> Option<T>,
        requires
            old(self).wf(),
            forall|p: ChunkPos| #[trigger] chunk_ready.requires((p,)),
            forall|p: ChunkPos| #[trigger] start.requires((p,)),
        ensures
            final(self).wf(),
            old(self).in_flight() >= MAX_MESH_IN_FLIGHT ==> !r,
            old(self).in_flight() <= MAX_MESH_IN_FLIGHT ==> final(self).in_flight() <= MAX_MESH_IN_FLIGHT,
            old(self).dispatched_this_frame() <= MAX_BACKGROUND_DISPATCH_PER_FRAME
                ==> final(self).dispatched_this_frame() <= MAX_BACKGROUND_DISPATCH_PER_FRAME,
            !r ==> {
                &&& final(self).queue().pending_view() == old(self).queue().pending_view()
                &&& final(self).queue().version_view() == old(self).queue().version_view()
                &&& final(self).in_progress_view() == old(self).in_progress_view()
                &&& final(self).in_flight() == old(self).in_flight()
                &&& final(self).tasks_view() == old(self).tasks_view()
                &&& final(self).ready_view() == old(self).ready_view()
                &&& final(self).dispatched_this_frame() == old(self).dispatched_this_frame()
            },
            r ==> exists|req: MeshRequest|
                {
                    &&& #[trigger] old(self).started(*final(self), req, final(self).tasks_view().last())
                    &&& chunk_ready.ensures((req.pos,), true)
                    &&& start.ensures((req.pos,), Some(final(self).tasks_view().last().task))
                },
            !r && old(self).in_flight() < MAX_MESH_IN_FLIGHT && old(self).queue().heap_view().len()
                + old(self).queue().pending_view().dom().len() < 62 ==> forall|p: ChunkPos|
                #[trigger] old(self).queue().pending_view().dom().contains(p) ==> old(self).deferred(
                    p,
                    chunk_ready,
                    start,
                ),
            !r && old(self).in_flight() < MAX_MESH_IN_FLIGHT && final(self).queue().heap_view().len() < 63
                ==> forall|p: ChunkPos|
                #[trigger] old(self).queue().pending_view().dom().contains(p) ==> old(self).deferred(
                    p,
                    chunk_ready,
                    start,
                ),
    {
        if self.mesh_in_flight >= MAX_MESH_IN_FLIGHT {
            return false;
        }
        let mut deferred: Vec<MeshRequest> = Vec::new();
        let mut rebuilt_heap = false;
        let mut attempts: usize = 0;
        let ghost h0 = self.queue.heap_view().len();
        let ghost p0 = self.queue.pending_view().dom().len();
        let ghost mut exhausted = false;
        proof {
            self.queue.lemma_wf();
        }
        while attempts < 64
            invariant_except_break
                attempts + self.queue.heap_view().len() <= h0 + 1 + (if rebuilt_heap { 1 + p0 } else { 0 }),
                deferred@.len() + (if rebuilt_heap { 1int } else { 0 }) == attempts,
            invariant
                h0 == old(self).queue().heap_view().len(),
                p0 == old(self).queue().pending_view().dom().len(),
                self.queue.pending_view().dom().finite(),
                rebuilt_heap ==> forall|p: ChunkPos|
                    #[trigger] self.queue.pending_view().dom().contains(p) ==> (
                    self.queue.heap_view().count(self.queue.pending_view()[p]) > 0 || old(self).deferred(
                        p,
                        chunk_ready,
                        start,
                    )),
                exhausted ==> forall|p: ChunkPos|
                    #[trigger] self.queue.pending_view().dom().contains(p) ==> old(self).deferred(
                        p,
                        chunk_ready,
                        start,
                    ),
                self.wf(),
                old(self).wf(),
                self.mesh_in_flight < MAX_MESH_IN_FLIGHT,
                self.mesh_in_flight == old(self).mesh_in_flight,
                self.queue.pending_view() == old(self).queue().pending_view(),
                self.queue.version_view() == old(self).queue().version_view(),
                self.in_progress@ == old(self).in_progress@,
                self.tasks@ == old(self).tasks@,
                self.ready_meshes@ == old(self).ready_meshes@,
                self.background_dispatched_this_frame == old(self).background_dispatched_this_frame,
                forall|p: ChunkPos| #[trigger] chunk_ready.requires((p,)),
                forall|p: ChunkPos| #[trigger] start.requires((p,)),
            ensures
                exhausted || attempts + self.queue.heap_view().len() <= h0 + 1 + (if rebuilt_heap { 1 + p0 } else { 0 }),
                exhausted || attempts >= 64,
                exhausted || deferred@.len() + (if rebuilt_heap { 1int } else { 0 }) == attempts,
            decreases 64 - attempts,
        {
            attempts = attempts + 1;
            let ghost qb = self.queue;
            let req = match self.queue.pop_next() {
                Some(req) => req,
                None => {
                    if self.queue.has_pending() && !rebuilt_heap {
                        self.queue.rebuild_heap();
                        rebuilt_heap = true;
                        proof {
                            self.queue.lemma_wf();
                            assert forall|p: ChunkPos| #[trigger] self.queue.pending_view().dom().contains(p) implies self.queue.heap_view().count(self.queue.pending_view()[p]) > 0 by {
                                let ord = self.queue.pending_order();
                                let k = choose|k: int| 0 <= k < ord.len() && ord[k] == p;
                                let vals = ord.map_values(|q: ChunkPos| self.queue.pending_view()[q]);
                                assert(vals[k] == self.queue.pending_view()[p]);
                                assert(vals.contains(self.queue.pending_view()[p]));
                            }
                            assert(self.queue.heap_view().len() == self.queue.pending_order().len());
                            assert(self.queue.pending_order().len() == p0) by {
                                self.queue.pending_order().unique_seq_to_set();
                                assert(self.queue.pending_order().to_set() =~= self.queue.pending_view().dom());
                            }
                        }
                        continue;
                    }
                    proof {
                        assert forall|p: ChunkPos|
                            #[trigger] self.queue.pending_view().dom().contains(p) implies old(self).deferred(
                                p,
                                chunk_ready,
                                start,
                            ) by {
                            if qb.heap_view().count(qb.pending_view()[p]) > 0 {
                                assert(qb.is_current(qb.pending_view()[p]));
                            }
                        }
                        exhausted = true;
                    }
                    break;
                },
            };
            proof {
                let (e, stale) = choose|e: MeshRequest, stale: Multiset<MeshRequest>|
                    #[trigger] qb.popped(self.queue.heap_view(), req, e, stale);
                self.queue.lemma_wf();
                assert(self.queue.pending_view().dom().contains(e.pos));
                assert(req.pos == e.pos);
                assert(self.queue.heap_view().len() < qb.heap_view().len());
                assert forall|p: ChunkPos|
                    #[trigger] self.queue.pending_view().dom().contains(p) && p != req.pos && qb.heap_view().count(qb.pending_view()[p]) > 0
                    implies self.queue.heap_view().count(self.queue.pending_view()[p]) > 0 by {
                    let x = qb.pending_view()[p];
                    assert(qb.is_current(x));
                    assert(stale.count(x) == 0);
                    assert(x != e);
                }
            }
            if self.in_progress.contains_key(req.pos) {
                deferred.push(req);
                continue;
            }
            let counts = counts_toward_dispatch_cap(req.urgency);
            if counts && self.background_dispatched_this_frame >= MAX_BACKGROUND_DISPATCH_PER_FRAME {
                deferred.push(req);
                continue;
            }
            if !chunk_ready(req.pos) {
                deferred.push(req);
                continue;
            }
            let task = match start(req.pos) {
                Some(t) => t,
                None => {
                    deferred.push(req);
                    continue;
                },
            };
            if counts {
                self.background_dispatched_this_frame = self.background_dispatched_this_frame + 1;
            }
            self.queue.take_pending(req.pos);
            self.in_progress.insert(req.pos, ());
            self.mesh_in_flight = self.mesh_in_flight + 1;
            let ghost t_view = MeshInFlight { pos: req.pos, expected_version: req.version, task };
            self.tasks.push(MeshInFlight { pos: req.pos, expected_version: req.version, task });
            self.requeue_all(deferred);
            proof {
                assert(self.in_progress@.dom() =~= old(self).in_progress_view().insert(req.pos));
                assert(old(self).started(*self, req, self.tasks@.last()));
            }
            return true;
        }
        let ghost nd = deferred@.len();
        self.requeue_all(deferred);
        proof {
            if old(self).queue().heap_view().len() + old(self).queue().pending_view().dom().len() < 62 {
                assert(exhausted);
            }
            if !exhausted {
                assert(self.queue.heap_view().len() >= nd);
                assert(nd >= 63);
            }
        }
        false
    }

    /// A frame's dispatching: the frame's count restarts, the service queue
    /// is rebuilt from the waiting requests, then builds are started one at
    /// a time until one cannot start or 64 have started. Returns how many
    /// started.
    pub fn dispatch_frame<R, C>(&mut self, chunk_ready: R, start: C) -> (n: usize) where
        R: Fn(ChunkPos) -> bool,
        C: Fn(ChunkPos) -> Option<T>,
        requires
            old(self).wf(),
            old(self).in_flight() <= MAX_MESH_IN_FLIGHT,
            forall|p: ChunkPos| #[trigger] chunk_ready.requires((p,)),
            forall|p: ChunkPos| #[trigger] start.requires((p,)),
        ensures
            final(self).wf(),
            n <= 64,
            final(self).in_flight() == old(self).in_flight() + n,
            final(self).in_flight() <= MAX_MESH_IN_FLIGHT,
            final(self).dispatched_this_frame() <= MAX_BACKGROUND_DISPATCH_PER_FRAME,
            final(self).tasks_view().len() == old(self).tasks_view().len() + n,
            final(self).tasks_view().take(old(self).tasks_view().len() as int) == old(self).tasks_view(),
            final(self).ready_view() == old(self).ready_view(),
            final(self).queue().version_view() == old(self).queue().version_view(),
            forall|i: int|
                old(self).tasks_view().len() <= i < final(self).tasks_view().len() ==> old(self).started_in_frame(
                    #[trigger] final(self).tasks_view()[i],
                    chunk_ready,
                    start,
                ),
            forall|p: ChunkPos|
                #[trigger] final(self).queue().pending_view().dom().contains(p) <==> (
                old(self).queue().pending_view().dom().contains(p) && !old(self).new_task_at(*final(self), p)),
            forall|p: ChunkPos|
                #[trigger] final(self).queue().pending_view().dom().contains(p) ==> final(self).queue().pending_view()[p]
                    == old(self).queue().pending_view()[p],
            forall|p: ChunkPos|
                #[trigger] final(self).in_progress_view().contains(p) <==> (old(self).in_progress_view().contains(p)
                    || old(self).new_task_at(*final(self), p)),
            n < 64 && final(self).in_flight() < MAX_MESH_IN_FLIGHT && final(self).queue().heap_view().len() < 63
                ==> forall|p: ChunkPos|
                #[trigger] final(self).queue().pending_view().dom().contains(p) ==> final(self).deferred(
                    p,
                    chunk_ready,
                    start,
                ),
    {
        self.start_frame();
        let mut spins: usize = 0;
        let ghost mut stalled = false;
        while spins < 64
            invariant_except_break
                !stalled,
            invariant
                self.wf(),
                spins <= 64,
                forall|i: int|
                    old(self).tasks_view().len() <= i < self.tasks_view().len() ==> old(self).started_in_frame(
                        #[trigger] self.tasks_view()[i],
                        chunk_ready,
                        start,
                    ),
                forall|p: ChunkPos|
                    #[trigger] self.queue().pending_view().dom().contains(p) <==> (
                    old(self).queue().pending_view().dom().contains(p) && !old(self).new_task_at(*self, p)),
                forall|p: ChunkPos|
                    #[trigger] self.queue().pending_view().dom().contains(p) ==> self.queue().pending_view()[p]
                        == old(self).queue().pending_view()[p],
                forall|p: ChunkPos|
                    #[trigger] self.in_progress_view().contains(p) <==> (old(self).in_progress_view().contains(p)
                        || old(self).new_task_at(*self, p)),

                self.in_flight() == old(self).in_flight() + spins,
                self.in_flight() <= MAX_MESH_IN_FLIGHT,
                self.dispatched_this_frame() <= MAX_BACKGROUND_DISPATCH_PER_FRAME,
                self.tasks_view().len() == old(self).tasks_view().len() + spins,
                self.tasks_view().take(old(self).tasks_view().len() as int) == old(self).tasks_view(),
                self.ready_view() == old(self).ready_view(),
                self.queue().version_view() == old(self).queue().version_view(),
                forall|p: ChunkPos| #[trigger] chunk_ready.requires((p,)),
                forall|p: ChunkPos| #[trigger] start.requires((p,)),
            ensures
                stalled || spins >= 64,
                stalled ==> (self.in_flight() >= MAX_MESH_IN_FLIGHT || self.queue().heap_view().len() >= 63
                    || forall|p: ChunkPos|
                    #[trigger] self.queue().pending_view().dom().contains(p) ==> self.deferred(
                        p,
                        chunk_ready,
                        start,
                    )),
            decreases 64 - spins,
        {
            let ghost before = *self;
            if !self.dispatch_one(&chunk_ready, &start) {
                proof {
                    stalled = true;
                    if self.in_flight() < MAX_MESH_IN_FLIGHT && self.queue().heap_view().len() < 63 {
                        assert forall|p: ChunkPos|
                            #[trigger] self.queue().pending_view().dom().contains(p) implies self.deferred(
                                p,
                                chunk_ready,
                                start,
                            ) by {
                            assert(before.queue().pending_view().dom().contains(p));
                            assert(before.deferred(p, chunk_ready, start));
                        }
                    }
                    assert forall|p: ChunkPos| old(self).new_task_at(*self, p) == old(self).new_task_at(before, p) by {
                        if old(self).new_task_at(*self, p) {
                            let i = choose|i: int|
                                old(self).tasks_view().len() <= i < self.tasks_view().len() && #[trigger] self.tasks_view()[i].pos == p;
                            assert(before.tasks_view()[i].pos == p);
                        }
                        if old(self).new_task_at(before, p) {
                            let i = choose|i: int|
                                old(self).tasks_view().len() <= i < before.tasks_view().len() && #[trigger] before.tasks_view()[i].pos == p;
                            assert(self.tasks_view()[i].pos == p);
                        }
                    }
                }
                break;
            }
            proof {
                let req = choose|req: MeshRequest| #[trigger] before.started(*self, req, self.tasks_view().last());
                let t = self.tasks_view().last();
                let n0 = old(self).tasks_view().len() as int;
                assert(self.tasks_view().take(n0) =~= before.tasks_view().take(n0));
                assert(before.queue().pending_view().dom().contains(req.pos));
                assert(old(self).queue().pending_view().dom().contains(req.pos));
                assert(!old(self).in_progress_view().contains(req.pos));
                assert forall|i: int|
                    n0 <= i < self.tasks_view().len() implies old(self).started_in_frame(
                        #[trigger] self.tasks_view()[i],
                        chunk_ready,
                        start,
                    ) by {
                    if i < before.tasks_view().len() {
                        assert(self.tasks_view()[i] == before.tasks_view()[i]);
                    } else {
                        assert(self.tasks_view()[i] == t);
                    }
                }
                assert forall|p: ChunkPos| old(self).new_task_at(*self, p) == (old(self).new_task_at(before, p) || p == req.pos) by {
                    if old(self).new_task_at(*self, p) {
                        let i = choose|i: int|
                            n0 <= i < self.tasks_view().len() && #[trigger] self.tasks_view()[i].pos == p;
                        if i < before.tasks_view().len() {
                            assert(before.tasks_view()[i].pos == p);
                        }
                    }
                    if old(self).new_task_at(before, p) {
                        let i = choose|i: int|
                            n0 <= i < before.tasks_view().len() && #[trigger] before.tasks_view()[i].pos == p;
                        assert(self.tasks_view()[i].pos == p);
                    }
                    if p == req.pos {
                        assert(self.tasks_view()[self.tasks_view().len() - 1].pos == p);
                    }
                }
            }
            spins = spins + 1;
        }
        spins
    }

    /// Puts requests back on the service queue.
    fn requeue_all(&mut self, reqs: Vec<MeshRequest>)
        requires
            old(self).wf(),
        ensures
            final(self).wf(),
            final(self).queue().pending_view() == old(self).queue().pending_view(),
            final(self).queue().version_view() == old(self).queue().version_view(),
            final(self).in_progress == old(self).in_progress,
            final(self).mesh_in_flight == old(self).mesh_in_flight,
            final(self).tasks == old(self).tasks,
            final(self).ready_meshes == old(self).ready_meshes,
            final(self).background_dispatched_this_frame == old(self).background_dispatched_this_frame,
            final(self).queue().heap_view() == old(self).queue().heap_view().add(reqs@.to_multiset()),
    {
        let mut k: usize = 0;
        assert(reqs@.take(0).to_multiset() =~= Multiset::<MeshRequest>::empty());
        while k < reqs.len()
            invariant
                self.wf(),
                k <= reqs@.len(),
                self.queue.heap_view() == old(self).queue().heap_view().add(reqs@.take(k as int).to_multiset()),
                self.queue.pending_view() == old(self).queue().pending_view(),
                self.queue.version_view() == old(self).queue().version_view(),
                self.in_progress == old(self).in_progress,
                self.mesh_in_flight == old(self).mesh_in_flight,
                self.tasks == old(self).tasks,
                self.ready_meshes == old(self).ready_meshes,
                self.background_dispatched_this_frame == old(self).background_dispatched_this_frame,
            decreases reqs@.len() - k,
        {
            self.queue.requeue(reqs[k]);
            proof {
                assert(reqs@.take(k + 1) =~= reqs@.take(k as int).push(reqs@[k as int]));
                assert(reqs@.take(k + 1).to_multiset() =~= reqs@.take(k as int).to_multiset().insert(reqs@[k as int]));
            }
            k = k + 1;
        }
        assert(reqs@.take(k as int) =~= reqs@);
    }

    /// Whether `pos` neither waits for a remesh nor is being built.
    pub fn is_idle(&self, pos: ChunkPos) -> (r: bool)
        requires
            self.wf(),
        ensures
            r == (!self.queue().pending_view().dom().contains(pos)
                && !self.in_progress_view().contains(pos)),
    {
        !self.queue.is_pending(pos) && !self.in_progress.contains_key(pos)
    }
}


/// Uploads of chunk voxel data to the GPU, served most urgent first, at
/// most [`MAX_UPLOAD_PER_FRAME`] per frame.
pub struct GpuChunkScheduler {
    queue: RemeshQueue,
    uploads_this_frame: usize,
}

/// Whether the chunks of a list are pairwise distinct.
pub open spec fn distinct_chunks<U>(s: Seq<(ChunkPos, U)>) -> bool {
    forall|i: int, j: int| 0 <= i < j < s.len() ==> s[i].0 != s[j].0
}

impl GpuChunkScheduler {
    pub closed spec fn queue(&self) -> RemeshQueue {
        self.queue
    }

    pub closed spec fn uploads(&self) -> int {
        self.uploads_this_frame as int
    }

    pub closed spec fn wf(&self) -> bool {
        self.queue.wf()
    }

    pub fn new() -> (r: Self)
        ensures
            r.wf(),
            r.queue().pending_view() == Map::<ChunkPos, MeshRequest>::empty(),
            r.queue().version_view() == Map::<ChunkPos, u64>::empty(),
            r.queue().heap_view() == Multiset::<MeshRequest>::empty(),
            r.uploads() == 0,
    {
        GpuChunkScheduler { queue: RemeshQueue::new(), uploads_this_frame: 0 }
    }

    /// Requests an upload of `pos` (see [`RemeshQueue::requested`]).
    pub fn request(&mut self, pos: ChunkPos, urgency: RemeshUrgency, distance_sq: i32)
        requires
            old(self).wf(),
            old(self).queue().next_version(pos) <= u64::MAX,
        ensures
            final(self).wf(),
            old(self).queue().requested(final(self).queue(), pos, urgency, distance_sq),
            final(self).uploads() == old(self).uploads(),
    {
        self.queue.request(pos, urgency, distance_sq);
    }

    /// Forgets `pos`'s waiting upload and its version.
    pub fn cancel(&mut self, pos: ChunkPos)
        requires
            old(self).wf(),
        ensures
            final(self).wf(),
            final(self).queue().pending_view() == old(self).queue().pending_view().remove(pos),
            final(self).queue().version_view() == old(self).queue().version_view().remove(pos),
            final(self).queue().heap_view() == old(self).queue().heap_view(),
            final(self).uploads() == old(self).uploads(),
    {
        self.queue.cancel(pos);
    }

    pub fn is_pending(&self, pos: ChunkPos) -> (r: bool)
        requires
            self.wf(),
        ensures
            r == self.queue().pending_view().dom().contains(pos),
    {
        self.queue.is_pending(pos)
    }

    /// Makes the service queue hold exactly the waiting uploads.
    pub fn rebuild_heap(&mut self)
        requires
            old(self).wf(),
        ensures
            final(self).wf(),
            final(self).queue().pending_view() == old(self).queue().pending_view(),
            final(self).queue().version_view() == old(self).queue().version_view(),
            final(self).queue().heap_view() == old(self).queue().pending_order().map_values(
                |p: ChunkPos| old(self).queue().pending_view()[p],
            ).to_multiset(),
            final(self).queue().coherent(),
            final(self).queue().all_queued(),
            final(self).uploads() == old(self).uploads(),
    {
        self.queue.rebuild_heap();
    }

    /// One frame of uploads: the frame's count resets and the service queue
    /// is rebuilt; then waiting uploads are taken most urgent first until
    /// the frame's limit is reached or none is left. A chunk that
    /// `chunk_ready` reports not generated or not loaded, or that `capture`
    /// cannot pack, is skipped and keeps waiting; a captured chunk stops
    /// waiting and its upload is returned for committing.
    pub fn upload_frame<R, C, U>(&mut self, chunk_ready: R, capture: C) -> (r: Vec<(ChunkPos, U)>) where
        R: Fn(ChunkPos) -> bool,
        C: Fn(ChunkPos) -> Option<U>,
        requires
            old(self).wf(),
            forall|p: ChunkPos| #[trigger] chunk_ready.requires((p,)),
            forall|p: ChunkPos| #[trigger] capture.requires((p,)),
        ensures
            final(self).wf(),
            r@.len() <= MAX_UPLOAD_PER_FRAME,
            final(self).uploads() == r@.len(),
            distinct_chunks(r@),
            forall|i: int|
                0 <= i < r@.len() ==> {
                    &&& old(self).queue().pending_view().dom().contains(#[trigger] r@[i].0)
                    &&& chunk_ready.ensures((r@[i].0,), true)
                    &&& capture.ensures((r@[i].0,), Some(r@[i].1))
                },
            forall|p: ChunkPos|
                #[trigger] final(self).queue().pending_view().dom().contains(p) <==> (old(self).queue().pending_view().dom().contains(p) && !(exists|i: int|
                    0 <= i < r@.len() && r@[i].0 == p)),
            forall|p: ChunkPos|
                #[trigger] final(self).queue().pending_view().dom().contains(p) ==> final(self).queue().pending_view()[p] == old(self).queue().pending_view()[p],
            final(self).queue().version_view() == old(self).queue().version_view(),
            r@.len() < MAX_UPLOAD_PER_FRAME ==> forall|p: ChunkPos|
                #[trigger] final(self).queue().pending_view().dom().contains(p) ==> (chunk_ready.ensures(
                    (p,),
                    false,
                ) || capture.ensures((p,), None)),
            forall|i: int, j: int|
                #![trigger r@[i], r@[j]]
                0 <= i < j < r@.len() ==> !served_before(
                    old(self).queue().pending_view()[r@[j].0],
                    old(self).queue().pending_view()[r@[i].0],
                ),
    {
        self.uploads_this_frame = 0;
        self.queue.rebuild_heap();
        proof {
            self.queue.lemma_wf();
            assert forall|p: ChunkPos| #[trigger] self.queue.pending_view().dom().contains(p) implies self.queue.heap_view().count(self.queue.pending_view()[p]) > 0 by {
                let ord = self.queue.pending_order();
                let k = choose|k: int| 0 <= k < ord.len() && ord[k] == p;
                let vals = ord.map_values(|q: ChunkPos| self.queue.pending_view()[q]);
                assert(vals[k] == self.queue.pending_view()[p]);
                assert(vals.contains(self.queue.pending_view()[p]));
            }
            assert forall|x: MeshRequest| #[trigger] self.queue.heap_view().count(x) > 0 implies old(self).queue().pending_view().dom().contains(x.pos)
                && x == old(self).queue().pending_view()[x.pos] by {
                let ord = self.queue.pending_order();
                let vals = ord.map_values(|q: ChunkPos| self.queue.pending_view()[q]);
                assert(vals.contains(x));
                let k = choose|k: int| 0 <= k < vals.len() && vals[k] == x;
                assert(self.queue.pending_view().dom().contains(ord[k]));
            }
        }
        let mut out: Vec<(ChunkPos, U)> = Vec::new();
        while self.uploads_this_frame < MAX_UPLOAD_PER_FRAME
            invariant
                forall|x: MeshRequest| #[trigger] self.queue.heap_view().count(x) > 0 ==> old(self).queue().pending_view().dom().contains(x.pos)
                    && x == old(self).queue().pending_view()[x.pos],
                self.wf(),
                self.uploads_this_frame == out@.len(),
                self.uploads_this_frame <= MAX_UPLOAD_PER_FRAME,
                distinct_chunks(out@),
                forall|i: int|
                    0 <= i < out@.len() ==> {
                        &&& old(self).queue().pending_view().dom().contains(#[trigger] out@[i].0)
                        &&& chunk_ready.ensures((out@[i].0,), true)
                        &&& capture.ensures((out@[i].0,), Some(out@[i].1))
                    },
                forall|p: ChunkPos|
                    #[trigger] self.queue.pending_view().dom().contains(p) <==> (old(self).queue().pending_view().dom().contains(p) && !(exists|i: int|
                        0 <= i < out@.len() && out@[i].0 == p)),
                forall|p: ChunkPos|
                    #[trigger] self.queue.pending_view().dom().contains(p) ==> self.queue.pending_view()[p]
                        == old(self).queue().pending_view()[p],
                self.queue.version_view() == old(self).queue().version_view(),
                forall|p: ChunkPos| #[trigger] chunk_ready.requires((p,)),
                forall|p: ChunkPos| #[trigger] capture.requires((p,)),
                forall|p: ChunkPos|
                    #[trigger] self.queue.pending_view().dom().contains(p) ==> (self.queue.heap_view().count(
                        self.queue.pending_view()[p],
                    ) > 0 || chunk_ready.ensures((p,), false) || capture.ensures((p,), None)),
                forall|i: int, p: ChunkPos|
                    0 <= i < out@.len() && #[trigger] self.queue.pending_view().dom().contains(p)
                        && self.queue.heap_view().count(self.queue.pending_view()[p]) > 0 ==> !served_before(
                        self.queue.pending_view()[p],
                        old(self).queue().pending_view()[#[trigger] out@[i].0],
                    ),
                forall|i: int, j: int|
                    #![trigger out@[i], out@[j]]
                    0 <= i < j < out@.len() ==> !served_before(
                        old(self).queue().pending_view()[out@[j].0],
                        old(self).queue().pending_view()[out@[i].0],
                    ),
            ensures
                forall|i: int, j: int|
                    #![trigger out@[i], out@[j]]
                    0 <= i < j < out@.len() ==> !served_before(
                        old(self).queue().pending_view()[out@[j].0],
                        old(self).queue().pending_view()[out@[i].0],
                    ),
                self.wf(),
                self.uploads_this_frame == out@.len(),
                self.uploads_this_frame <= MAX_UPLOAD_PER_FRAME,
                distinct_chunks(out@),
                forall|i: int|
                    0 <= i < out@.len() ==> {
                        &&& old(self).queue().pending_view().dom().contains(#[trigger] out@[i].0)
                        &&& chunk_ready.ensures((out@[i].0,), true)
                        &&& capture.ensures((out@[i].0,), Some(out@[i].1))
                    },
                forall|p: ChunkPos|
                    #[trigger] self.queue.pending_view().dom().contains(p) <==> (old(self).queue().pending_view().dom().contains(p) && !(exists|i: int|
                        0 <= i < out@.len() && out@[i].0 == p)),
                forall|p: ChunkPos|
                    #[trigger] self.queue.pending_view().dom().contains(p) ==> self.queue.pending_view()[p]
                        == old(self).queue().pending_view()[p],
                self.queue.version_view() == old(self).queue().version_view(),
                out@.len() < MAX_UPLOAD_PER_FRAME ==> forall|p: ChunkPos|
                    #[trigger] self.queue.pending_view().dom().contains(p) ==> (chunk_ready.ensures(
                        (p,),
                        false,
                    ) || capture.ensures((p,), None)),
            decreases self.queue.heap_view().len(),
        {
            let ghost qb = self.queue;
            let req = match self.queue.pop_next() {
                Some(req) => req,
                None => {
                    proof {
                        assert forall|p: ChunkPos|
                            #[trigger] self.queue.pending_view().dom().contains(p) implies (chunk_ready.ensures(
                                (p,),
                                false,
                            ) || capture.ensures((p,), None)) by {
                            if qb.heap_view().count(qb.pending_view()[p]) > 0 {
                                assert(qb.is_current(qb.pending_view()[p]));
                            }
                        }
                    }
                    break;
                },
            };
            let ghost e_pos = req.pos;
            proof {
                let (e, stale) = choose|e: MeshRequest, stale: Multiset<MeshRequest>|
                    #[trigger] qb.popped(self.queue.heap_view(), req, e, stale);
                qb.lemma_wf();
                assert(qb.pending_view().dom().contains(e.pos));
                assert(req.pos == e.pos);
                assert(self.queue.heap_view().len() < qb.heap_view().len());
                assert forall|p: ChunkPos|
                    #[trigger] self.queue.pending_view().dom().contains(p) && p != req.pos && qb.heap_view().count(qb.pending_view()[p]) > 0
                    implies self.queue.heap_view().count(self.queue.pending_view()[p]) > 0 by {
                    let x = qb.pending_view()[p];
                    assert(qb.is_current(x));
                    assert(stale.count(x) == 0);
                    assert(x != e);
                }
                assert forall|p: ChunkPos|
                    #[trigger] self.queue.pending_view().dom().contains(p) && self.queue.heap_view().count(self.queue.pending_view()[p]) > 0
                    implies qb.heap_view().count(qb.pending_view()[p]) > 0 && !served_before(qb.pending_view()[p], e) by {
                    assert(qb.heap_view() == self.queue.heap_view().add(stale).insert(e));
                    assert(qb.is_current(qb.pending_view()[p]));
                }
                assert(qb.heap_view().count(e) > 0);
                assert(e == old(self).queue().pending_view()[e.pos]);
                assert forall|x: MeshRequest| #[trigger] self.queue.heap_view().count(x) > 0 implies qb.heap_view().count(x) > 0 by {
                    assert(qb.heap_view() == self.queue.heap_view().add(stale).insert(e));
                }
            }
            if !chunk_ready(req.pos) {
                continue;
            }
            let upload = match capture(req.pos) {
                Some(u) => u,
                None => {
                    continue;
                },
            };
            let ghost before = out@;
            self.queue.take_pending(req.pos);
            out.push((req.pos, upload));
            self.uploads_this_frame = self.uploads_this_frame + 1;
            proof {
                assert forall|i: int| 0 <= i < before.len() implies before[i].0 != req.pos by {
                    assert(qb.pending_view().dom().contains(req.pos));
                }
                assert forall|p: ChunkPos|
                    #[trigger] self.queue.pending_view().dom().contains(p) <==> (old(self).queue().pending_view().dom().contains(p) && !(exists|i: int|
                        0 <= i < out@.len() && out@[i].0 == p)) by {
                    if p == req.pos {
                        assert(out@[before.len() as int].0 == p);
                    } else {
                        assert(self.queue.pending_view().dom().contains(p) == qb.pending_view().dom().contains(p));
                    }
                    if exists|i: int| 0 <= i < out@.len() && out@[i].0 == p {
                        let i = choose|i: int| 0 <= i < out@.len() && out@[i].0 == p;
                        if i < before.len() {
                            assert(before[i].0 == p);
                        }
                    }
                    if exists|i: int| 0 <= i < before.len() && before[i].0 == p {
                        let i = choose|i: int| 0 <= i < before.len() && before[i].0 == p;
                        assert(out@[i].0 == p);
                    }
                }
                let e_req = old(self).queue().pending_view()[req.pos];
                assert forall|i: int, p: ChunkPos|
                    0 <= i < out@.len() && #[trigger] self.queue.pending_view().dom().contains(p)
                        && self.queue.heap_view().count(self.queue.pending_view()[p]) > 0 implies !served_before(
                        self.queue.pending_view()[p],
                        old(self).queue().pending_view()[#[trigger] out@[i].0],
                    ) by {
                    assert(self.queue.pending_view()[p] == qb.pending_view()[p]);
                    if i < before.len() {
                        assert(out@[i] == before[i]);
                    } else {
                        assert(out@[i].0 == req.pos);
                    }
                }
                assert forall|i: int, j: int|
                    #![trigger out@[i], out@[j]]
                    0 <= i < j < out@.len() implies !served_before(
                        old(self).queue().pending_view()[out@[j].0],
                        old(self).queue().pending_view()[out@[i].0],
                    ) by {
                    if j < before.len() {
                        assert(out@[i] == before[i] && out@[j] == before[j]);
                    } else {
                        assert(out@[i] == before[i]);
                        assert(out@[j].0 == req.pos);
                        assert(qb.pending_view().dom().contains(req.pos));
                        assert(qb.heap_view().count(qb.pending_view()[req.pos]) > 0);
                    }
                }
            }
        }
        out
    }
}

/// Which dirty chunks to schedule this frame: the ready ones, in order,
/// up to `cap` of them.
pub open spec fn dirty_plan(ready: Seq<bool>, cap: int) -> Seq<bool>
    decreases ready.len(),
{
    if ready.len() == 0 {
        Seq::empty()
    } else {
        let prev = dirty_plan(ready.drop_last(), cap);
        let taken = prev.filter(|b: bool| b).len();
        prev.push(ready.last() && taken < cap)
    }
}

/// Decides which dirty chunks to schedule this frame: `ready[i]` tells
/// whether chunk `i` is generated and loaded; the first `cap` ready chunks
/// are scheduled and every other chunk stays dirty.
pub fn plan_dirty_drain(ready: &Vec<bool>, cap: usize) -> (r: Vec<bool>)
    ensures
        r@ == dirty_plan(ready@, cap as int),
{
    let mut out: Vec<bool> = Vec::new();
    let mut scheduled: usize = 0;
    let mut k: usize = 0;
    while k < ready.len()
        invariant
            k <= ready@.len(),
            out@ == dirty_plan(ready@.take(k as int), cap as int),
            scheduled as int == out@.filter(|b: bool| b).len(),
            scheduled <= k,
        decreases ready@.len() - k,
    {
        assert(ready@.take(k as int + 1).drop_last() =~= ready@.take(k as int));
        let take = ready[k] && scheduled < cap;
        out.push(take);
        proof {
            reveal_with_fuel(Seq::<_>::filter, 1);
            assert(out@.drop_last() =~= dirty_plan(ready@.take(k as int), cap as int));
        }
        if take {
            scheduled = scheduled + 1;
        }
        k = k + 1;
    }
    assert(ready@.take(k as int) =~= ready@);
    out
}

/// Squared distance from a block to the center block of a chunk.
pub open spec fn chunk_distance_sq(player: (int, int, int), chunk: ChunkPos) -> int {
    let dx = chunk.x * 16 + 8 - player.0;
    let dy = chunk.y * 16 + 8 - player.1;
    let dz = chunk.z * 16 + 8 - player.2;
    dx * dx + dy * dy + dz * dz
}

/// Squared distance from the player's block to the center block of a chunk.
pub fn chunk_distance_sq_from_block(player_block: (i32, i32, i32), chunk: ChunkPos) -> (r: i32)
    requires
        -100_000_000 <= chunk.x <= 100_000_000,
        -100_000_000 <= chunk.y <= 100_000_000,
        -100_000_000 <= chunk.z <= 100_000_000,
        chunk_distance_sq(
            (player_block.0 as int, player_block.1 as int, player_block.2 as int),
            chunk,
        ) <= i32::MAX,
    ensures
        r as int == chunk_distance_sq(
            (player_block.0 as int, player_block.1 as int, player_block.2 as int),
            chunk,
        ),
{
    let cx = chunk.x as i64 * 16 + 8;
    let cy = chunk.y as i64 * 16 + 8;
    let cz = chunk.z as i64 * 16 + 8;
    let dx = cx - player_block.0 as i64;
    let dy = cy - player_block.1 as i64;
    let dz = cz - player_block.2 as i64;
    let ghost d = chunk_distance_sq(
        (player_block.0 as int, player_block.1 as int, player_block.2 as int),
        chunk,
    );
    assert(dx * dx + dy * dy + dz * dz == d);
    assert(0 <= dx * dx <= d && 0 <= dy * dy <= d && 0 <= dz * dz <= d) by (nonlinear_arith)
        requires
            d == dx * dx + dy * dy + dz * dz,
    ;
    let r = dx * dx + dy * dy + dz * dz;
    r as i32
}


/// A finished mesh is kept exactly when its task was started for the
/// chunk's current version (0 when it has none). In particular, once a newer request of the
/// chunk was accepted, a mesh started for any earlier version is discarded.
pub proof fn lemma_rerequest_discards_stale_mesh<T, M>(
    q: RemeshQueue,
    after: RemeshQueue,
    pos: ChunkPos,
    urgency: RemeshUrgency,
    distance_sq: i32,
    t: MeshInFlight<T>,
    mesh: M,
)
    requires
        q.requested(after, pos, urgency, distance_sq),
        !(q.pending_view().dom().contains(pos) && urgency_rank(q.pending_view()[pos].urgency)
            > urgency_rank(urgency)),
        t.pos == pos,
        t.expected_version < q.next_version(pos),
        q.next_version(pos) <= u64::MAX,
    ensures
        after.version_view().dom().contains(pos),
        after.version_view()[pos] > t.expected_version,
        fresh_meshes(seq![(t, Some(mesh))], after.version_view()).len() == 0,
        fresh_meshes(seq![(t, Some(mesh))], q.version_view()) == if t.expected_version == (
            if q.version_view().dom().contains(pos) {
                q.version_view()[pos] as int
            } else {
                0
            }) {
            seq![(pos, mesh)]
        } else {
            Seq::<(ChunkPos, M)>::empty()
        },
{
    let polled = seq![(t, Some(mesh))];
    assert(polled.drop_last() =~= Seq::<(MeshInFlight<T>, Option<M>)>::empty());
    assert(polled.last() == (t, Some(mesh)));
    reveal_with_fuel(fresh_meshes, 2);
}

} // verus!
