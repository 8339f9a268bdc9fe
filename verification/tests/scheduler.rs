use stagcrest::chunk_map::{ChunkMap, ChunkPos};
use stagcrest::scheduler::{
    chunk_distance_sq_from_block, plan_dirty_drain, GpuChunkScheduler, MeshScheduler, RemeshQueue,
    RemeshUrgency, MAX_MESH_IN_FLIGHT,
};

#[test]
fn scheduling_respects_urgency() {
    let mut sched: MeshScheduler<u32, u32> = MeshScheduler::new();
    let pos = ChunkPos { x: 0, y: 0, z: 0 };

    sched.request(pos, RemeshUrgency::Interactive, 0);
    sched.request(pos, RemeshUrgency::Background, 0);
    assert_eq!(sched.pop_next().unwrap().urgency, RemeshUrgency::Interactive);

    sched.request(ChunkPos { x: 1, y: 0, z: 0 }, RemeshUrgency::Circuit, 1);
    sched.request(pos, RemeshUrgency::Interactive, 100);
    assert_eq!(sched.pop_next().unwrap().urgency, RemeshUrgency::Interactive);
}

#[test]
fn stale_in_flight_mesh_discarded_after_rerequest() {
    let mut sched: MeshScheduler<u32, &'static str> = MeshScheduler::new();
    let pos = ChunkPos { x: 0, y: 0, z: 0 };
    sched.request(pos, RemeshUrgency::Circuit, 0);
    assert!(sched.dispatch_one(|_| true, |_| Some(7u32)));
    assert!(sched.is_in_progress(pos));
    assert_eq!(sched.version_of(pos), Some(1));

    sched.request(pos, RemeshUrgency::Circuit, 0);
    let tasks = sched.take_tasks();
    assert_eq!(tasks.len(), 1);
    let polled = tasks.into_iter().map(|t| (t, Some("mesh"))).collect();
    sched.poll(polled);

    assert!(sched.take_ready().is_empty());
    assert_eq!(sched.version_of(pos), Some(2));
    assert!(!sched.is_in_progress(pos));
}

#[test]
fn current_mesh_is_kept() {
    let mut sched: MeshScheduler<u32, &'static str> = MeshScheduler::new();
    let pos = ChunkPos { x: 2, y: 0, z: -1 };
    sched.request(pos, RemeshUrgency::Visible, 5);
    assert!(sched.dispatch_one(|_| true, |_| Some(1u32)));
    let tasks = sched.take_tasks();
    let polled = tasks.into_iter().map(|t| (t, Some("mesh"))).collect();
    sched.poll(polled);
    assert_eq!(sched.take_ready(), vec![(pos, "mesh")]);
}

#[test]
fn running_task_stays_in_flight() {
    let mut sched: MeshScheduler<u32, &'static str> = MeshScheduler::new();
    let pos = ChunkPos { x: 0, y: 1, z: 0 };
    sched.request(pos, RemeshUrgency::Interactive, 0);
    assert!(sched.dispatch_one(|_| true, |_| Some(3u32)));
    let tasks = sched.take_tasks();
    let polled = tasks.into_iter().map(|t| (t, None)).collect();
    sched.poll(polled);
    assert!(sched.take_ready().is_empty());
    assert!(sched.is_in_progress(pos));
    assert_eq!(sched.take_tasks().len(), 1);
}

#[test]
fn dispatch_defers_unfinished_chunk() {
    let mut sched: MeshScheduler<u32, u32> = MeshScheduler::new();
    let pos = ChunkPos { x: 0, y: 0, z: 0 };
    sched.request(pos, RemeshUrgency::Visible, 0);
    assert!(!sched.dispatch_one(|_| false, |_| Some(1u32)));
    assert!(sched.is_pending(pos));
}

#[test]
fn dispatch_stops_at_the_in_flight_limit() {
    let mut sched: MeshScheduler<u32, u32> = MeshScheduler::new();
    for i in 0..(MAX_MESH_IN_FLIGHT as i32 + 3) {
        sched.request(ChunkPos { x: i, y: 0, z: 0 }, RemeshUrgency::Interactive, i);
    }
    let mut started = 0;
    while sched.dispatch_one(|_| true, |_| Some(0u32)) {
        started += 1;
    }
    assert_eq!(started, MAX_MESH_IN_FLIGHT);
}

#[test]
fn background_dispatch_is_capped_per_frame() {
    let mut sched: MeshScheduler<u32, u32> = MeshScheduler::new();
    for i in 0..12 {
        sched.request(ChunkPos { x: i, y: 0, z: 0 }, RemeshUrgency::Background, i);
    }
    let mut started = 0;
    while sched.dispatch_one(|_| true, |_| Some(0u32)) {
        started += 1;
    }
    assert_eq!(started, 8);
    sched.start_frame();
    assert!(sched.dispatch_one(|_| true, |_| Some(0u32)));
}

#[test]
fn cancel_forgets_the_chunk() {
    let mut sched: MeshScheduler<u32, u32> = MeshScheduler::new();
    let pos = ChunkPos { x: 4, y: 0, z: 4 };
    sched.request(pos, RemeshUrgency::Visible, 0);
    sched.cancel(pos);
    assert!(!sched.is_pending(pos));
    assert_eq!(sched.version_of(pos), None);
}

#[test]
fn lower_urgency_request_is_ignored_while_waiting() {
    let mut q = RemeshQueue::new();
    let pos = ChunkPos { x: 0, y: 0, z: 0 };
    q.request(pos, RemeshUrgency::Circuit, 3);
    q.request(pos, RemeshUrgency::Visible, 1);
    let req = q.pending_request(pos).unwrap();
    assert_eq!(req.urgency, RemeshUrgency::Circuit);
    assert_eq!(q.version_of(pos), Some(1));
    q.request(pos, RemeshUrgency::Circuit, 2);
    assert_eq!(q.version_of(pos), Some(2));
}

#[test]
fn nearer_requests_pop_first_at_equal_urgency() {
    let mut q = RemeshQueue::new();
    q.request(ChunkPos { x: 5, y: 0, z: 0 }, RemeshUrgency::Visible, 50);
    q.request(ChunkPos { x: 1, y: 0, z: 0 }, RemeshUrgency::Visible, 10);
    q.request(ChunkPos { x: 3, y: 0, z: 0 }, RemeshUrgency::Visible, 30);
    assert_eq!(q.pop_next().unwrap().distance_sq, 10);
    assert_eq!(q.pop_next().unwrap().distance_sq, 30);
    assert_eq!(q.pop_next().unwrap().distance_sq, 50);
}

#[test]
fn gpu_cancel_drops_pending_upload() {
    let mut sched = GpuChunkScheduler::new();
    let pos = ChunkPos { x: 0, y: 0, z: 0 };
    sched.request(pos, RemeshUrgency::Visible, 0);
    assert!(sched.is_pending(pos));
    sched.cancel(pos);
    assert!(!sched.is_pending(pos));
}

#[test]
fn gpu_upload_frame_captures_ready_chunks() {
    let mut sched = GpuChunkScheduler::new();
    let a = ChunkPos { x: 0, y: 0, z: 0 };
    let b = ChunkPos { x: 1, y: 0, z: 0 };
    sched.request(a, RemeshUrgency::Visible, 0);
    sched.request(b, RemeshUrgency::Visible, 1);
    let out = sched.upload_frame(|p: ChunkPos| p.x == 0, |p: ChunkPos| Some(p.x * 10));
    assert_eq!(out, vec![(a, 0)]);
    assert!(!sched.is_pending(a));
    assert!(sched.is_pending(b));
}

#[test]
fn dirty_drain_takes_ready_chunks_up_to_cap() {
    assert_eq!(
        plan_dirty_drain(&vec![true, false, true, true, true], 2),
        vec![true, false, true, false, false]
    );
    assert_eq!(plan_dirty_drain(&vec![], 3), Vec::<bool>::new());
}

#[test]
fn chunk_distance_is_to_the_chunk_center() {
    assert_eq!(chunk_distance_sq_from_block((8, 8, 8), ChunkPos { x: 0, y: 0, z: 0 }), 0);
    assert_eq!(chunk_distance_sq_from_block((0, 0, 0), ChunkPos { x: 1, y: 0, z: -1 }), 24 * 24 + 64 + 64);
}

#[test]
fn chunk_map_insert_get_remove() {
    let mut m: ChunkMap<u32> = ChunkMap::new();
    let a = ChunkPos::new(1, 2, 3);
    m.insert(a, 5);
    m.insert(a, 6);
    assert_eq!(m.len(), 1);
    assert_eq!(m.get(a), Some(6));
    assert_eq!(m.remove(a), Some(6));
    assert!(m.is_empty());
}

#[test]
fn frame_dispatch_fills_the_in_flight_limit() {
    let mut sched: MeshScheduler<u32, u32> = MeshScheduler::new();
    for i in 0..20 {
        sched.request(ChunkPos { x: i, y: 0, z: 0 }, RemeshUrgency::Interactive, i);
    }
    assert_eq!(sched.dispatch_frame(|_| true, |p: ChunkPos| Some(p.x as u32)), MAX_MESH_IN_FLIGHT);
    let tasks = sched.take_tasks();
    assert_eq!(tasks[0].pos, ChunkPos { x: 0, y: 0, z: 0 });
    assert_eq!(tasks[0].task, 0);
    assert_eq!(sched.dispatch_frame(|_| true, |_| Some(0u32)), 0);
}

#[test]
fn chunk_map_keeps_first_insertion_order() {
    let mut m: ChunkMap<u8> = ChunkMap::new();
    let far = ChunkPos::new(i32::MIN, i32::MAX, -1);
    let near = ChunkPos::new(0, 0, 0);
    let other = ChunkPos::new(0, 0, 1);
    m.insert(far, 1);
    m.insert(near, 2);
    m.insert(other, 3);
    m.insert(far, 4);
    assert_eq!(m.keys(), vec![far, near, other]);
    assert_eq!(m.values(), vec![4, 2, 3]);
    assert_eq!(m.remove(near), Some(2));
    assert_eq!(m.remove(near), None);
    assert_eq!(m.keys(), vec![far, other]);
    assert!(m.contains_key(other) && !m.contains_key(ChunkPos::new(0, 1, 0)));
    m.retain_in_stream(0, 0, 0, 2, 2);
    assert_eq!(m.keys(), vec![other]);
    assert_eq!(m.get(other), Some(3));
}

#[test]
fn popped_request_is_most_urgent_waiting() {
    let mut q = RemeshQueue::new();
    let a = ChunkPos::new(0, 0, 0);
    let b = ChunkPos::new(1, 0, 0);
    q.request(a, RemeshUrgency::Visible, 10);
    q.request(b, RemeshUrgency::Visible, 2);
    q.request(a, RemeshUrgency::Interactive, 50);
    q.rebuild_heap();
    let first = q.pop_next().unwrap();
    assert_eq!(first.pos, a);
    assert_eq!(first.urgency, RemeshUrgency::Interactive);
    assert_eq!(first.version, 2);
    assert_eq!(q.pop_next().unwrap().pos, b);
}

#[test]
fn frame_dispatch_stops_only_when_nothing_can_start() {
    let mut sched: MeshScheduler<u32, u32> = MeshScheduler::new();
    for i in 0..5 {
        sched.request(ChunkPos { x: i, y: 0, z: 0 }, RemeshUrgency::Interactive, i);
    }
    // Chunks 1 and 3 are not ready; the other three start.
    let n = sched.dispatch_frame(|p: ChunkPos| p.x % 2 == 0 || p.x == 4, |p: ChunkPos| Some(p.x as u32));
    assert_eq!(n, 3);
    let mut started: Vec<i32> = sched.take_tasks().iter().map(|t| t.pos.x).collect();
    started.sort();
    assert_eq!(started, vec![0, 2, 4]);
    assert!(sched.is_pending(ChunkPos { x: 1, y: 0, z: 0 }));
    assert!(sched.is_pending(ChunkPos { x: 3, y: 0, z: 0 }));
    assert!(!sched.is_pending(ChunkPos { x: 2, y: 0, z: 0 }));
}
