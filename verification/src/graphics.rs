//! Graphics settings that the renderer derives from the settings file, and
//! the order in which directional lights reach the GPU.

use vstd::prelude::*;

verus! {

/// The number of shadow cascades the renderer uses for a configured count:
/// clamped to 1..=4.
pub fn clamp_shadow_cascades(cascades: u32) -> (r: u32)
    ensures
        r == if cascades < 1 {
            1
        } else if cascades > 4 {
            4
        } else {
            cascades
        },
{
    if cascades < 1 {
        1
    } else if cascades > 4 {
        4
    } else {
        cascades
    }
}

/// The counters of the GPU voxel store that signal lost or delayed work.
#[derive(Debug, Clone, Copy)]
pub struct GpuOverflowCounters {
    pub overflow_pending: bool,
    pub global_overflow_buckets: u64,
    pub scratch_overflow_chunks: u64,
    pub upload_failures: u64,
    pub evictions: u64,
}

/// Whether the GPU store overflowed, failed an upload or evicted chunks.
pub open spec fn overflowed(c: GpuOverflowCounters) -> bool {
    c.overflow_pending || c.global_overflow_buckets > 0 || c.scratch_overflow_chunks > 0
        || c.upload_failures > 0 || c.evictions > 0
}

/// The warning the debug overlay appends to its GPU line: `"  OVERFLOW"`
/// when the store's counters show an overflow, nothing otherwise or when
/// no counters are known.
pub fn overflow_warning(counters: Option<GpuOverflowCounters>) -> (r: String)
    ensures
        r@ == match counters {
            Some(c) => if overflowed(c) {
                "  OVERFLOW"@
            } else {
                ""@
            },
            None => ""@,
        },
{
    proof {
        reveal_strlit("");
    }
    match counters {
        Some(c) => {
            if c.overflow_pending || c.global_overflow_buckets > 0 || c.scratch_overflow_chunks > 0
                || c.upload_failures > 0 || c.evictions > 0 {
                String::from_str("  OVERFLOW")
            } else {
                String::new()
            }
        },
        None => String::new(),
    }
}

/// Whether light `a` sorts before light `b`: lights without shadow maps
/// first, then by entity bits. A light is its entity's bits and whether it
/// casts shadow maps.
pub open spec fn light_before(a: (u64, bool), b: (u64, bool)) -> bool {
    (!a.1 && b.1) || (a.1 == b.1 && a.0 < b.0)
}

/// Light `j` sorts before light `i` when the sort keeps equal lights in
/// input order.
pub open spec fn ahead_of(ls: Seq<(u64, bool)>, j: int, i: int) -> bool {
    light_before(ls[j], ls[i]) || (j < i && ls[j] == ls[i])
}

/// How many of the first `n` lights sort before light `i` when the sort
/// keeps equal lights in input order.
pub open spec fn lights_ahead(ls: Seq<(u64, bool)>, i: int, n: int) -> int
    decreases n,
{
    if n <= 0 {
        0
    } else {
        lights_ahead(ls, i, n - 1) + if ahead_of(ls, n - 1, i) {
            1int
        } else {
            0
        }
    }
}

proof fn lemma_lights_ahead_bounds(ls: Seq<(u64, bool)>, i: int, n: int)
    ensures
        0 <= lights_ahead(ls, i, n) <= if n < 0 { 0 } else { n },
    decreases n,
{
    if n > 0 {
        lemma_lights_ahead_bounds(ls, i, n - 1);
    }
}

/// The GPU index of each directional light, in input order: its position
/// once the lights are sorted without shadow maps first, then by entity
/// bits, equal lights keeping their input order.
pub fn directional_light_gpu_indices(lights: &Vec<(u64, bool)>) -> (r: Vec<u32>)
    requires
        lights@.len() <= u32::MAX,
    ensures
        r@.len() == lights@.len(),
        forall|i: int| 0 <= i < r@.len() ==> #[trigger] r@[i] == lights_ahead(lights@, i, lights@.len() as int),
{
    let n = lights.len();
    let mut out: Vec<u32> = Vec::new();
    let mut i: usize = 0;
    while i < n
        invariant
            n == lights@.len(),
            n <= u32::MAX,
            i <= n,
            out@.len() == i,
            forall|k: int| 0 <= k < i ==> #[trigger] out@[k] == lights_ahead(lights@, k, n as int),
        decreases n - i,
    {
        let (bits, shadow) = lights[i];
        let mut ahead: u32 = 0;
        let mut j: usize = 0;
        while j < n
            invariant
                n == lights@.len(),
                n <= u32::MAX,
                i < n,
                j <= n,
                lights@[i as int] == (bits, shadow),
                ahead == lights_ahead(lights@, i as int, j as int),
            decreases n - j,
        {
            proof {
                lemma_lights_ahead_bounds(lights@, i as int, j as int);
            }
            let (b2, s2) = lights[j];
            let before = (!s2 && shadow) || (s2 == shadow && b2 < bits);
            if before || (j < i && b2 == bits && s2 == shadow) {
                ahead = ahead + 1;
            }
            j = j + 1;
        }
        out.push(ahead);
        i = i + 1;
    }
    out
}

proof fn lemma_ahead_order(ls: Seq<(u64, bool)>, a: int, b: int, c: int)
    ensures
        !ahead_of(ls, a, a),
        a != b ==> (ahead_of(ls, a, b) <==> !ahead_of(ls, b, a)),
        ahead_of(ls, a, b) && ahead_of(ls, b, c) ==> ahead_of(ls, a, c),
{
}

/// Light `i` is not counted ahead of itself.
proof fn lemma_rank_below(ls: Seq<(u64, bool)>, i: int, m: int)
    requires
        0 <= i < m,
    ensures
        lights_ahead(ls, i, m) <= m - 1,
    decreases m,
{
    lemma_ahead_order(ls, i, i, i);
    if m - 1 == i {
        lemma_lights_ahead_bounds(ls, i, m - 1);
    } else {
        lemma_rank_below(ls, i, m - 1);
    }
}

/// A light sorted ahead of another has fewer lights ahead of it.
proof fn lemma_rank_mono(ls: Seq<(u64, bool)>, j: int, i: int, m: int)
    requires
        ahead_of(ls, j, i),
    ensures
        lights_ahead(ls, j, m) <= lights_ahead(ls, i, m),
        0 <= j < m ==> lights_ahead(ls, j, m) < lights_ahead(ls, i, m),
    decreases m,
{
    if m > 0 {
        lemma_rank_mono(ls, j, i, m - 1);
        lemma_ahead_order(ls, m - 1, j, i);
        lemma_ahead_order(ls, j, j, j);
    }
}

/// Some light of the list gets GPU index `r`.
pub open spec fn some_light_has_index(ls: Seq<(u64, bool)>, r: int) -> bool {
    exists|i: int| 0 <= i < ls.len() && #[trigger] lights_ahead(ls, i, ls.len() as int) == r
}

/// The GPU indices of the directional lights number them 0 to n - 1, each
/// once, in the sort order: a light without shadow maps comes before one
/// with them, and among equal shadow settings the smaller entity bits come
/// first.
pub proof fn lemma_light_indices_rank_lights(ls: Seq<(u64, bool)>)
    ensures
        forall|i: int| 0 <= i < ls.len() ==> 0 <= #[trigger] lights_ahead(ls, i, ls.len() as int) < ls.len(),
        forall|i: int, j: int|
            0 <= i < ls.len() && 0 <= j < ls.len() && i != j ==> #[trigger] lights_ahead(ls, i, ls.len() as int)
                != #[trigger] lights_ahead(ls, j, ls.len() as int),
        forall|i: int, j: int|
            0 <= i < ls.len() && 0 <= j < ls.len() && light_before(ls[i], ls[j]) ==> #[trigger] lights_ahead(
                ls,
                i,
                ls.len() as int,
            ) < #[trigger] lights_ahead(ls, j, ls.len() as int),
        forall|r: int| 0 <= r < ls.len() ==> #[trigger] some_light_has_index(ls, r),
{
    let n = ls.len() as int;
    assert forall|i: int| 0 <= i < n implies 0 <= #[trigger] lights_ahead(ls, i, n) < n by {
        lemma_lights_ahead_bounds(ls, i, n);
        lemma_rank_below(ls, i, n);
    }
    assert forall|i: int, j: int|
        0 <= i < n && 0 <= j < n && i != j implies #[trigger] lights_ahead(ls, i, n) != #[trigger] lights_ahead(ls, j, n) by {
        lemma_ahead_order(ls, i, j, j);
        if ahead_of(ls, i, j) {
            lemma_rank_mono(ls, i, j, n);
        } else {
            lemma_rank_mono(ls, j, i, n);
        }
    }
    assert forall|i: int, j: int|
        0 <= i < n && 0 <= j < n && light_before(ls[i], ls[j]) implies #[trigger] lights_ahead(ls, i, n)
            < #[trigger] lights_ahead(ls, j, n) by {
        lemma_rank_mono(ls, i, j, n);
    }
    let x = vstd::set_lib::set_int_range(0, n);
    let f = |i: int| lights_ahead(ls, i, n);
    let y = x.map(f);
    vstd::set_lib::lemma_int_range(0, n);
    assert(vstd::relations::injective_on(f, x)) by {
        assert forall|a: int, b: int| x.contains(a) && x.contains(b) && #[trigger] f(a) == #[trigger] f(b) implies a == b by {
            if a != b {
                assert(lights_ahead(ls, a, n) != lights_ahead(ls, b, n));
            }
        }
    }
    vstd::set_lib::lemma_map_size(x, y, f);
    assert(y.subset_of(x)) by {
        assert forall|r: int| y.contains(r) implies x.contains(r) by {
            let i = choose|i: int| x.contains(i) && f(i) == r;
            assert(0 <= lights_ahead(ls, i, n) < n);
        }
    }
    vstd::set_lib::lemma_subset_equality(y, x);
    assert forall|r: int| 0 <= r < n implies #[trigger] some_light_has_index(ls, r) by {
        assert(x.contains(r));
        assert(y.contains(r));
        let i = choose|i: int| x.contains(i) && f(i) == r;
        assert(lights_ahead(ls, i, n) == r);
    }
}

/// With no light listed twice, a light's GPU index is the number of
/// distinct lights that sort before it.
proof fn lemma_rank_counts_set(ls: Seq<(u64, bool)>, i: int, m: int)
    requires
        ls.no_duplicates(),
        0 <= i < ls.len(),
        0 <= m <= ls.len(),
    ensures
        ls.take(m).to_set().filter(|x: (u64, bool)| light_before(x, ls[i])).finite(),
        lights_ahead(ls, i, m) == ls.take(m).to_set().filter(|x: (u64, bool)| light_before(x, ls[i])).len(),
    decreases m,
{
    broadcast use vstd::seq_lib::seq_to_set_is_finite;
    broadcast use vstd::set::group_set_axioms;

    let p = |x: (u64, bool)| light_before(x, ls[i]);
    if m == 0 {
        assert(ls.take(0).to_set().filter(p) =~= Set::<(u64, bool)>::empty());
    } else {
        lemma_rank_counts_set(ls, i, m - 1);
        let prev = ls.take(m - 1);
        let e = ls[m - 1];
        assert(ls.take(m) =~= prev.push(e));
        prev.lemma_push_to_set_commute(e);
        assert(!prev.to_set().contains(e)) by {
            if prev.contains(e) {
                let k = choose|k: int| 0 <= k < prev.len() && prev[k] == e;
                assert(ls[k] == ls[m - 1]);
            }
        }
        let fs = prev.to_set().filter(p);
        if p(e) {
            assert(ls.take(m).to_set().filter(p) =~= fs.insert(e));
        } else {
            assert(ls.take(m).to_set().filter(p) =~= fs);
        }
        assert(ahead_of(ls, m - 1, i) == p(e)) by {
            if m - 1 < i && ls[m - 1] == ls[i] {
                assert(false);
            }
        }
    }
}

/// With no light listed twice, the GPU index of a light does not depend on
/// the order in which the lights are listed: two lists of the same lights
/// give each light the same index.
pub proof fn lemma_light_indices_ignore_list_order(ls: Seq<(u64, bool)>, ls2: Seq<(u64, bool)>, i: int, j: int)
    requires
        ls.no_duplicates(),
        ls2.no_duplicates(),
        forall|x: (u64, bool)| #[trigger] ls.contains(x) <==> ls2.contains(x),
        0 <= i < ls.len(),
        0 <= j < ls2.len(),
        ls[i] == ls2[j],
    ensures
        lights_ahead(ls, i, ls.len() as int) == lights_ahead(ls2, j, ls2.len() as int),
{
    lemma_rank_counts_set(ls, i, ls.len() as int);
    lemma_rank_counts_set(ls2, j, ls2.len() as int);
    assert(ls.take(ls.len() as int) =~= ls);
    assert(ls2.take(ls2.len() as int) =~= ls2);
    assert(ls.to_set() =~= ls2.to_set());
    let p = |x: (u64, bool)| light_before(x, ls[i]);
    let p2 = |x: (u64, bool)| light_before(x, ls2[j]);
    assert(ls.to_set().filter(p) =~= ls2.to_set().filter(p2));
}

} // verus!
