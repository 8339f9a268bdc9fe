//! Greedy merging of coplanar cube faces: within one slice of a chunk,
//! neighboring faces that render identically are merged into rectangles.

use vstd::prelude::*;

verus! {

/// Everything that must agree for two faces to merge into one quad.
#[derive(Clone, Copy, Debug, PartialEq, Eq, Structural)]
pub struct MergeKey {
    pub block_id: u32,
    pub block_state: u32,
    pub face_tex_hash: u64,
    pub tint: u32,
    pub overlay_tint: u32,
    pub tint_mul_r: u32,
    pub tint_mul_g: u32,
    pub tint_mul_b: u32,
    pub bucket: u8,
}

/// Hash of a face texture: texture id, then overlay id (0 for none), tint
/// kind and overlay tint kind, folded with `h * 31 + x` in wrapping `u64`
/// arithmetic.
pub open spec fn face_tex_key_spec(texture: u32, overlay: Option<u32>, tint: u32, overlay_tint: u32) -> u64 {
    let h0 = texture as u64;
    let o = match overlay {
        Some(t) => t as u64,
        None => 0u64,
    };
    let h1 = (h0 * 31 + o) as u64;
    let h2 = (h1 * 31 + tint as u64) as u64;
    (h2 * 31 + overlay_tint as u64) as u64
}

/// Hash of a face texture (see [`face_tex_key_spec`]).
pub fn face_tex_key(texture: u32, overlay: Option<u32>, tint: u32, overlay_tint: u32) -> (r: u64)
    ensures
        r == face_tex_key_spec(texture, overlay, tint, overlay_tint),
{
    let mut h: u64 = texture as u64;
    let o: u64 = match overlay {
        Some(t) => t as u64,
        None => 0,
    };
    h = h.wrapping_mul(31).wrapping_add(o);
    h = h.wrapping_mul(31).wrapping_add(tint as u64);
    h = h.wrapping_mul(31).wrapping_add(overlay_tint as u64);
    h
}

/// A merged rectangle of faces in a slice: it starts at `(row, col)` and
/// spans `height` rows and `width` columns.
#[derive(Clone, Copy, Debug, PartialEq, Eq, Structural)]
pub struct MergedQuad {
    pub row: usize,
    pub col: usize,
    pub width: usize,
    pub height: usize,
    pub key: MergeKey,
}

pub open spec fn cell_index(cols: int, r: int, c: int) -> int {
    r * cols + c
}

pub proof fn lemma_cell_index(rows: int, cols: int, r: int, c: int)
    requires
        0 <= r < rows,
        0 <= c < cols,
    ensures
        0 <= cell_index(cols, r, c) < rows * cols,
        cell_index(cols, r, c) + 1 <= rows * cols,
{
    assert(0 <= r * cols + c < rows * cols) by (nonlinear_arith)
        requires
            0 <= r < rows,
            0 <= c < cols,
    ;
}

pub proof fn lemma_cell_index_injective(cols: int, r1: int, c1: int, r2: int, c2: int)
    requires
        0 <= c1 < cols,
        0 <= c2 < cols,
        0 <= r1,
        0 <= r2,
        cell_index(cols, r1, c1) == cell_index(cols, r2, c2),
    ensures
        r1 == r2 && c1 == c2,
{
    if r1 < r2 {
        assert(r1 * cols + c1 < r2 * cols + c2) by (nonlinear_arith)
            requires
                r1 < r2,
                0 <= c1 < cols,
                0 <= c2,
        ;
    } else if r2 < r1 {
        assert(r2 * cols + c2 < r1 * cols + c1) by (nonlinear_arith)
            requires
                r2 < r1,
                0 <= c2 < cols,
                0 <= c1,
        ;
    }
}

pub open spec fn in_quad(q: MergedQuad, r: int, c: int) -> bool {
    &&& q.row <= r < q.row + q.height
    &&& q.col <= c < q.col + q.width
}

/// Cell `(r, c)` lies in one of the first `m` quads.
pub open spec fn covered_before(qs: Seq<MergedQuad>, m: int, r: int, c: int) -> bool {
    exists|i: int| 0 <= i < m && #[trigger] in_quad(qs[i], r, c)
}

/// Cell `(r, c)` shows a face with `key` that none of the first `m` quads
/// took.
pub open spec fn available(
    mask: Seq<Option<MergeKey>>,
    cols: int,
    qs: Seq<MergedQuad>,
    m: int,
    r: int,
    c: int,
    key: MergeKey,
) -> bool {
    mask[cell_index(cols, r, c)] == Some(key) && !covered_before(qs, m, r, c)
}

/// Row-major order of cells.
pub open spec fn cell_before(r1: int, c1: int, r2: int, c2: int) -> bool {
    r1 < r2 || (r1 == r2 && c1 < c2)
}

/// Quad `m` is what the greedy scan makes: it starts at the first cell
/// (row-major) showing a face that no earlier quad took, grows right while
/// the next cell shows an untaken face with the same key, then grows down
/// while the whole next row segment does.
pub open spec fn greedy_quad(
    mask: Seq<Option<MergeKey>>,
    rows: int,
    cols: int,
    qs: Seq<MergedQuad>,
    m: int,
) -> bool {
    let q = qs[m];
    &&& q.width >= 1
    &&& q.height >= 1
    &&& q.row + q.height <= rows
    &&& q.col + q.width <= cols
    &&& forall|r: int, c: int| #[trigger] in_quad(q, r, c) ==> available(mask, cols, qs, m, r, c, q.key)
    &&& forall|r: int, c: int|
        0 <= r < rows && 0 <= c < cols && #[trigger] cell_before(r, c, q.row as int, q.col as int)
            ==> mask[cell_index(cols, r, c)] is None || covered_before(qs, m, r, c)
    &&& (q.col + q.width == cols || !available(mask, cols, qs, m, q.row as int, q.col + q.width, q.key))
    &&& (q.row + q.height == rows || exists|w: int|
        0 <= w < q.width && !#[trigger] available(mask, cols, qs, m, q.row + q.height, q.col + w, q.key))
}

/// Merges the faces of one slice. `mask[r * cols + c]` is the merge key
/// of the face shown at cell `(r, c)`, or `None`. The quads are returned in
/// the order the greedy scan makes them; together they cover every face
/// exactly once.
pub fn greedy_merge(mask: Vec<Option<MergeKey>>, rows: usize, cols: usize) -> (r: Vec<MergedQuad>)
    requires
        mask@.len() == rows * cols,
    ensures
        forall|m: int| 0 <= m < r@.len() ==> #[trigger] greedy_quad(mask@, rows as int, cols as int, r@, m),
        forall|m1: int, m2: int|
            #![trigger r@[m1], r@[m2]]
            0 <= m1 < m2 < r@.len() ==> cell_before(
                r@[m1].row as int,
                r@[m1].col as int,
                r@[m2].row as int,
                r@[m2].col as int,
            ),
        forall|row: int, col: int|
            0 <= row < rows && 0 <= col < cols && #[trigger] mask@[cell_index(cols as int, row, col)] is Some
                ==> covered_before(r@, r@.len() as int, row, col),
{
    let ghost orig = mask@;
    let mut cur = mask;
    let mut quads: Vec<MergedQuad> = Vec::new();
    let mut j: usize = 0;
    while j < rows
        invariant
            orig.len() == rows * cols,
            cur@.len() == rows * cols,
            j <= rows,
            mask_inv(orig, cur@, quads@, rows as int, cols as int),
            done_before(cur@, rows as int, cols as int, j as int, 0),
            quads_inv(orig, rows as int, cols as int, quads@, j as int, 0),
        decreases rows - j,
    {
        let mut k: usize = 0;
        while k < cols
            invariant
                orig.len() == rows * cols,
                cur@.len() == rows * cols,
                j < rows,
                k <= cols,
                mask_inv(orig, cur@, quads@, rows as int, cols as int),
                done_before(cur@, rows as int, cols as int, j as int, k as int),
                quads_inv(orig, rows as int, cols as int, quads@, j as int, k as int),
            decreases cols - k,
        {
            let n = cell_idx(cur.len(), rows, cols, j, k);
            match cur[n] {
                None => {
                    proof {
                        assert forall|m: int| 0 <= m < quads@.len() implies cell_before(
                            #[trigger] quads@[m].row as int,
                            quads@[m].col as int,
                            j as int,
                            k as int + 1,
                        ) by {
                            assert(cell_before(quads@[m].row as int, quads@[m].col as int, j as int, k as int));
                        }
                    }
                },
                Some(key) => {
                    merge_at(&mut cur, &mut quads, Ghost(orig), rows, cols, j, k, key);
                },
            }
            proof {
                assert forall|r: int, c: int|
                    0 <= r < rows && 0 <= c < cols && #[trigger] cell_before(r, c, j as int, k as int + 1)
                        implies cur@[cell_index(cols as int, r, c)] is None by {
                    if !cell_before(r, c, j as int, k as int) {
                        assert(r == j && c == k);
                    }
                }
            }
            k = k + 1;
        }
        proof {
            assert forall|r: int, c: int|
                0 <= r < rows && 0 <= c < cols && #[trigger] cell_before(r, c, j as int + 1, 0)
                    implies cur@[cell_index(cols as int, r, c)] is None by {
                if r == j {
                    assert(cell_before(r, c, j as int, k as int));
                } else {
                    assert(cell_before(r, c, j as int, k as int));
                }
            }
            assert forall|m: int| 0 <= m < quads@.len() implies cell_before(
                #[trigger] quads@[m].row as int,
                quads@[m].col as int,
                j as int + 1,
                0,
            ) by {
                assert(cell_before(quads@[m].row as int, quads@[m].col as int, j as int, k as int));
            }
        }
        j = j + 1;
    }
    proof {
        assert forall|row: int, col: int|
            0 <= row < rows && 0 <= col < cols && #[trigger] orig[cell_index(cols as int, row, col)] is Some
                implies covered_before(quads@, quads@.len() as int, row, col) by {
            assert(cell_before(row, col, rows as int, 0));
        }
    }
    quads
}

/// Every cell reads `None` once a quad covers it and its face in the input
/// mask otherwise.
pub open spec fn mask_inv(
    orig: Seq<Option<MergeKey>>,
    cur: Seq<Option<MergeKey>>,
    qs: Seq<MergedQuad>,
    rows: int,
    cols: int,
) -> bool {
    forall|r: int, c: int|
        0 <= r < rows && 0 <= c < cols ==> #[trigger] cur[cell_index(cols, r, c)] == if covered_before(
            qs,
            qs.len() as int,
            r,
            c,
        ) {
            None
        } else {
            orig[cell_index(cols, r, c)]
        }
}

/// Every cell before `(j, k)` has been dealt with.
pub open spec fn done_before(cur: Seq<Option<MergeKey>>, rows: int, cols: int, j: int, k: int) -> bool {
    forall|r: int, c: int|
        0 <= r < rows && 0 <= c < cols && #[trigger] cell_before(r, c, j, k) ==> cur[cell_index(
            cols,
            r,
            c,
        )] is None
}

/// The quads made so far are greedy quads, in row-major order of their
/// starts, all before `(j, k)`.
pub open spec fn quads_inv(
    orig: Seq<Option<MergeKey>>,
    rows: int,
    cols: int,
    qs: Seq<MergedQuad>,
    j: int,
    k: int,
) -> bool {
    &&& forall|m: int| 0 <= m < qs.len() ==> #[trigger] greedy_quad(orig, rows, cols, qs, m)
    &&& forall|m: int|
        0 <= m < qs.len() ==> cell_before(#[trigger] qs[m].row as int, qs[m].col as int, j, k)
    &&& forall|m1: int, m2: int|
        #![trigger qs[m1], qs[m2]]
        0 <= m1 < m2 < qs.len() ==> cell_before(
            qs[m1].row as int,
            qs[m1].col as int,
            qs[m2].row as int,
            qs[m2].col as int,
        )
}

proof fn lemma_mask_at(
    orig: Seq<Option<MergeKey>>,
    cur: Seq<Option<MergeKey>>,
    qs: Seq<MergedQuad>,
    rows: int,
    cols: int,
    r: int,
    c: int,
)
    requires
        mask_inv(orig, cur, qs, rows, cols),
        0 <= r < rows,
        0 <= c < cols,
    ensures
        cur[cell_index(cols, r, c)] == if covered_before(qs, qs.len() as int, r, c) {
            None
        } else {
            orig[cell_index(cols, r, c)]
        },
        forall|key: MergeKey|
            cur[cell_index(cols, r, c)] == Some(key) <==> #[trigger] available(orig, cols, qs, qs.len() as int, r, c, key),
{
}

/// Flat index of cell `(r, c)`.
fn cell_idx(len: usize, rows: usize, cols: usize, r: usize, c: usize) -> (i: usize)
    requires
        len == rows * cols,
        r < rows,
        c < cols,
    ensures
        i as int == cell_index(cols as int, r as int, c as int),
        i < len,
{
    proof {
        lemma_cell_index(rows as int, cols as int, r as int, c as int);
        assert(r * cols <= r * cols + c) by (nonlinear_arith)
            requires
                c >= 0,
        ;
        assert(0 <= r * cols) by (nonlinear_arith)
            requires
                r >= 0,
                cols >= 0,
        ;
    }
    r * cols + c
}

/// Whether a mask cell shows a face with this key.
fn shows_key(cell: &Option<MergeKey>, key: &MergeKey) -> (r: bool)
    ensures
        r == (*cell == Some(*key)),
{
    match cell {
        Some(c) => *c == *key,
        None => false,
    }
}

/// Whether cells `(row, k)` to `(row, k + width - 1)` all show `key`.
fn segment_shows_key(
    cur: &Vec<Option<MergeKey>>,
    rows: usize,
    cols: usize,
    row: usize,
    k: usize,
    width: usize,
    key: &MergeKey,
) -> (r: bool)
    requires
        cur@.len() == rows * cols,
        row < rows,
        k + width <= cols,
    ensures
        r == forall|w: int| 0 <= w < width ==> #[trigger] cur@[cell_index(cols as int, row as int, k + w)] == Some(*key),
{
    let mut w: usize = 0;
    while w < width
        invariant
            cur@.len() == rows * cols,
            row < rows,
            k + width <= cols,
            w <= width,
            forall|x: int| 0 <= x < w ==> #[trigger] cur@[cell_index(cols as int, row as int, k + x)] == Some(*key),
        decreases width - w,
    {
        let i = cell_idx(cur.len(), rows, cols, row, k + w);
        if !shows_key(&cur[i], key) {
            return false;
        }
        w = w + 1;
    }
    true
}

/// Makes the quad that starts at `(j, k)`, whose cell shows `key`, and
/// clears its cells.
#[verifier::rlimit(50)]
fn merge_at(
    cur: &mut Vec<Option<MergeKey>>,
    quads: &mut Vec<MergedQuad>,
    Ghost(orig): Ghost<Seq<Option<MergeKey>>>,
    rows: usize,
    cols: usize,
    j: usize,
    k: usize,
    key: MergeKey,
)
    requires
        orig.len() == rows * cols,
        old(cur)@.len() == rows * cols,
        j < rows,
        k < cols,
        mask_inv(orig, old(cur)@, old(quads)@, rows as int, cols as int),
        done_before(old(cur)@, rows as int, cols as int, j as int, k as int),
        quads_inv(orig, rows as int, cols as int, old(quads)@, j as int, k as int),
        old(cur)@[cell_index(cols as int, j as int, k as int)] == Some(key),
    ensures
        final(cur)@.len() == rows * cols,
        mask_inv(orig, final(cur)@, final(quads)@, rows as int, cols as int),
        done_before(final(cur)@, rows as int, cols as int, j as int, k as int),
        final(cur)@[cell_index(cols as int, j as int, k as int)] is None,
        quads_inv(orig, rows as int, cols as int, final(quads)@, j as int, k as int + 1),
{
    let ghost qs = quads@;
    let ghost m = qs.len() as int;
    let ghost c0 = cur@;
    // grow right
    let mut width: usize = 1;
    proof {
        lemma_cell_index(rows as int, cols as int, j as int, k as int);
        assert(available(orig, cols as int, qs, m, j as int, k as int, key));
    }
    loop
        invariant_except_break
            k + width < cols || k + width == cols,
        invariant
            cur@ == c0,
            m == qs.len(),
            orig.len() == rows * cols,
            c0.len() == rows * cols,
            j < rows,
            1 <= width,
            k + width <= cols,
            mask_inv(orig, c0, qs, rows as int, cols as int),
            forall|c: int| k <= c < k + width ==> #[trigger] available(orig, cols as int, qs, m, j as int, c, key),
        ensures
            k + width == cols || !available(orig, cols as int, qs, m, j as int, k + width, key),
        decreases cols - width,
    {
        if k + width >= cols {
            break;
        }
        let i = cell_idx(cur.len(), rows, cols, j, k + width);
        proof {
            lemma_mask_at(orig, c0, qs, rows as int, cols as int, j as int, (k + width) as int);
        }
        if !shows_key(&cur[i], &key) {
            proof {
                assert(c0[i as int] != Some(key));
                assert(!available(orig, cols as int, qs, m, j as int, k + width, key));
            }
            break;
        }
        proof {
            assert(c0[i as int] == Some(key));
            assert(available(orig, cols as int, qs, qs.len() as int, j as int, (k + width) as int, key));
            assert(available(orig, cols as int, qs, m, j as int, k + width, key));
        }
        width = width + 1;
    }
    // grow down
    let mut height: usize = 1;
    loop
        invariant
            cur@ == c0,
            m == qs.len(),
            orig.len() == rows * cols,
            c0.len() == rows * cols,
            j < rows,
            1 <= width,
            k + width <= cols,
            1 <= height,
            j + height <= rows,
            mask_inv(orig, c0, qs, rows as int, cols as int),
            forall|r: int, c: int| j <= r < j + height && k <= c < k + width ==> #[trigger] available(orig, cols as int, qs, m, r, c, key),
        ensures
            j + height == rows || exists|w: int|
                0 <= w < width && !#[trigger] available(orig, cols as int, qs, m, j + height, k + w, key),
        decreases rows - height,
    {
        if j + height >= rows {
            break;
        }
        let row = j + height;
        if !segment_shows_key(&cur, rows, cols, row, k, width, &key) {
            proof {
                let w = choose|w: int| 0 <= w < width && !(#[trigger] cur@[cell_index(cols as int, row as int, k + w)] == Some(key));
                lemma_mask_at(orig, c0, qs, rows as int, cols as int, row as int, k + w);
                assert(!available(orig, cols as int, qs, m, j + height, k + w, key));
            }
            break;
        }
        proof {
            assert forall|r: int, c: int| j <= r < j + height + 1 && k <= c < k + width implies #[trigger] available(orig, cols as int, qs, m, r, c, key) by {
                if r == j + height {
                    assert(cur@[cell_index(cols as int, row as int, k + (c - k))] == Some(key));
                    lemma_mask_at(orig, c0, qs, rows as int, cols as int, row as int, c);
                }
            }
        }
        height = height + 1;
    }
    let q = MergedQuad { row: j, col: k, width, height, key };
    // clear the quad's cells
    let mut dj: usize = 0;
    while dj < height
        invariant
            c0.len() == rows * cols,
            cur@.len() == rows * cols,
            j + height <= rows,
            k + width <= cols,
            dj <= height,
            q == (MergedQuad { row: j, col: k, width, height, key }),
            forall|r: int, c: int|
                0 <= r < rows && 0 <= c < cols ==> #[trigger] cur@[cell_index(cols as int, r, c)] == if in_quad(q, r, c) && r < j + dj {
                    None
                } else {
                    c0[cell_index(cols as int, r, c)]
                },
        decreases height - dj,
    {
        let mut dk: usize = 0;
        while dk < width
            invariant
                c0.len() == rows * cols,
                cur@.len() == rows * cols,
                j + height <= rows,
                k + width <= cols,
                dj < height,
                dk <= width,
                q == (MergedQuad { row: j, col: k, width, height, key }),
                forall|r: int, c: int|
                    0 <= r < rows && 0 <= c < cols ==> #[trigger] cur@[cell_index(cols as int, r, c)] == if in_quad(q, r, c) && (r < j + dj || (r == j + dj && c < k + dk)) {
                        None
                    } else {
                        c0[cell_index(cols as int, r, c)]
                    },
            decreases width - dk,
        {
            let idx = cell_idx(cur.len(), rows, cols, j + dj, k + dk);
            cur.set(idx, None);
            proof {
                assert forall|r: int, c: int| 0 <= r < rows && 0 <= c < cols implies #[trigger] cur@[cell_index(cols as int, r, c)] == if in_quad(q, r, c) && (r < j + dj || (r == j + dj && c < k + dk + 1)) {
                        None
                    } else {
                        c0[cell_index(cols as int, r, c)]
                    } by {
                    lemma_cell_index(rows as int, cols as int, r, c);
                    if cell_index(cols as int, r, c) == idx {
                        lemma_cell_index_injective(cols as int, r, c, (j + dj) as int, (k + dk) as int);
                    }
                }
            }
            dk = dk + 1;
        }
        dj = dj + 1;
    }
    quads.push(q);
    proof {
        let nq = quads@;
        assert(nq == qs.push(q));
        assert forall|r: int, c: int| #[trigger] covered_before(nq, m + 1, r, c) <==> (covered_before(qs, m, r, c) || in_quad(q, r, c)) by {
            if covered_before(nq, m + 1, r, c) {
                let i = choose|i: int| 0 <= i < m + 1 && #[trigger] in_quad(nq[i], r, c);
                if i < m {
                    assert(in_quad(qs[i], r, c));
                }
            }
            if covered_before(qs, m, r, c) {
                let i = choose|i: int| 0 <= i < m && #[trigger] in_quad(qs[i], r, c);
                assert(in_quad(nq[i], r, c));
            }
            if in_quad(q, r, c) {
                assert(in_quad(nq[m], r, c));
            }
        }
        assert forall|mm: int, r: int, c: int| 0 <= mm <= m implies #[trigger] covered_before(nq, mm, r, c) == covered_before(qs, mm, r, c) by {
            if covered_before(nq, mm, r, c) {
                let t = choose|t: int| 0 <= t < mm && #[trigger] in_quad(nq[t], r, c);
                assert(in_quad(qs[t], r, c));
            }
            if covered_before(qs, mm, r, c) {
                let t = choose|t: int| 0 <= t < mm && #[trigger] in_quad(qs[t], r, c);
                assert(in_quad(nq[t], r, c));
            }
        }
        assert(nq[m] == q);
        assert forall|r: int, c: int| #[trigger] in_quad(q, r, c) implies available(orig, cols as int, nq, m, r, c, key) by {
            assert(available(orig, cols as int, qs, m, r, c, key));
            assert(covered_before(nq, m, r, c) == covered_before(qs, m, r, c));
        }
        if k + width != cols {
            assert(covered_before(nq, m, j as int, k + width) == covered_before(qs, m, j as int, k + width));
            assert(!available(orig, cols as int, nq, m, j as int, k + width, key));
        }
        if j + height != rows {
            let w = choose|w: int| 0 <= w < width && !#[trigger] available(orig, cols as int, qs, m, j + height, k + w, key);
            assert(covered_before(nq, m, j + height, k + w) == covered_before(qs, m, j + height, k + w));
            assert(!available(orig, cols as int, nq, m, j + height, k + w, key));
            assert(!available(orig, cols as int, nq, m, q.row + q.height, q.col + w, q.key));
        }
        assert forall|r: int, c: int|
            0 <= r < rows && 0 <= c < cols && #[trigger] cell_before(r, c, q.row as int, q.col as int)
                implies orig[cell_index(cols as int, r, c)] is None || covered_before(nq, m, r, c) by {
            lemma_mask_at(orig, c0, qs, rows as int, cols as int, r, c);
            assert(covered_before(nq, m, r, c) == covered_before(qs, m, r, c));
        }
        assert(greedy_quad(orig, rows as int, cols as int, nq, m));
        assert forall|mm: int| 0 <= mm < nq.len() implies #[trigger] greedy_quad(orig, rows as int, cols as int, nq, mm) by {
            if mm < m {
                assert(greedy_quad(orig, rows as int, cols as int, qs, mm));
                assert(nq[mm] == qs[mm]);
                let qq = qs[mm];
                assert forall|r: int, c: int| #[trigger] in_quad(qq, r, c) implies available(orig, cols as int, nq, mm, r, c, qq.key) by {
                    assert(available(orig, cols as int, qs, mm, r, c, qq.key));
                    assert(covered_before(nq, mm, r, c) == covered_before(qs, mm, r, c));
                }
                if qq.col + qq.width != cols {
                    assert(covered_before(nq, mm, qq.row as int, qq.col + qq.width) == covered_before(qs, mm, qq.row as int, qq.col + qq.width));
                }
                if qq.row + qq.height != rows {
                    let w = choose|w: int| 0 <= w < qq.width && !#[trigger] available(orig, cols as int, qs, mm, qq.row + qq.height, qq.col + w, qq.key);
                    assert(covered_before(nq, mm, qq.row + qq.height, qq.col + w) == covered_before(qs, mm, qq.row + qq.height, qq.col + w));
                    assert(!available(orig, cols as int, nq, mm, qq.row + qq.height, qq.col + w, qq.key));
                }
                assert forall|r: int, c: int|
                    0 <= r < rows && 0 <= c < cols && #[trigger] cell_before(r, c, qq.row as int, qq.col as int)
                        implies orig[cell_index(cols as int, r, c)] is None || covered_before(nq, mm, r, c) by {
                    assert(covered_before(nq, mm, r, c) == covered_before(qs, mm, r, c));
                }
            }
        }
        assert forall|mm: int| 0 <= mm < nq.len() implies cell_before(#[trigger] nq[mm].row as int, nq[mm].col as int, j as int, k as int + 1) by {
            if mm < m {
                assert(cell_before(qs[mm].row as int, qs[mm].col as int, j as int, k as int));
            }
        }
        assert forall|m1: int, m2: int|
            #![trigger nq[m1], nq[m2]]
            0 <= m1 < m2 < nq.len() implies cell_before(
                nq[m1].row as int,
                nq[m1].col as int,
                nq[m2].row as int,
                nq[m2].col as int,
            ) by {
            if m2 < m {
                assert(nq[m1] == qs[m1] && nq[m2] == qs[m2]);
            } else {
                assert(cell_before(qs[m1].row as int, qs[m1].col as int, j as int, k as int));
            }
        }
        assert forall|r: int, c: int| 0 <= r < rows && 0 <= c < cols implies #[trigger] cur@[cell_index(cols as int, r, c)] == if covered_before(
            nq,
            nq.len() as int,
            r,
            c,
        ) {
            None
        } else {
            orig[cell_index(cols as int, r, c)]
        } by {
            if in_quad(q, r, c) {
                assert(r < j + height);
            }
        }
        assert forall|r: int, c: int|
            0 <= r < rows && 0 <= c < cols && #[trigger] cell_before(r, c, j as int, k as int) implies cur@[cell_index(
                cols as int,
                r,
                c,
            )] is None by {
            assert(c0[cell_index(cols as int, r, c)] is None);
        }
        assert(in_quad(q, j as int, k as int));
    }
}


/// The quads of a greedy merge never overlap, and each covers only faces
/// that show its own merge key; with the merge's coverage of every face,
/// each face lies in exactly one quad.
pub proof fn lemma_greedy_quads_disjoint(
    mask: Seq<Option<MergeKey>>,
    rows: int,
    cols: int,
    qs: Seq<MergedQuad>,
)
    requires
        forall|m: int| 0 <= m < qs.len() ==> #[trigger] greedy_quad(mask, rows, cols, qs, m),
    ensures
        forall|m1: int, m2: int, r: int, c: int|
            #![trigger in_quad(qs[m1], r, c), in_quad(qs[m2], r, c)]
            0 <= m1 < m2 < qs.len() && in_quad(qs[m1], r, c) ==> !in_quad(qs[m2], r, c),
        forall|m: int, r: int, c: int|
            0 <= m < qs.len() && #[trigger] in_quad(qs[m], r, c) ==> mask[cell_index(cols, r, c)]
                == Some(qs[m].key),
{
    assert forall|m1: int, m2: int, r: int, c: int|
        #![trigger in_quad(qs[m1], r, c), in_quad(qs[m2], r, c)]
        0 <= m1 < m2 < qs.len() && in_quad(qs[m1], r, c) implies !in_quad(qs[m2], r, c) by {
        if in_quad(qs[m2], r, c) {
            assert(greedy_quad(mask, rows, cols, qs, m2));
            assert(available(mask, cols, qs, m2, r, c, qs[m2].key));
            assert(covered_before(qs, m2, r, c));
        }
    }
    assert forall|m: int, r: int, c: int|
        0 <= m < qs.len() && #[trigger] in_quad(qs[m], r, c) implies mask[cell_index(cols, r, c)]
            == Some(qs[m].key) by {
        assert(greedy_quad(mask, rows, cols, qs, m));
    }
}


/// Which vertex buffers of a chunk mesh a face goes to.
#[derive(Clone, Copy, Debug, PartialEq, Eq, Structural)]
pub enum MeshBucket {
    Opaque,
    Blend,
    Cutout,
}

/// How a block model's faces are rendered.
#[derive(Clone, Copy, Debug, PartialEq, Eq, Structural)]
pub enum ModelRenderLayer {
    Opaque,
    Blend,
    Cutout,
}

/// The mesh bucket of a model render layer.
pub fn layer_bucket(layer: ModelRenderLayer) -> (r: MeshBucket)
    ensures
        r == match layer {
            ModelRenderLayer::Opaque => MeshBucket::Opaque,
            ModelRenderLayer::Blend => MeshBucket::Blend,
            ModelRenderLayer::Cutout => MeshBucket::Cutout,
        },
{
    match layer {
        ModelRenderLayer::Opaque => MeshBucket::Opaque,
        ModelRenderLayer::Blend => MeshBucket::Blend,
        ModelRenderLayer::Cutout => MeshBucket::Cutout,
    }
}

/// The number a merge key records for a bucket: 0 opaque, 1 blend,
/// 2 cutout.
pub fn bucket_code(bucket: MeshBucket) -> (r: u8)
    ensures
        r == match bucket {
            MeshBucket::Opaque => 0u8,
            MeshBucket::Blend => 1u8,
            MeshBucket::Cutout => 2u8,
        },
{
    match bucket {
        MeshBucket::Opaque => 0,
        MeshBucket::Blend => 1,
        MeshBucket::Cutout => 2,
    }
}

/// The properties of a block definition that decide face culling.
#[derive(Clone, Copy, Debug, PartialEq, Eq, Structural)]
pub struct CullProps {
    pub fluid: bool,
    pub opaque: bool,
    pub solid: bool,
}

/// A chunk cell gets geometry: it holds a block other than air that the
/// registry knows and that is solid, opaque or transparent (see
/// [`block_is_meshed`]).
pub open spec fn gets_geometry(cell: Option<(u32, Option<(bool, bool, bool)>)>, air: u32) -> bool {
    match cell {
        None => false,
        Some((id, def)) => id != air && match def {
            None => false,
            Some((solid, opaque, transparent)) => solid || opaque || transparent,
        },
    }
}

/// Whether a chunk cell gets geometry. The cell is `None` where no block
/// is known, otherwise its block id and the registry's definition of that
/// id as (solid, opaque, transparent). Air, blocks the registry does not
/// know, and blocks that are neither solid, opaque nor transparent are
/// skipped.
pub fn block_is_meshed(cell: Option<(u32, Option<(bool, bool, bool)>)>, air: u32) -> (r: bool)
    ensures
        r == gets_geometry(cell, air),
{
    match cell {
        None => false,
        Some((id, def)) => {
            if id == air {
                return false;
            }
            match def {
                None => false,
                Some((solid, opaque, transparent)) => solid || opaque || transparent,
            }
        },
    }
}

/// Whether a neighbor with definition `neighbor` (none when the registry
/// does not know it) hides the face of a block with definition `block`:
/// fluid next to fluid, or an opaque solid neighbor.
pub fn neighbor_culls_face(block: CullProps, neighbor: Option<CullProps>) -> (r: bool)
    ensures
        r == match neighbor {
            None => false,
            Some(n) => (block.fluid && n.fluid) || (n.opaque && n.solid),
        },
{
    match neighbor {
        None => false,
        Some(n) => {
            if block.fluid && n.fluid {
                return true;
            }
            n.opaque && n.solid
        },
    }
}

/// Whether the face of a block toward a neighbor cell is hidden. The
/// neighbor is `None` where no chunk is loaded, otherwise its block id and
/// the registry's definition of that id; air never hides a face.
pub fn should_cull_face(block: CullProps, neighbor: Option<(u32, Option<CullProps>)>, air: u32) -> (r:
    bool)
    ensures
        r == match neighbor {
            None => false,
            Some((id, def)) => id != air && match def {
                None => false,
                Some(n) => (block.fluid && n.fluid) || (n.opaque && n.solid),
            },
        },
{
    match neighbor {
        None => false,
        Some((id, def)) => {
            if id == air {
                return false;
            }
            neighbor_culls_face(block, def)
        },
    }
}

/// Flat index of a cell of a chunk in [`GreedyGrid`].
pub open spec fn cube_index(x: int, y: int, z: int) -> int {
    x * 256 + y * 16 + z
}

/// The full cubes of a chunk that take part in greedy meshing, one
/// optional cell per block position.
pub struct GreedyGrid<C> {
    cells: Vec<Option<C>>,
}

impl<C> GreedyGrid<C> {
    /// The cell at each flat index (see [`cube_index`]).
    pub closed spec fn cells_view(&self) -> Seq<Option<C>> {
        self.cells@
    }

    pub closed spec fn wf(&self) -> bool {
        self.cells@.len() == 4096
    }

    /// The cell at block position `(x, y, z)`; nothing outside the chunk.
    pub open spec fn cell_at(&self, x: int, y: int, z: int) -> Option<C> {
        if 0 <= x < 16 && 0 <= y < 16 && 0 <= z < 16 {
            self.cells_view()[cube_index(x, y, z)]
        } else {
            None
        }
    }

    /// A grid with no cells.
    pub fn new() -> (r: Self)
        ensures
            r.wf(),
            forall|x: int, y: int, z: int| #[trigger] r.cell_at(x, y, z) is None,
    {
        let mut cells: Vec<Option<C>> = Vec::new();
        let mut i: usize = 0;
        while i < 4096
            invariant
                i <= 4096,
                cells@.len() == i,
                forall|k: int| 0 <= k < i ==> #[trigger] cells@[k] is None,
            decreases 4096 - i,
        {
            cells.push(None);
            i = i + 1;
        }
        let r = GreedyGrid { cells };
        assert forall|x: int, y: int, z: int| #[trigger] r.cell_at(x, y, z) is None by {
            if 0 <= x < 16 && 0 <= y < 16 && 0 <= z < 16 {
                assert(0 <= cube_index(x, y, z) < 4096) by (nonlinear_arith)
                    requires
                        0 <= x < 16,
                        0 <= y < 16,
                        0 <= z < 16,
                ;
            }
        }
        r
    }

    /// Puts a cell at block position `(x, y, z)`.
    pub fn insert(&mut self, x: usize, y: usize, z: usize, cell: C)
        requires
            old(self).wf(),
            x < 16,
            y < 16,
            z < 16,
        ensures
            final(self).wf(),
            final(self).cells_view() == old(self).cells_view().update(
                cube_index(x as int, y as int, z as int),
                Some(cell),
            ),
    {
        let i = x * 256 + y * 16 + z;
        self.cells.set(i, Some(cell));
    }

    /// The cell at block position `(x, y, z)`, if there is one.
    pub fn get(&self, x: i32, y: i32, z: i32) -> (r: Option<&C>)
        requires
            self.wf(),
        ensures
            match r {
                Some(c) => self.cell_at(x as int, y as int, z as int) == Some(*c),
                None => self.cell_at(x as int, y as int, z as int) is None,
            },
    {
        if x < 0 || x >= 16 || y < 0 || y >= 16 || z < 0 || z >= 16 {
            return None;
        }
        let i = (x as usize) * 256 + (y as usize) * 16 + (z as usize);
        match &self.cells[i] {
            Some(c) => Some(c),
            None => None,
        }
    }
}


/// Block position of cell `(j, k)` of slice `slice` across `axis`: the
/// slice runs along `axis`, rows along the next axis, columns along the one
/// after (x, y, z cyclically).
pub open spec fn slice_pos(axis: int, slice: int, j: int, k: int) -> (int, int, int) {
    if axis == 0 {
        (slice, j, k)
    } else if axis == 1 {
        (k, slice, j)
    } else {
        (j, k, slice)
    }
}

/// Outward normal of the faces a slice shows: toward lower coordinates
/// along `axis` for direction 0, higher otherwise.
pub open spec fn face_normal(axis: int, direction: int) -> (int, int, int) {
    let d = if direction == 0 { -1int } else { 1int };
    if axis == 0 {
        (d, 0, 0)
    } else if axis == 1 {
        (0, d, 0)
    } else {
        (0, 0, d)
    }
}

/// The faces a slice shows look along the slice's own axis: stepping to
/// the next slice moves every cell of the slice by exactly the normal of
/// direction 1, the normal of direction 0 is its opposite, and either
/// normal is a unit step (one component is 1 or -1, the others 0).
pub proof fn lemma_face_normal_points_across_slices(axis: int, slice: int, j: int, k: int)
    requires
        0 <= axis < 3,
    ensures
        slice_pos(axis, slice + 1, j, k).0 == slice_pos(axis, slice, j, k).0 + face_normal(axis, 1).0,
        slice_pos(axis, slice + 1, j, k).1 == slice_pos(axis, slice, j, k).1 + face_normal(axis, 1).1,
        slice_pos(axis, slice + 1, j, k).2 == slice_pos(axis, slice, j, k).2 + face_normal(axis, 1).2,
        face_normal(axis, 0).0 == -face_normal(axis, 1).0,
        face_normal(axis, 0).1 == -face_normal(axis, 1).1,
        face_normal(axis, 0).2 == -face_normal(axis, 1).2,
        face_normal(axis, 1).0 * face_normal(axis, 1).0 + face_normal(axis, 1).1 * face_normal(axis, 1).1
            + face_normal(axis, 1).2 * face_normal(axis, 1).2 == 1,
        axis == 0 ==> slice_pos(axis, slice, j, k).0 == slice,
        axis == 1 ==> slice_pos(axis, slice, j, k).1 == slice,
        axis == 2 ==> slice_pos(axis, slice, j, k).2 == slice,
{
}

/// Block position of a slice cell.
pub fn slice_position(axis: usize, slice: i32, j: i32, k: i32) -> (r: (i32, i32, i32))
    requires
        axis < 3,
    ensures
        (r.0 as int, r.1 as int, r.2 as int) == slice_pos(axis as int, slice as int, j as int, k as int),
{
    if axis == 0 {
        (slice, j, k)
    } else if axis == 1 {
        (k, slice, j)
    } else {
        (j, k, slice)
    }
}

/// Outward normal of a slice's faces.
pub fn slice_normal(axis: usize, direction: u8) -> (r: (i32, i32, i32))
    requires
        axis < 3,
    ensures
        (r.0 as int, r.1 as int, r.2 as int) == face_normal(axis as int, direction as int),
{
    let d: i32 = if direction == 0 { -1 } else { 1 };
    if axis == 0 {
        (d, 0, 0)
    } else if axis == 1 {
        (0, d, 0)
    } else {
        (0, 0, d)
    }
}

/// The merge mask of one slice of a chunk's full cubes: cell `(j, k)` is at
/// index `j * 16 + k`; it is empty where the grid has no cube, otherwise
/// whatever `face_key` says of the cube's face toward the slice normal
/// (nothing when the face is hidden or the block is unknown).
pub fn build_slice_mask<C, F>(
    grid: &GreedyGrid<C>,
    axis: usize,
    direction: u8,
    slice: i32,
    face_key: F,
) -> (r: Vec<Option<MergeKey>>) where F: Fn(&C, (i32, i32, i32), (i32, i32, i32)) -> Option<MergeKey>
    requires
        grid.wf(),
        axis < 3,
        0 <= slice < 16,
        forall|c: &C, p: (i32, i32, i32), n: (i32, i32, i32)| #[trigger] face_key.requires((c, p, n)),
    ensures
        r@.len() == 256,
        forall|j: int, k: int|
            0 <= j < 16 && 0 <= k < 16 ==> {
                let p = slice_pos(axis as int, slice as int, j, k);
                let n = face_normal(axis as int, direction as int);
                match grid.cell_at(p.0, p.1, p.2) {
                    None => #[trigger] r@[cell_index(16, j, k)] is None,
                    Some(c) => face_key.ensures(
                        (&c, (p.0 as i32, p.1 as i32, p.2 as i32), (n.0 as i32, n.1 as i32, n.2 as i32)),
                        r@[cell_index(16, j, k)],
                    ),
                }
            },
{
    let normal = slice_normal(axis, direction);
    let mut mask: Vec<Option<MergeKey>> = Vec::new();
    let mut j: i32 = 0;
    while j < 16
        invariant
            grid.wf(),
            axis < 3,
            0 <= slice < 16,
            0 <= j <= 16,
            forall|c: &C, p: (i32, i32, i32), n: (i32, i32, i32)| #[trigger] face_key.requires((c, p, n)),
            (normal.0 as int, normal.1 as int, normal.2 as int) == face_normal(axis as int, direction as int),
            mask@.len() == j * 16,
            forall|jj: int, k: int|
                0 <= jj < j && 0 <= k < 16 ==> {
                    let p = slice_pos(axis as int, slice as int, jj, k);
                    let n = face_normal(axis as int, direction as int);
                    match grid.cell_at(p.0, p.1, p.2) {
                        None => #[trigger] mask@[cell_index(16, jj, k)] is None,
                        Some(c) => face_key.ensures(
                            (&c, (p.0 as i32, p.1 as i32, p.2 as i32), (n.0 as i32, n.1 as i32, n.2 as i32)),
                            mask@[cell_index(16, jj, k)],
                        ),
                    }
                },
        decreases 16 - j,
    {
        let mut k: i32 = 0;
        while k < 16
            invariant
                grid.wf(),
                axis < 3,
                0 <= slice < 16,
                0 <= j < 16,
                0 <= k <= 16,
                forall|c: &C, p: (i32, i32, i32), n: (i32, i32, i32)| #[trigger] face_key.requires((c, p, n)),
                (normal.0 as int, normal.1 as int, normal.2 as int) == face_normal(axis as int, direction as int),
                mask@.len() == j * 16 + k,
                forall|jj: int, kk: int|
                    0 <= jj < 16 && 0 <= kk < 16 && cell_index(16, jj, kk) < j * 16 + k ==> {
                        let p = slice_pos(axis as int, slice as int, jj, kk);
                        let n = face_normal(axis as int, direction as int);
                        match grid.cell_at(p.0, p.1, p.2) {
                            None => #[trigger] mask@[cell_index(16, jj, kk)] is None,
                            Some(c) => face_key.ensures(
                                (&c, (p.0 as i32, p.1 as i32, p.2 as i32), (n.0 as i32, n.1 as i32, n.2 as i32)),
                                mask@[cell_index(16, jj, kk)],
                            ),
                        }
                    },
            decreases 16 - k,
        {
            let p = slice_position(axis, slice, j, k);
            let entry = match grid.get(p.0, p.1, p.2) {
                None => None,
                Some(c) => face_key(c, p, normal),
            };
            let ghost before = mask@;
            mask.push(entry);
            assert forall|jj: int, kk: int|
                0 <= jj < 16 && 0 <= kk < 16 && cell_index(16, jj, kk) < j * 16 + k + 1 implies {
                    let p = slice_pos(axis as int, slice as int, jj, kk);
                    let n = face_normal(axis as int, direction as int);
                    match grid.cell_at(p.0, p.1, p.2) {
                        None => #[trigger] mask@[cell_index(16, jj, kk)] is None,
                        Some(c) => face_key.ensures(
                            (&c, (p.0 as i32, p.1 as i32, p.2 as i32), (n.0 as i32, n.1 as i32, n.2 as i32)),
                            mask@[cell_index(16, jj, kk)],
                        ),
                    }
                } by {
                if cell_index(16, jj, kk) == j * 16 + k {
                    lemma_cell_index_injective(16, jj, kk, j as int, k as int);
                } else {
                    assert(mask@[cell_index(16, jj, kk)] == before[cell_index(16, jj, kk)]);
                }
            }
            k = k + 1;
        }
        assert forall|jj: int, kk: int| 0 <= jj < j + 1 && 0 <= kk < 16 implies cell_index(16, jj, kk) < j * 16 + 16 by {
            assert(cell_index(16, jj, kk) == jj * 16 + kk);
        }
        j = j + 1;
    }
    mask
}


/// Whether greedy meshing is on for the value of the variable that can turn
/// it off: only `0`, `false` and `FALSE` turn it off; an unset variable
/// leaves it on.
pub fn greedy_mesh_setting(value: Option<&str>) -> (r: bool)
    ensures
        r == match value {
            Some(v) => !(v@ == "0"@ || v@ == "false"@ || v@ == "FALSE"@),
            None => true,
        },
{
    match value {
        Some(v) => !(crate::text::str_eq(v, "0") || crate::text::str_eq(v, "false")
            || crate::text::str_eq(v, "FALSE")),
        None => true,
    }
}

/// Whether a block takes part in greedy meshing: a full cube that is not a
/// fluid, while greedy meshing is on.
pub fn is_greedy_eligible(cube: bool, fluid: bool, enabled: bool) -> (r: bool)
    ensures
        r == (cube && !fluid && enabled),
{
    cube && !fluid && enabled
}

/// What a chunk mesh build does with one cell.
#[derive(Debug, Clone, Copy, PartialEq, Eq, Structural)]
pub enum CellPlan {
    /// No geometry: no block, air, an unknown block, or one that is
    /// neither solid, opaque nor transparent.
    Skip,
    /// A full cube merged with its neighbors through the greedy grid.
    Greedy,
    /// Geometry of its own (model, cross, fluid, wire, or any cube while
    /// greedy meshing is off).
    OwnGeometry,
}

/// The plan for a cell whose block is `cell` (see [`block_is_meshed`]):
/// skipped when it gets no geometry, otherwise merged greedily when it is
/// eligible (`cube`, `fluid` describe its definition, `enabled` whether
/// greedy meshing is on), otherwise emitted on its own.
pub fn plan_cell(
    cell: Option<(u32, Option<(bool, bool, bool)>)>,
    air: u32,
    cube: bool,
    fluid: bool,
    enabled: bool,
) -> (r: CellPlan)
    ensures
        r == if !gets_geometry(cell, air) {
            CellPlan::Skip
        } else if cube && !fluid && enabled {
            CellPlan::Greedy
        } else {
            CellPlan::OwnGeometry
        },
{
    if !block_is_meshed(cell, air) {
        CellPlan::Skip
    } else if is_greedy_eligible(cube, fluid, enabled) {
        CellPlan::Greedy
    } else {
        CellPlan::OwnGeometry
    }
}

/// Height of one animation frame of a texture whose atlas rectangle is
/// `w` by `h`: the declared frame height (at most `h`); without one, `w`
/// for a vertical strip of square frames; otherwise `h`; at least 1.
pub fn atlas_frame_height(declared: Option<u32>, w: u32, h: u32) -> (r: u32)
    ensures
        r == ({
            let f = match declared {
                Some(fh) => if fh < h { fh } else { h },
                None => if h > w && w > 0 && h % w == 0 { w } else { h },
            };
            if f < 1 { 1 } else { f }
        }),
{
    let f = match declared {
        Some(fh) => if fh < h { fh } else { h },
        None => if h > w && w > 0 && h % w == 0 { w } else { h },
    };
    if f < 1 { 1 } else { f }
}

} // verus!
