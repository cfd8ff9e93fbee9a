use vstd::prelude::*;

verus! {

/// An axis-aligned rectangle of cells `[u0, u1) x [v0, v1)` of one kind.
#[derive(Clone, Copy, Debug, PartialEq, Eq, Structural)]
pub struct Rect {
    pub u0: usize,
    pub v0: usize,
    pub u1: usize,
    pub v1: usize,
    pub kind: i32,
}

/// Row-major index of cell `(u, v)` in a grid with rows of length `vn`.
pub open spec fn idx(vn: int, u: int, v: int) -> int {
    u * vn + v
}

/// The mask value of cell `(u, v)`.
pub open spec fn cell(m: Seq<i32>, vn: int, u: int, v: int) -> i32 {
    m[idx(vn, u, v)]
}

/// Cell `(u, v)` carries kind `k` and is not flagged.
pub open spec fn free_k(m: Seq<i32>, used: Seq<bool>, vn: int, u: int, v: int, k: i32) -> bool {
    cell(m, vn, u, v) == k && !flag(used, vn, u, v)
}

/// A flag of cell `(u, v)`.
pub open spec fn flag(s: Seq<bool>, vn: int, u: int, v: int) -> bool {
    s[idx(vn, u, v)]
}

pub open spec fn in_grid(un: int, vn: int, u: int, v: int) -> bool {
    0 <= u < un && 0 <= v < vn
}

/// Cell `(u, v)` lies in rectangle `r`.
pub open spec fn covers(r: Rect, u: int, v: int) -> bool {
    r.u0 <= u < r.u1 && r.v0 <= v < r.v1
}

/// Cell `(u, v)` lies in one of the first `j` rectangles.
pub open spec fn covered_before(rs: Seq<Rect>, j: int, u: int, v: int) -> bool {
    exists|i: int| 0 <= i < j && #[trigger] covers(rs[i], u, v)
}

/// Cell `(u, v)` comes before cell `(u2, v2)` in row-major order.
pub open spec fn before(u: int, v: int, u2: int, v2: int) -> bool {
    u < u2 || (u == u2 && v < v2)
}

/// `rs` is the greedy rectangle decomposition of the mask `m` (a `un x vn`
/// grid, row-major, where a negative value means "no face"):
/// - every rectangle lies in the grid, has a non-negative kind, and all its
///   cells carry that kind;
/// - rectangles are pairwise disjoint and together cover every marked cell;
/// - each rectangle starts at the first marked cell (row-major) that no
///   earlier rectangle covers;
/// - it is as wide as possible along `v` from that cell, and then as tall as
///   possible along `u` (a wider or taller rectangle would take a cell of
///   another kind, or one an earlier rectangle already covers).
pub open spec fn greedy_partition(m: Seq<i32>, un: int, vn: int, rs: Seq<Rect>) -> bool {
    &&& rects_ok(m, un, vn, rs)
    &&& forall|u: int, v: int|
        in_grid(un, vn, u, v) && #[trigger] cell(m, vn, u, v) >= 0 ==> covered_before(
            rs,
            rs.len() as int,
            u,
            v,
        )
}

/// The per-rectangle conditions of [`greedy_partition`]: everything but
/// the covering of all marked cells.
pub open spec fn rects_ok(m: Seq<i32>, un: int, vn: int, rs: Seq<Rect>) -> bool {
    &&& m.len() == un * vn
    &&& forall|j: int|
        0 <= j < rs.len() ==> {
            &&& (#[trigger] rs[j]).u0 < rs[j].u1 <= un
            &&& rs[j].v0 < rs[j].v1 <= vn
            &&& rs[j].kind >= 0
        }
    &&& forall|j: int, u: int, v: int|
        0 <= j < rs.len() && #[trigger] covers(rs[j], u, v) ==> cell(m, vn, u, v) == rs[j].kind
    &&& forall|i: int, j: int, u: int, v: int|
        0 <= i < j < rs.len() ==> !(#[trigger] covers(rs[i], u, v) && #[trigger] covers(
            rs[j],
            u,
            v,
        ))
    &&& forall|j: int, u: int, v: int|
        0 <= j < rs.len() && in_grid(un, vn, u, v) && before(
            u,
            v,
            rs[j].u0 as int,
            rs[j].v0 as int,
        ) && #[trigger] cell(m, vn, u, v) >= 0 ==> #[trigger] covered_before(rs, j, u, v)
    &&& forall|j: int|
        0 <= j < rs.len() ==> width_maximal(m, vn, rs, j)
    &&& forall|j: int|
        0 <= j < rs.len() ==> height_maximal(m, un, vn, rs, j)
}

pub open spec fn width_maximal(m: Seq<i32>, vn: int, rs: Seq<Rect>, j: int) -> bool {
    let r = rs[j];
    r.v1 == vn || cell(m, vn, r.u0 as int, r.v1 as int) != r.kind || covered_before(
        rs,
        j,
        r.u0 as int,
        r.v1 as int,
    )
}

pub open spec fn height_maximal(m: Seq<i32>, un: int, vn: int, rs: Seq<Rect>, j: int) -> bool {
    let r = rs[j];
    r.u1 == un || exists|v: int|
        r.v0 <= v < r.v1 && (#[trigger] cell(m, vn, r.u1 as int, v) != r.kind || covered_before(
            rs,
            j,
            r.u1 as int,
            v,
        ))
}

pub proof fn lemma_idx(un: int, vn: int, u: int, v: int)
    requires
        0 <= u < un,
        0 <= v < vn,
    ensures
        0 <= idx(vn, u, v) < un * vn,
        idx(vn, u, 0) + vn <= un * vn,
        idx(vn, u, v) == idx(vn, u, 0) + v,
        idx(vn, u + 1, 0) == idx(vn, u, 0) + vn,
{
    assert((u + 1) * vn <= un * vn) by (nonlinear_arith)
        requires
            u + 1 <= un,
            vn >= 0,
    ;
    assert((u + 1) * vn == u * vn + vn) by (nonlinear_arith);
    assert(0 <= u * vn) by (nonlinear_arith)
        requires
            u >= 0,
            vn >= 0,
    ;
}

pub proof fn lemma_idx_row(vn: int, u: int)
    ensures
        idx(vn, u + 1, 0) == idx(vn, u, 0) + vn,
        idx(vn, 0, 0) == 0,
{
    assert((u + 1) * vn == u * vn + vn) by (nonlinear_arith);
}

pub proof fn lemma_idx_inj(vn: int, u1: int, v1: int, u2: int, v2: int)
    requires
        0 <= u1,
        0 <= u2,
        0 <= v1 < vn,
        0 <= v2 < vn,
        idx(vn, u1, v1) == idx(vn, u2, v2),
    ensures
        u1 == u2,
        v1 == v2,
{
    if u1 < u2 {
        assert(u1 * vn + v1 < u2 * vn + v2) by (nonlinear_arith)
            requires
                0 <= u1 < u2,
                0 <= v1 < vn,
                0 <= v2,
        ;
    } else if u2 < u1 {
        assert(u2 * vn + v2 < u1 * vn + v1) by (nonlinear_arith)
            requires
                0 <= u2 < u1,
                0 <= v2 < vn,
                0 <= v1,
        ;
    }
}

proof fn lemma_covered_before_push(rs: Seq<Rect>, x: Rect, j: int, u: int, v: int)
    requires
        0 <= j <= rs.len(),
    ensures
        covered_before(rs.push(x), j, u, v) == covered_before(rs, j, u, v),
{
    if covered_before(rs.push(x), j, u, v) {
        let i = choose|i: int| 0 <= i < j && #[trigger] covers(rs.push(x)[i], u, v);
        assert(covers(rs[i], u, v));
    }
    if covered_before(rs, j, u, v) {
        let i = choose|i: int| 0 <= i < j && #[trigger] covers(rs[i], u, v);
        assert(covers(rs.push(x)[i], u, v));
    }
}

/// Whether cells `v0 .. v0 + w` of row `row` all carry `k` and are free.
fn row_free(
    mask: &Vec<i32>,
    used: &Vec<bool>,
    un: usize,
    vn: usize,
    row: usize,
    v0: usize,
    w: usize,
    k: i32,
) -> (r: bool)
    requires
        mask@.len() == un * vn,
        used@.len() == un * vn,
        un * vn <= usize::MAX,
        row < un,
        v0 + w <= vn,
    ensures
        r == forall|vv: int|
            v0 <= vv < v0 + w ==> #[trigger] free_k(mask@, used@, vn as int, row as int, vv, k),
{
    let mut t: usize = 0;
    while t < w
        invariant
            t <= w,
            v0 + w <= vn,
            row < un,
            mask@.len() == un * vn,
            used@.len() == un * vn,
            un * vn <= usize::MAX,
            forall|vv: int|
                v0 <= vv < v0 + t ==> #[trigger] free_k(mask@, used@, vn as int, row as int, vv, k),
        decreases w - t,
    {
        proof {
            lemma_idx(un as int, vn as int, row as int, (v0 + t) as int);
        }
        let i = row * vn + v0 + t;
        assert(i == idx(vn as int, row as int, (v0 + t) as int));
        assert(mask@[i as int] == cell(mask@, vn as int, row as int, (v0 + t) as int));
        assert(used@[i as int] == flag(used@, vn as int, row as int, (v0 + t) as int));
        if mask[i] != k || used[i] {
            assert(!free_k(mask@, used@, vn as int, row as int, (v0 + t) as int, k));
            return false;
        }
        assert(cell(mask@, vn as int, row as int, (v0 + t) as int) == k);
        assert(!flag(used@, vn as int, row as int, (v0 + t) as int));
        let ghost t_old = t as int;
        t = t + 1;
        assert forall|vv: int| v0 <= vv < v0 + t implies #[trigger] free_k(mask@, used@, vn as int, row as int, vv, k) by {
            if vv < v0 + t_old {
            } else {
                assert(vv == v0 + t_old);
            }
        }
    }
    true
}

/// The `used` flags mark exactly the cells the rectangles cover.
pub open spec fn used_ok(used: Seq<bool>, un: int, vn: int, rs: Seq<Rect>) -> bool {
    &&& used.len() == un * vn
    &&& forall|u: int, v: int|
        in_grid(un, vn, u, v) ==> #[trigger] flag(used, vn, u, v) == covered_before(
            rs,
            rs.len() as int,
            u,
            v,
        )
}

proof fn lemma_push_rect(m: Seq<i32>, un: int, vn: int, rs: Seq<Rect>, used: Seq<bool>, r: Rect)
    requires
        rects_ok(m, un, vn, rs),
        used_ok(used, un, vn, rs),
        r.u0 < r.u1 <= un,
        r.v0 < r.v1 <= vn,
        r.kind >= 0,
        forall|u: int, v: int| #[trigger] covers(r, u, v) ==> free_k(m, used, vn, u, v, r.kind),
        r.v1 == vn || !free_k(m, used, vn, r.u0 as int, r.v1 as int, r.kind),
        r.u1 == un || exists|v: int|
            r.v0 <= v < r.v1 && !#[trigger] free_k(m, used, vn, r.u1 as int, v, r.kind),
        forall|u: int, v: int|
            in_grid(un, vn, u, v) && before(u, v, r.u0 as int, r.v0 as int) && #[trigger] cell(
                m,
                vn,
                u,
                v,
            ) >= 0 ==> flag(used, vn, u, v),
    ensures
        rects_ok(m, un, vn, rs.push(r)),
{
    let rs2 = rs.push(r);
    let n = rs.len() as int;
    assert forall|j: int, u: int, v: int| 0 <= j < rs2.len() && #[trigger] covers(rs2[j], u, v) implies cell(
        m,
        vn,
        u,
        v,
    ) == rs2[j].kind by {
        if j < n {
            assert(rs2[j] == rs[j]);
        }
    }
    assert forall|i: int, j: int, u: int, v: int| 0 <= i < j < rs2.len() implies !(
    #[trigger] covers(rs2[i], u, v) && #[trigger] covers(rs2[j], u, v)) by {
        if j < n {
            assert(rs2[i] == rs[i] && rs2[j] == rs[j]);
        } else {
            if covers(rs2[i], u, v) && covers(rs2[j], u, v) {
                assert(rs2[i] == rs[i]);
                assert(covered_before(rs, n, u, v));
                assert(in_grid(un, vn, u, v));
                assert(flag(used, vn, u, v));
                assert(!flag(used, vn, u, v));
            }
        }
    }
    assert forall|j: int, u: int, v: int|
        0 <= j < rs2.len() && in_grid(un, vn, u, v) && before(
            u,
            v,
            rs2[j].u0 as int,
            rs2[j].v0 as int,
        ) && #[trigger] cell(m, vn, u, v) >= 0 implies #[trigger] covered_before(rs2, j, u, v) by {
        lemma_covered_before_push(rs, r, j, u, v);
        if j < n {
            assert(rs2[j] == rs[j]);
            assert(covered_before(rs, j, u, v));
        } else {
            assert(flag(used, vn, u, v));
        }
    }
    assert forall|j: int| 0 <= j < rs2.len() implies width_maximal(m, vn, rs2, j) by {
        lemma_covered_before_push(rs, r, j, rs2[j].u0 as int, rs2[j].v1 as int);
        if j < n {
            assert(rs2[j] == rs[j]);
            assert(width_maximal(m, vn, rs, j));
        } else {
            if r.v1 != vn && cell(m, vn, r.u0 as int, r.v1 as int) == r.kind {
                assert(in_grid(un, vn, r.u0 as int, r.v1 as int));
                assert(flag(used, vn, r.u0 as int, r.v1 as int));
            }
        }
    }
    assert forall|j: int| 0 <= j < rs2.len() implies height_maximal(m, un, vn, rs2, j) by {
        if j < n {
            assert(rs2[j] == rs[j]);
            assert(height_maximal(m, un, vn, rs, j));
            if rs[j].u1 != un {
                let v = choose|v: int|
                    rs[j].v0 <= v < rs[j].v1 && (#[trigger] cell(m, vn, rs[j].u1 as int, v)
                        != rs[j].kind || covered_before(rs, j, rs[j].u1 as int, v));
                lemma_covered_before_push(rs, r, j, rs[j].u1 as int, v);
                assert(cell(m, vn, rs2[j].u1 as int, v) != rs2[j].kind || covered_before(
                    rs2,
                    j,
                    rs2[j].u1 as int,
                    v,
                ));
            }
        } else {
            if r.u1 != un {
                let v = choose|v: int|
                    r.v0 <= v < r.v1 && !#[trigger] free_k(m, used, vn, r.u1 as int, v, r.kind);
                lemma_covered_before_push(rs, r, j, r.u1 as int, v);
                assert(in_grid(un, vn, r.u1 as int, v));
                assert(cell(m, vn, rs2[j].u1 as int, v) != rs2[j].kind || covered_before(
                    rs2,
                    j,
                    rs2[j].u1 as int,
                    v,
                ));
            }
        }
    }
}

proof fn lemma_mark(un: int, vn: int, rs: Seq<Rect>, used: Seq<bool>, used2: Seq<bool>, r: Rect)
    requires
        used_ok(used, un, vn, rs),
        used2.len() == used.len(),
        forall|u: int, v: int|
            in_grid(un, vn, u, v) ==> #[trigger] flag(used2, vn, u, v) == (flag(used, vn, u, v)
                || covers(r, u, v)),
    ensures
        used_ok(used2, un, vn, rs.push(r)),
{
    let rs2 = rs.push(r);
    assert forall|u: int, v: int| in_grid(un, vn, u, v) implies #[trigger] flag(used2, vn, u, v)
        == covered_before(rs2, rs2.len() as int, u, v) by {
        lemma_covered_before_push(rs, r, rs.len() as int, u, v);
        if covers(r, u, v) {
            assert(covers(rs2[rs.len() as int], u, v));
        }
        if covered_before(rs2, rs2.len() as int, u, v) {
            let i = choose|i: int| 0 <= i < rs2.len() && #[trigger] covers(rs2[i], u, v);
            if i < rs.len() {
                assert(covers(rs[i], u, v));
            }
        }
    }
}

/// The greedy rectangle decomposition of a mask (unique: see
/// [`lemma_greedy_unique`]).
pub open spec fn spec_greedy(m: Seq<i32>, un: int, vn: int) -> Seq<Rect> {
    choose|rs: Seq<Rect>| greedy_partition(m, un, vn, rs)
}

proof fn lemma_covered_before_prefix(r1: Seq<Rect>, r2: Seq<Rect>, j: int, u: int, v: int)
    requires
        0 <= j <= r1.len(),
        j <= r2.len(),
        forall|i: int| 0 <= i < j ==> r1[i] == r2[i],
    ensures
        covered_before(r1, j, u, v) == covered_before(r2, j, u, v),
{
    if covered_before(r1, j, u, v) {
        let i = choose|i: int| 0 <= i < j && #[trigger] covers(r1[i], u, v);
        assert(covers(r2[i], u, v));
    }
    if covered_before(r2, j, u, v) {
        let i = choose|i: int| 0 <= i < j && #[trigger] covers(r2[i], u, v);
        assert(covers(r1[i], u, v));
    }
}

/// In a greedy partition, a cell of rectangle `j` is covered by no earlier
/// rectangle.
proof fn lemma_not_covered_before(m: Seq<i32>, un: int, vn: int, rs: Seq<Rect>, j: int, u: int, v: int)
    requires
        rects_ok(m, un, vn, rs),
        0 <= j < rs.len(),
        covers(rs[j], u, v),
    ensures
        !covered_before(rs, j, u, v),
{
    if covered_before(rs, j, u, v) {
        let i = choose|i: int| 0 <= i < j && #[trigger] covers(rs[i], u, v);
        assert(!(covers(rs[i], u, v) && covers(rs[j], u, v)));
    }
}

/// Rectangle `j` of two greedy partitions of the same mask agree when all
/// earlier rectangles do.
proof fn lemma_greedy_step(m: Seq<i32>, un: int, vn: int, r1: Seq<Rect>, r2: Seq<Rect>, j: int)
    requires
        rects_ok(m, un, vn, r1),
        rects_ok(m, un, vn, r2),
        0 <= j < r1.len(),
        j < r2.len(),
        forall|i: int| 0 <= i < j ==> r1[i] == r2[i],
    ensures
        r1[j] == r2[j],
{
    let a = r1[j];
    let b = r2[j];
    // origins
    lemma_not_covered_before(m, un, vn, r1, j, a.u0 as int, a.v0 as int);
    lemma_not_covered_before(m, un, vn, r2, j, b.u0 as int, b.v0 as int);
    lemma_covered_before_prefix(r1, r2, j, a.u0 as int, a.v0 as int);
    lemma_covered_before_prefix(r1, r2, j, b.u0 as int, b.v0 as int);
    assert(covers(a, a.u0 as int, a.v0 as int));
    assert(covers(b, b.u0 as int, b.v0 as int));
    assert(cell(m, vn, a.u0 as int, a.v0 as int) >= 0);
    assert(cell(m, vn, b.u0 as int, b.v0 as int) >= 0);
    if before(a.u0 as int, a.v0 as int, b.u0 as int, b.v0 as int) {
        assert(in_grid(un, vn, a.u0 as int, a.v0 as int));
        assert(covered_before(r2, j, a.u0 as int, a.v0 as int));
    }
    if before(b.u0 as int, b.v0 as int, a.u0 as int, a.v0 as int) {
        assert(in_grid(un, vn, b.u0 as int, b.v0 as int));
        assert(covered_before(r1, j, b.u0 as int, b.v0 as int));
    }
    assert(a.u0 == b.u0 && a.v0 == b.v0);
    assert(a.kind == b.kind);
    // widths
    if a.v1 < b.v1 {
        assert(covers(b, a.u0 as int, a.v1 as int));
        lemma_not_covered_before(m, un, vn, r2, j, a.u0 as int, a.v1 as int);
        lemma_covered_before_prefix(r1, r2, j, a.u0 as int, a.v1 as int);
        assert(width_maximal(m, vn, r1, j));
    }
    if b.v1 < a.v1 {
        assert(covers(a, b.u0 as int, b.v1 as int));
        lemma_not_covered_before(m, un, vn, r1, j, b.u0 as int, b.v1 as int);
        lemma_covered_before_prefix(r1, r2, j, b.u0 as int, b.v1 as int);
        assert(width_maximal(m, vn, r2, j));
    }
    assert(a.v1 == b.v1);
    // heights
    if a.u1 < b.u1 {
        assert(height_maximal(m, un, vn, r1, j));
        let v = choose|v: int|
            a.v0 <= v < a.v1 && (#[trigger] cell(m, vn, a.u1 as int, v) != a.kind || covered_before(
                r1,
                j,
                a.u1 as int,
                v,
            ));
        assert(covers(b, a.u1 as int, v));
        lemma_not_covered_before(m, un, vn, r2, j, a.u1 as int, v);
        lemma_covered_before_prefix(r1, r2, j, a.u1 as int, v);
    }
    if b.u1 < a.u1 {
        assert(height_maximal(m, un, vn, r2, j));
        let v = choose|v: int|
            b.v0 <= v < b.v1 && (#[trigger] cell(m, vn, b.u1 as int, v) != b.kind || covered_before(
                r2,
                j,
                b.u1 as int,
                v,
            ));
        assert(covers(a, b.u1 as int, v));
        lemma_not_covered_before(m, un, vn, r1, j, b.u1 as int, v);
        lemma_covered_before_prefix(r1, r2, j, b.u1 as int, v);
    }
}

proof fn lemma_greedy_prefix(m: Seq<i32>, un: int, vn: int, r1: Seq<Rect>, r2: Seq<Rect>, j: int)
    requires
        rects_ok(m, un, vn, r1),
        rects_ok(m, un, vn, r2),
        0 <= j <= r1.len(),
        j <= r2.len(),
    ensures
        forall|i: int| 0 <= i < j ==> r1[i] == r2[i],
    decreases j,
{
    if j > 0 {
        lemma_greedy_prefix(m, un, vn, r1, r2, j - 1);
        lemma_greedy_step(m, un, vn, r1, r2, j - 1);
    }
}

/// A mask has only one greedy partition.
pub proof fn lemma_greedy_unique(m: Seq<i32>, un: int, vn: int, r1: Seq<Rect>, r2: Seq<Rect>)
    requires
        greedy_partition(m, un, vn, r1),
        greedy_partition(m, un, vn, r2),
    ensures
        r1 == r2,
{
    if r1.len() > r2.len() {
        let l = r2.len() as int;
        lemma_greedy_prefix(m, un, vn, r1, r2, l);
        let a = r1[l];
        assert(covers(a, a.u0 as int, a.v0 as int));
        assert(in_grid(un, vn, a.u0 as int, a.v0 as int));
        assert(cell(m, vn, a.u0 as int, a.v0 as int) >= 0);
        assert(covered_before(r2, l, a.u0 as int, a.v0 as int));
        lemma_covered_before_prefix(r1, r2, l, a.u0 as int, a.v0 as int);
        lemma_not_covered_before(m, un, vn, r1, l, a.u0 as int, a.v0 as int);
    } else if r2.len() > r1.len() {
        let l = r1.len() as int;
        lemma_greedy_prefix(m, un, vn, r1, r2, l);
        let b = r2[l];
        assert(covers(b, b.u0 as int, b.v0 as int));
        assert(in_grid(un, vn, b.u0 as int, b.v0 as int));
        assert(cell(m, vn, b.u0 as int, b.v0 as int) >= 0);
        assert(covered_before(r1, l, b.u0 as int, b.v0 as int));
        lemma_covered_before_prefix(r1, r2, l, b.u0 as int, b.v0 as int);
        lemma_not_covered_before(m, un, vn, r2, l, b.u0 as int, b.v0 as int);
    } else {
        lemma_greedy_prefix(m, un, vn, r1, r2, r1.len() as int);
        assert(r1 =~= r2);
    }
}

/// Set the flags of all cells of `r`.
fn mark_rect(used: &mut Vec<bool>, un: usize, vn: usize, r: Rect)
    requires
        old(used)@.len() == un * vn,
        un * vn <= usize::MAX,
        r.u0 < r.u1 <= un,
        r.v0 < r.v1 <= vn,
    ensures
        final(used)@.len() == old(used)@.len(),
        forall|u: int, v: int|
            in_grid(un as int, vn as int, u, v) ==> #[trigger] flag(final(used)@, vn as int, u, v)
                == (flag(old(used)@, vn as int, u, v) || covers(r, u, v)),
{
    let ghost orig = used@;
    let mut uu: usize = r.u0;
    while uu < r.u1
        invariant
            r.u0 <= uu <= r.u1,
            r.u1 <= un,
            r.v0 < r.v1 <= vn,
            un * vn <= usize::MAX,
            used@.len() == un * vn,
            orig.len() == un * vn,
            forall|u: int, v: int|
                in_grid(un as int, vn as int, u, v) ==> #[trigger] flag(used@, vn as int, u, v) == (
                flag(orig, vn as int, u, v) || (covers(r, u, v) && u < uu)),
        decreases r.u1 - uu,
    {
        let mut vv: usize = r.v0;
        while vv < r.v1
            invariant
                r.u0 <= uu < r.u1,
                r.v0 <= vv <= r.v1,
                r.u1 <= un,
                r.v1 <= vn,
                un * vn <= usize::MAX,
                used@.len() == un * vn,
                orig.len() == un * vn,
                forall|u: int, v: int|
                    in_grid(un as int, vn as int, u, v) ==> #[trigger] flag(used@, vn as int, u, v)
                        == (flag(orig, vn as int, u, v) || (covers(r, u, v) && (u < uu || (u == uu
                        && v < vv)))),
            decreases r.v1 - vv,
        {
            proof {
                lemma_idx(un as int, vn as int, uu as int, vv as int);
            }
            let i = uu * vn + vv;
            let ghost before_set = used@;
            used.set(i, true);
            proof {
                assert forall|u: int, v: int| in_grid(un as int, vn as int, u, v) implies #[trigger] flag(
                    used@,
                    vn as int,
                    u,
                    v,
                ) == (flag(orig, vn as int, u, v) || (covers(r, u, v) && (u < uu || (u == uu && v
                    < vv + 1)))) by {
                    if u == uu && v == vv {
                        assert(idx(vn as int, u, v) == i);
                    } else {
                        lemma_idx(un as int, vn as int, u, v);
                        if idx(vn as int, u, v) == i {
                            lemma_idx_inj(vn as int, u, v, uu as int, vv as int);
                        }
                        assert(flag(used@, vn as int, u, v) == flag(before_set, vn as int, u, v));
                    }
                }
            }
            vv = vv + 1;
        }
        uu = uu + 1;
    }
}

/// Greedy decomposition of a face mask (`un` rows of `vn` cells, row-major,
/// a negative value meaning "no face") into rectangles of equal kind: scan
/// the cells in row-major order; at each marked cell no earlier rectangle
/// covers, take the widest run of free equal-kind cells along the row, then
/// extend it down over as many rows as stay entirely free and equal-kind.
pub fn greedy_rects(mask: &Vec<i32>, un: usize, vn: usize) -> (rs: Vec<Rect>)
    requires
        mask@.len() == un * vn,
        un * vn <= usize::MAX,
    ensures
        greedy_partition(mask@, un as int, vn as int, rs@),
        rs@ == spec_greedy(mask@, un as int, vn as int),
        rs@.len() <= un * vn,
{
    let n = un * vn;
    let mut used: Vec<bool> = Vec::new();
    let mut t: usize = 0;
    while t < n
        invariant
            t <= n,
            n == un * vn,
            used@.len() == t,
            forall|i: int| 0 <= i < t ==> !used@[i],
        decreases n - t,
    {
        used.push(false);
        t = t + 1;
    }
    let mut rs: Vec<Rect> = Vec::new();
    assert(used_ok(used@, un as int, vn as int, rs@)) by {
        assert forall|u: int, v: int| in_grid(un as int, vn as int, u, v) implies #[trigger] flag(
            used@,
            vn as int,
            u,
            v,
        ) == covered_before(rs@, rs@.len() as int, u, v) by {
            lemma_idx(un as int, vn as int, u, v);
        }
    }
    let mut u0: usize = 0;
    while u0 < un
        invariant
            u0 <= un,
            n == un * vn,
            mask@.len() == n,
            n <= usize::MAX,
            rects_ok(mask@, un as int, vn as int, rs@),
            used_ok(used@, un as int, vn as int, rs@),
            forall|u: int, v: int|
                in_grid(un as int, vn as int, u, v) && u < u0 && #[trigger] cell(
                    mask@,
                    vn as int,
                    u,
                    v,
                ) >= 0 ==> flag(used@, vn as int, u, v),
            rs@.len() <= idx(vn as int, u0 as int, 0),
        decreases un - u0,
    {
        let mut v0: usize = 0;
        while v0 < vn
            invariant
                u0 < un,
                v0 <= vn,
                n == un * vn,
                mask@.len() == n,
                n <= usize::MAX,
                rects_ok(mask@, un as int, vn as int, rs@),
                used_ok(used@, un as int, vn as int, rs@),
                forall|u: int, v: int|
                    in_grid(un as int, vn as int, u, v) && before(u, v, u0 as int, v0 as int)
                        && #[trigger] cell(mask@, vn as int, u, v) >= 0 ==> flag(
                        used@,
                        vn as int,
                        u,
                        v,
                    ),
                rs@.len() <= idx(vn as int, u0 as int, v0 as int),
            decreases vn - v0,
        {
            proof {
                lemma_idx(un as int, vn as int, u0 as int, v0 as int);
            }
            let i0 = u0 * vn + v0;
            assert(i0 == idx(vn as int, u0 as int, v0 as int));
            if mask[i0] >= 0 && !used[i0] {
                let k = mask[i0];
                assert(cell(mask@, vn as int, u0 as int, v0 as int) == k);
                assert(!flag(used@, vn as int, u0 as int, v0 as int));
                let mut w: usize = 1;
                loop
                    invariant
                        1 <= w,
                        v0 + w <= vn,
                        u0 < un,
                        i0 == idx(vn as int, u0 as int, v0 as int),
                        n == un * vn,
                        n <= usize::MAX,
                        mask@.len() == n,
                        used@.len() == n,
                        forall|vv: int|
                            v0 <= vv < v0 + w ==> #[trigger] free_k(mask@, used@, vn as int, u0 as int, vv, k),
                    ensures
                        1 <= w,
                        v0 + w <= vn,
                        forall|vv: int|
                            v0 <= vv < v0 + w ==> #[trigger] free_k(mask@, used@, vn as int, u0 as int, vv, k),
                        v0 + w == vn || cell(mask@, vn as int, u0 as int, (v0 + w) as int) != k
                            || flag(used@, vn as int, u0 as int, (v0 + w) as int),
                    decreases vn - v0 - w,
                {
                    if v0 + w >= vn {
                        break;
                    }
                    proof {
                        lemma_idx(un as int, vn as int, u0 as int, (v0 + w) as int);
                        lemma_idx(un as int, vn as int, u0 as int, v0 as int);
                    }
                    let j = i0 + w;
                    assert(j == idx(vn as int, u0 as int, (v0 + w) as int));
                    if mask[j] != k || used[j] {
                        break;
                    }
                    let ghost w_old = w as int;
                    assert(cell(mask@, vn as int, u0 as int, v0 + w_old) == k);
                    assert(!flag(used@, vn as int, u0 as int, v0 + w_old));
                    w = w + 1;
                    assert forall|vv: int| v0 <= vv < v0 + w implies #[trigger] free_k(mask@, used@, vn as int, u0 as int, vv, k) by {
                        if vv == v0 + w_old {
                        }
                    }
                }
                let mut hgt: usize = 1;
                loop
                    invariant
                        1 <= hgt,
                        u0 + hgt <= un,
                        v0 + w <= vn,
                        n == un * vn,
                        n <= usize::MAX,
                        mask@.len() == n,
                        used@.len() == n,
                        forall|uu: int, vv: int|
                            u0 <= uu < u0 + hgt && v0 <= vv < v0 + w ==> #[trigger] free_k(mask@, used@, vn as int, uu, vv, k),
                    ensures
                        1 <= hgt,
                        u0 + hgt <= un,
                        forall|uu: int, vv: int|
                            u0 <= uu < u0 + hgt && v0 <= vv < v0 + w ==> #[trigger] free_k(mask@, used@, vn as int, uu, vv, k),
                        u0 + hgt == un || !(forall|vv: int|
                            v0 <= vv < v0 + w ==> #[trigger] free_k(mask@, used@, vn as int, (u0 + hgt) as int, vv, k)),
                    decreases un - u0 - hgt,
                {
                    if u0 + hgt >= un {
                        break;
                    }
                    let ok = row_free(mask, &used, un, vn, u0 + hgt, v0, w, k);
                    if !ok {
                        break;
                    }
                    let ghost h_old = hgt as int;
                    hgt = hgt + 1;
                    assert forall|uu: int, vv: int|
                        u0 <= uu < u0 + hgt && v0 <= vv < v0 + w implies #[trigger] free_k(mask@, used@, vn as int, uu, vv, k) by {
                        if uu == u0 + h_old {
                        }
                    }
                }
                let r = Rect { u0, v0, u1: u0 + hgt, v1: v0 + w, kind: k };
                proof {
                    assert forall|u: int, v: int| #[trigger] covers(r, u, v) implies free_k(
                        mask@,
                        used@,
                        vn as int,
                        u,
                        v,
                        k,
                    ) by {}

                    lemma_push_rect(mask@, un as int, vn as int, rs@, used@, r);
                }
                let ghost used_before = used@;
                mark_rect(&mut used, un, vn, r);
                proof {
                    lemma_mark(un as int, vn as int, rs@, used_before, used@, r);
                }
                rs.push(r);
                assert(flag(used@, vn as int, u0 as int, v0 as int));
            }
            proof {
                lemma_idx(un as int, vn as int, u0 as int, v0 as int);
            }
            v0 = v0 + 1;
        }
        proof {
            lemma_idx_row(vn as int, u0 as int);
        }
        u0 = u0 + 1;
    }
    proof {
        assert forall|u: int, v: int| in_grid(un as int, vn as int, u, v) && #[trigger] cell(
            mask@,
            vn as int,
            u,
            v,
        ) >= 0 implies covered_before(rs@, rs@.len() as int, u, v) by {
            assert(flag(used@, vn as int, u, v));
        }
        assert(idx(vn as int, un as int, 0) == un * vn);
        assert(greedy_partition(mask@, un as int, vn as int, rs@));
        lemma_greedy_unique(mask@, un as int, vn as int, rs@, spec_greedy(mask@, un as int, vn as int));
    }
    rs
}

} // verus!
