//! Resynthesis of a grid from fixed-size chunks sampled from it, collapsed
//! one chunk at a time, fewest remaining candidates first.
use vstd::prelude::*;
use crate::tile_type::TileType;
use crate::builder_map::BuilderMap;
use crate::grid::lemma_coords;

verus! {

/// Chunks per row of a grid `w` wide.
pub open spec fn chunk_cols(w: int, n: int) -> int {
    w / n
}

/// Chunks per column of a grid `h` high.
pub open spec fn chunk_rows(h: int, n: int) -> int {
    h / n
}

/// Grid index of offset `o` (row-major within the chunk) of chunk `c`
/// (row-major among the chunks).
pub open spec fn chunk_cell(w: int, n: int, c: int, o: int) -> int {
    ((c / chunk_cols(w, n)) * n + o / n) * w + (c % chunk_cols(w, n)) * n + o % n
}

/// The tiles of chunk `c`.
pub open spec fn pattern_of(t: Seq<TileType>, w: int, n: int, c: int) -> Seq<TileType> {
    Seq::new((n * n) as nat, |o: int| t[chunk_cell(w, n, c, o)])
}

/// Cell `i` lies in a whole chunk.
pub open spec fn in_chunk_area(w: int, h: int, n: int, i: int) -> bool {
    i % w < chunk_cols(w, n) * n && i / w < chunk_rows(h, n) * n
}

/// The chunk that cell `i` lies in.
pub open spec fn chunk_of(w: int, n: int, i: int) -> int {
    ((i / w) / n) * chunk_cols(w, n) + (i % w) / n
}

/// The offset of cell `i` within its chunk.
pub open spec fn offset_of(w: int, n: int, i: int) -> int {
    ((i / w) % n) * n + (i % w) % n
}

/// The grid with chunk `c` replaced by pattern `assign[c]`, for every whole
/// chunk; cells outside whole chunks keep their tiles.
pub open spec fn resynthesized(
    t: Seq<TileType>,
    w: int,
    h: int,
    n: int,
    patterns: Seq<Seq<TileType>>,
    assign: Seq<int>,
) -> Seq<TileType> {
    Seq::new(
        t.len(),
        |i: int|
            if in_chunk_area(w, h, n, i) {
                patterns[assign[chunk_of(w, n, i)]][offset_of(w, n, i)]
            } else {
                t[i]
            },
    )
}

/// Every pattern is a chunk of the grid.
pub open spec fn sampled_from(t: Seq<TileType>, w: int, h: int, n: int, patterns: Seq<Seq<TileType>>) -> bool {
    forall|k: int|
        0 <= k < patterns.len() ==> exists|c: int|
            0 <= c < chunk_cols(w, n) * chunk_rows(h, n) && #[trigger] patterns[k] == pattern_of(t, w, n, c)
}

/// Every chunk gets a pattern.
pub open spec fn assignment_ok(assign: Seq<int>, chunks: int, np: int) -> bool {
    &&& assign.len() == chunks
    &&& forall|c: int| 0 <= c < chunks ==> 0 <= #[trigger] assign[c] < np
}

proof fn lemma_chunk_cell_bounds(w: int, h: int, n: int, c: int, o: int)
    requires
        0 < n,
        0 < w,
        0 < h,
        0 < chunk_cols(w, n),
        0 <= c < chunk_cols(w, n) * chunk_rows(h, n),
        0 <= o < n * n,
    ensures
        0 <= chunk_cell(w, n, c, o) < w * h,
        0 <= (c / chunk_cols(w, n)) * n + o / n < h,
        0 <= (c % chunk_cols(w, n)) * n + o % n < w,
        0 <= (c / chunk_cols(w, n)) * n,
        0 <= (c % chunk_cols(w, n)) * n,
{
    let cw = chunk_cols(w, n);
    let ch = chunk_rows(h, n);
    let q = c / cw;
    let r = c % cw;
    let oy = o / n;
    let ox = o % n;
    vstd::arithmetic::div_mod::lemma_fundamental_div_mod(c, cw);
    vstd::arithmetic::div_mod::lemma_fundamental_div_mod(o, n);
    vstd::arithmetic::div_mod::lemma_fundamental_div_mod(w, n);
    vstd::arithmetic::div_mod::lemma_fundamental_div_mod(h, n);
    assert(0 <= r < cw);
    assert(0 <= ox < n);
    assert(0 <= q < ch) by (nonlinear_arith)
        requires
            c == cw * q + r,
            0 <= r < cw,
            0 <= c < cw * ch,
            0 < cw,
    ;
    assert(0 <= oy < n) by (nonlinear_arith)
        requires
            o == n * oy + ox,
            0 <= ox < n,
            0 <= o < n * n,
            0 < n,
    ;
    let y = q * n + oy;
    let x = r * n + ox;
    assert(0 <= y < h) by (nonlinear_arith)
        requires
            y == q * n + oy,
            0 <= q < ch,
            0 <= oy < n,
            h == n * ch + h % n,
            0 <= h % n,
            0 < n,
    ;
    assert(0 <= x < w) by (nonlinear_arith)
        requires
            x == r * n + ox,
            0 <= r < cw,
            0 <= ox < n,
            w == n * cw + w % n,
            0 <= w % n,
            0 < n,
    ;
    assert(0 <= y * w + x < w * h) by (nonlinear_arith)
        requires
            0 <= y < h,
            0 <= x < w,
    ;
    assert(0 <= q * n && 0 <= r * n) by (nonlinear_arith)
        requires
            0 <= q,
            0 <= r,
            0 < n,
    ;
}

/// Replacing the chunks of a grid of one tile by patterns sampled from it
/// gives the same grid back.
pub proof fn lemma_uniform_grid_kept(
    t: Seq<TileType>,
    w: int,
    h: int,
    n: int,
    patterns: Seq<Seq<TileType>>,
    assign: Seq<int>,
    tile: TileType,
)
    requires
        0 < n,
        0 < w,
        0 < h,
        t.len() == w * h,
        forall|i: int| 0 <= i < t.len() ==> t[i] == tile,
        sampled_from(t, w, h, n, patterns),
        assignment_ok(assign, chunk_cols(w, n) * chunk_rows(h, n), patterns.len() as int),
    ensures
        resynthesized(t, w, h, n, patterns, assign) == t,
{
    let r = resynthesized(t, w, h, n, patterns, assign);
    assert forall|i: int| 0 <= i < t.len() implies r[i] == t[i] by {
        if in_chunk_area(w, h, n, i) {
            lemma_chunk_of_bounds(w, h, n, i);
            let k = assign[chunk_of(w, n, i)];
            let c = choose|c: int|
                0 <= c < chunk_cols(w, n) * chunk_rows(h, n) && #[trigger] patterns[k] == pattern_of(t, w, n, c);
            let o = offset_of(w, n, i);
            lemma_chunk_cell_bounds(w, h, n, c, o);
            assert(patterns[k][o] == t[chunk_cell(w, n, c, o)]);
        }
    }
    assert(r =~= t);
}

proof fn lemma_chunk_of_bounds(w: int, h: int, n: int, i: int)
    requires
        0 < n,
        0 < w,
        0 < h,
        0 <= i < w * h,
        in_chunk_area(w, h, n, i),
    ensures
        0 <= chunk_of(w, n, i) < chunk_cols(w, n) * chunk_rows(h, n),
        0 <= offset_of(w, n, i) < n * n,
        0 < chunk_cols(w, n),
{
    lemma_coords(w, h, i);
    let x = i % w;
    let y = i / w;
    let cw = chunk_cols(w, n);
    let ch = chunk_rows(h, n);
    vstd::arithmetic::div_mod::lemma_fundamental_div_mod(x, n);
    vstd::arithmetic::div_mod::lemma_fundamental_div_mod(y, n);
    assert(0 <= x / n < cw) by (nonlinear_arith)
        requires
            x == n * (x / n) + x % n,
            0 <= x % n < n,
            0 <= x < cw * n,
            0 < n,
    ;
    assert(0 <= y / n < ch) by (nonlinear_arith)
        requires
            y == n * (y / n) + y % n,
            0 <= y % n < n,
            0 <= y < ch * n,
            0 < n,
    ;
    assert(0 <= (y / n) * cw + x / n < cw * ch) by (nonlinear_arith)
        requires
            0 <= x / n < cw,
            0 <= y / n < ch,
    ;
    assert(0 <= (y % n) * n + x % n < n * n) by (nonlinear_arith)
        requires
            0 <= x % n < n,
            0 <= y % n < n,
    ;
}


/// The patterns as plain tile sequences.
pub open spec fn pattern_views(p: Seq<Vec<TileType>>) -> Seq<Seq<TileType>> {
    Seq::new(p.len(), |k: int| p[k]@)
}

/// Pattern `b` may stand right of pattern `a`: the edge columns agree.
pub open spec fn fits_right(a: Seq<TileType>, b: Seq<TileType>, n: int) -> bool {
    forall|j: int| 0 <= j < n ==> a[j * n + n - 1] == #[trigger] b[j * n]
}

/// Pattern `b` may stand below pattern `a`: the edge rows agree.
pub open spec fn fits_below(a: Seq<TileType>, b: Seq<TileType>, n: int) -> bool {
    forall|i: int| 0 <= i < n ==> a[(n - 1) * n + i] == #[trigger] b[i]
}

fn same_tiles(a: &Vec<TileType>, b: &Vec<TileType>) -> (r: bool)
    ensures
        r == (a@ == b@),
{
    if a.len() != b.len() {
        return false;
    }
    let mut i: usize = 0;
    while i < a.len()
        invariant
            a@.len() == b@.len(),
            i <= a@.len(),
            forall|k: int| 0 <= k < i ==> a@[k] == b@[k],
        decreases a@.len() - i,
    {
        if a[i] != b[i] {
            return false;
        }
        i = i + 1;
    }
    assert(a@ =~= b@);
    true
}

/// The distinct chunks of the grid, in scan order of first appearance.
pub fn extract_patterns(build_data: &BuilderMap, n: usize) -> (patterns: Vec<Vec<TileType>>)
    requires
        build_data.wf(),
        1 <= n,
        0 < (build_data.width as int) / (n as int),
        0 < (build_data.height as int) / (n as int),
    ensures
        patterns@.len() >= 1,
        patterns@.len() <= chunk_cols(build_data.width as int, n as int) * chunk_rows(build_data.height as int, n as int),
        forall|k: int| 0 <= k < patterns@.len() ==> (#[trigger] patterns@[k])@.len() == n * n,
        sampled_from(
            build_data.map.tiles@,
            build_data.width as int,
            build_data.height as int,
            n as int,
            pattern_views(patterns@),
        ),
{
    let ghost t = build_data.map.tiles@;
    let ghost wi = build_data.width as int;
    let ghost hi = build_data.height as int;
    let ghost ni = n as int;
    let w = build_data.width as usize;
    let h = build_data.height as usize;
    let cw = w / n;
    let ch = h / n;
    proof {
        vstd::arithmetic::div_mod::lemma_fundamental_div_mod(w as int, n as int);
        vstd::arithmetic::div_mod::lemma_fundamental_div_mod(h as int, n as int);
        assert(cw * n <= w && ch * n <= h) by (nonlinear_arith)
            requires
                w == n * cw + w % n,
                h == n * ch + h % n,
                0 <= w % n,
                0 <= h % n,
        ;
        assert(cw * ch <= w * h) by (nonlinear_arith)
            requires
                cw * n <= w,
                ch * n <= h,
                1 <= n,
                0 <= cw,
                0 <= ch,
        ;
        assert(n * n <= w * h) by (nonlinear_arith)
            requires
                1 <= cw,
                1 <= ch,
                cw * n <= w,
                ch * n <= h,
                1 <= n,
        ;
        vstd::arithmetic::div_mod::lemma_fundamental_div_mod(w as int, n as int);
        vstd::arithmetic::div_mod::lemma_fundamental_div_mod(h as int, n as int);
    }
    let total = cw * ch;
    let size = n * n;
    assert(total >= 1) by (nonlinear_arith)
        requires
            total == cw * ch,
            1 <= cw,
            1 <= ch,
    ;
    let mut patterns: Vec<Vec<TileType>> = Vec::new();
    let mut c: usize = 0;
    while c < total
        invariant
            build_data.wf(),
            t == build_data.map.tiles@,
            wi == w,
            hi == h,
            ni == n,
            1 <= n,
            w == build_data.width,
            h == build_data.height,
            cw == chunk_cols(wi, ni),
            ch == chunk_rows(hi, ni),
            0 < cw,
            0 < ch,
            total == cw * ch,
            total >= 1,
            size == n * n,
            c <= total,
            patterns@.len() <= c,
            c > 0 ==> patterns@.len() >= 1,
            forall|k: int| 0 <= k < patterns@.len() ==> (#[trigger] patterns@[k])@.len() == n * n,
            sampled_from(t, wi, hi, ni, pattern_views(patterns@)),
        decreases total - c,
    {
        let mut p: Vec<TileType> = Vec::new();
        let mut o: usize = 0;
        while o < size
            invariant
                build_data.wf(),
                t == build_data.map.tiles@,
                wi == w,
                hi == h,
                ni == n,
                1 <= n,
                w == build_data.width,
                h == build_data.height,
                cw == chunk_cols(wi, ni),
                ch == chunk_rows(hi, ni),
                0 < cw,
                0 < ch,
                c < total,
                total == cw * ch,
                size == n * n,
                o <= size,
                p@ == pattern_of(t, wi, ni, c as int).subrange(0, o as int),
            decreases size - o,
        {
            proof {
                lemma_chunk_cell_bounds(wi, hi, ni, c as int, o as int);
            }
            let y = (c / cw) * n + o / n;
            let x = (c % cw) * n + o % n;
            proof {
                assert(y as int * wi + x as int == chunk_cell(wi, ni, c as int, o as int));
                assert(wi * hi <= 0x7fff_fffe);
                assert(0 <= y as int * wi <= y as int * wi + x as int) by (nonlinear_arith)
                    requires
                        0 <= y,
                        0 <= x,
                        0 <= wi,
                ;
            }
            let idx = y * w + x;
            p.push(build_data.map.tiles[idx]);
            proof {
                assert(p@ =~= pattern_of(t, wi, ni, c as int).subrange(0, o as int + 1));
            }
            o = o + 1;
        }
        proof {
            assert(p@ =~= pattern_of(t, wi, ni, c as int));
        }
        let mut seen = false;
        let mut k: usize = 0;
        while k < patterns.len()
            invariant
                k <= patterns@.len(),
            decreases patterns@.len() - k,
        {
            if same_tiles(&patterns[k], &p) {
                seen = true;
            }
            k = k + 1;
        }
        if !seen || patterns.len() == 0 {
            let ghost before = patterns@;
            patterns.push(p);
            proof {
                assert forall|k: int| 0 <= k < pattern_views(patterns@).len() implies exists|cc: int|
                    0 <= cc < chunk_cols(wi, ni) * chunk_rows(hi, ni)
                        && #[trigger] pattern_views(patterns@)[k] == pattern_of(t, wi, ni, cc) by {
                    if k < before.len() {
                        assert(pattern_views(patterns@)[k] == pattern_views(before)[k]);
                    } else {
                        assert(pattern_views(patterns@)[k] == pattern_of(t, wi, ni, c as int));
                    }
                }
            }
        }
        c = c + 1;
    }
    patterns
}


/// Whether each pattern may stand right of (`right`) or below (`below`)
/// each other: `right[a][b]` holds when `b` fits right of `a`.
pub fn compatibility(patterns: &Vec<Vec<TileType>>, n: usize) -> (r: (Vec<Vec<bool>>, Vec<Vec<bool>>))
    requires
        1 <= n,
        n * n <= 0x7fff_fffe,
        forall|k: int| 0 <= k < patterns@.len() ==> (#[trigger] patterns@[k])@.len() == n * n,
    ensures
        r.0@.len() == patterns@.len(),
        r.1@.len() == patterns@.len(),
        forall|a: int| 0 <= a < patterns@.len() ==> (#[trigger] r.0@[a])@.len() == patterns@.len(),
        forall|a: int| 0 <= a < patterns@.len() ==> (#[trigger] r.1@[a])@.len() == patterns@.len(),
        forall|a: int, b: int|
            0 <= a < patterns@.len() && 0 <= b < patterns@.len() ==> r.0@[a]@[b] == fits_right(
                patterns@[a]@,
                patterns@[b]@,
                n as int,
            ) && r.1@[a]@[b] == fits_below(patterns@[a]@, patterns@[b]@, n as int),
{
    let np = patterns.len();
    let mut right: Vec<Vec<bool>> = Vec::new();
    let mut below: Vec<Vec<bool>> = Vec::new();
    let mut a: usize = 0;
    while a < np
        invariant
            np == patterns@.len(),
            1 <= n,
            n * n <= 0x7fff_fffe,
            forall|k: int| 0 <= k < patterns@.len() ==> (#[trigger] patterns@[k])@.len() == n * n,
            a <= np,
            right@.len() == a,
            below@.len() == a,
            forall|x: int| 0 <= x < a ==> (#[trigger] right@[x])@.len() == np,
            forall|x: int| 0 <= x < a ==> (#[trigger] below@[x])@.len() == np,
            forall|x: int, b: int|
                0 <= x < a && 0 <= b < np ==> right@[x]@[b] == fits_right(patterns@[x]@, patterns@[b]@, n as int)
                    && below@[x]@[b] == fits_below(patterns@[x]@, patterns@[b]@, n as int),
        decreases np - a,
    {
        let mut row_r: Vec<bool> = Vec::new();
        let mut row_b: Vec<bool> = Vec::new();
        let mut b: usize = 0;
        while b < np
            invariant
                np == patterns@.len(),
                1 <= n,
                n * n <= 0x7fff_fffe,
                forall|k: int| 0 <= k < patterns@.len() ==> (#[trigger] patterns@[k])@.len() == n * n,
                a < np,
                b <= np,
                row_r@.len() == b,
                row_b@.len() == b,
                forall|y: int|
                    0 <= y < b ==> #[trigger] row_r@[y] == fits_right(patterns@[a as int]@, patterns@[y]@, n as int)
                        && row_b@[y] == fits_below(patterns@[a as int]@, patterns@[y]@, n as int),
            decreases np - b,
        {
            let pa = &patterns[a];
            let pb = &patterns[b];
            let mut ok_r = true;
            let mut ok_b = true;
            let mut j: usize = 0;
            while j < n
                invariant
                    1 <= n,
                    n * n <= 0x7fff_fffe,
                    pa@.len() == n * n,
                    pb@.len() == n * n,
                    j <= n,
                    ok_r == forall|m: int| 0 <= m < j ==> pa@[m * n + n - 1] == #[trigger] pb@[m * n],
                    ok_b == forall|m: int| 0 <= m < j ==> pa@[(n - 1) * n + m] == #[trigger] pb@[m],
                decreases n - j,
            {
                proof {
                    assert(j * n + n - 1 < n * n && (n - 1) * n + j < n * n && j * n >= 0) by (nonlinear_arith)
                        requires
                            j < n,
                            1 <= n,
                    ;
                }
                let rr = pa[j * n + n - 1] == pb[j * n];
                let bb = pa[(n - 1) * n + j] == pb[j];
                proof {
                    if !rr {
                        assert(!(pa@[j * n + n - 1] == pb@[j * n]));
                    }
                    if !bb {
                        assert(!(pa@[(n - 1) * n + j] == pb@[j as int]));
                    }
                }
                ok_r = ok_r && rr;
                ok_b = ok_b && bb;
                j = j + 1;
            }
            row_r.push(ok_r);
            row_b.push(ok_b);
            b = b + 1;
        }
        let ghost r0 = right@;
        let ghost b0 = below@;
        right.push(row_r);
        below.push(row_b);
        proof {
            assert forall|x: int, b: int|
                0 <= x < a + 1 && 0 <= b < np implies right@[x]@[b] == fits_right(patterns@[x]@, patterns@[b]@, n as int)
                    && below@[x]@[b] == fits_below(patterns@[x]@, patterns@[b]@, n as int) by {
                if x < a {
                    assert(right@[x] == r0[x] && below@[x] == b0[x]);
                } else {
                    assert(right@[x]@[b] == row_r@[b]);
                    assert(below@[x]@[b] == row_b@[b]);
                }
            }
        }
        a = a + 1;
    }
    (right, below)
}

/// Number of set entries among the first `k`.
pub open spec fn trues_in(v: Seq<bool>, k: int) -> int
    decreases k,
{
    if k <= 0 || k > v.len() {
        0
    } else {
        trues_in(v, k - 1) + if v[k - 1] {
            1int
        } else {
            0
        }
    }
}

proof fn lemma_trues_all(v: Seq<bool>, k: int)
    requires
        0 <= k <= v.len(),
        forall|i: int| 0 <= i < k ==> #[trigger] v[i],
    ensures
        trues_in(v, k) == k,
    decreases k,
{
    if k > 0 {
        lemma_trues_all(v, k - 1);
    }
}

proof fn lemma_trues_none(v: Seq<bool>, k: int)
    requires
        0 <= k <= v.len(),
        forall|i: int| 0 <= i < k ==> !#[trigger] v[i],
    ensures
        trues_in(v, k) == 0,
    decreases k,
{
    if k > 0 {
        lemma_trues_none(v, k - 1);
    }
}

proof fn lemma_trues_bound(v: Seq<bool>, k: int)
    requires
        0 <= k <= v.len(),
    ensures
        0 <= trues_in(v, k) <= k,
    decreases k,
{
    if k > 0 {
        lemma_trues_bound(v, k - 1);
    }
}

proof fn lemma_trues_set(v: Seq<bool>, i: int, k: int)
    requires
        0 <= i < v.len(),
        0 <= k <= v.len(),
        !v[i],
    ensures
        trues_in(v.update(i, true), k) == trues_in(v, k) + (if i < k { 1int } else { 0 }),
    decreases k,
{
    if k > 0 {
        lemma_trues_set(v, i, k - 1);
    }
}

proof fn lemma_trues_full(v: Seq<bool>, k: int)
    requires
        0 <= k <= v.len(),
        trues_in(v, k) == k,
    ensures
        forall|i: int| 0 <= i < k ==> #[trigger] v[i],
    decreases k,
{
    if k > 0 {
        lemma_trues_bound(v, k - 1);
        lemma_trues_full(v, k - 1);
    }
}

/// Every open chunk but `best` still has every pattern as a candidate.
pub open spec fn rows_full(cand: Seq<Vec<bool>>, done: Seq<bool>, total: int, np: int, best: int) -> bool {
    forall|x: int, q: int| 0 <= x < total && x != best && !done[x] && 0 <= q < np ==> #[trigger] cand[x]@[q]
}

/// Every pattern fits right of and below every pattern.
pub open spec fn all_fit(right: Seq<Vec<bool>>, below: Seq<Vec<bool>>, np: int) -> bool {
    forall|a: int, b: int|
        #![trigger right[a]@[b]]
        #![trigger below[a]@[b]]
        0 <= a < np && 0 <= b < np ==> right[a]@[b] && below[a]@[b]
}

/// Number of remaining candidates.
pub fn count_candidates(v: &Vec<bool>) -> (c: usize)
    ensures
        c == trues_in(v@, v@.len() as int),
        c <= v@.len(),
{
    let mut c: usize = 0;
    let mut i: usize = 0;
    while i < v.len()
        invariant
            c <= i <= v@.len(),
            c == trues_in(v@, i as int),
        decreases v@.len() - i,
    {
        if v[i] {
            c = c + 1;
        }
        i = i + 1;
    }
    c
}

/// The `k`-th remaining candidate, counting from one.
pub fn nth_candidate(v: &Vec<bool>, k: usize) -> (r: Option<usize>)
    ensures
        r matches Some(p) ==> p < v@.len() && v@[p as int] && trues_in(v@, p as int + 1) == k,
        1 <= k <= trues_in(v@, v@.len() as int) ==> r is Some,
{
    let mut seen: usize = 0;
    let mut i: usize = 0;
    while i < v.len()
        invariant
            seen <= i <= v@.len(),
            seen == trues_in(v@, i as int),
            1 <= k ==> seen < k,
        decreases v@.len() - i,
    {
        if v[i] {
            seen = seen + 1;
            if seen == k {
                return Some(i);
            }
        }
        i = i + 1;
    }
    None
}

/// Narrows the candidates of chunk `c` to those that `allowed` admits.
fn restrict(cand: &mut Vec<Vec<bool>>, c: usize, allowed: &Vec<bool>)
    requires
        c < old(cand)@.len(),
        allowed@.len() == old(cand)@[c as int]@.len(),
    ensures
        final(cand)@.len() == old(cand)@.len(),
        forall|x: int| 0 <= x < final(cand)@.len() ==> (#[trigger] final(cand)@[x])@.len() == old(cand)@[x]@.len(),
        forall|x: int| 0 <= x < final(cand)@.len() && x != c ==> #[trigger] final(cand)@[x] == old(cand)@[x],
        forall|q: int|
            0 <= q < allowed@.len() ==> #[trigger] final(cand)@[c as int]@[q] == (old(cand)@[c as int]@[q] && allowed@[q]),
{
    let mut row: Vec<bool> = Vec::new();
    cand.set_and_swap(c, &mut row);
    let ghost row0 = row@;
    let mut q: usize = 0;
    while q < row.len()
        invariant
            row@.len() == row0.len(),
            allowed@.len() == row0.len(),
            q <= row@.len(),
            forall|x: int| 0 <= x < q ==> #[trigger] row@[x] == (row0[x] && allowed@[x]),
            forall|x: int| q <= x < row@.len() ==> #[trigger] row@[x] == row0[x],
        decreases row@.len() - q,
    {
        let v = row[q] && allowed[q];
        row.set(q, v);
        q = q + 1;
    }
    cand.set(c, row);
}

/// The column of a compatibility table for pattern `p`.
fn column(table: &Vec<Vec<bool>>, p: usize) -> (col: Vec<bool>)
    requires
        forall|a: int| 0 <= a < table@.len() ==> p < (#[trigger] table@[a])@.len(),
    ensures
        col@.len() == table@.len(),
        forall|a: int| 0 <= a < table@.len() ==> #[trigger] col@[a] == table@[a]@[p as int],
{
    let mut col: Vec<bool> = Vec::new();
    let mut a: usize = 0;
    while a < table.len()
        invariant
            a <= table@.len(),
            col@.len() == a,
            forall|a: int| 0 <= a < table@.len() ==> p < (#[trigger] table@[a])@.len(),
            forall|x: int| 0 <= x < a ==> #[trigger] col@[x] == table@[x]@[p as int],
        decreases table@.len() - a,
    {
        col.push(table[a][p]);
        a = a + 1;
    }
    col
}

/// Chunks `c` and `c + 1` stand side by side in a row of `cw` chunks.
pub open spec fn hpair(cw: int, total: int, c: int) -> bool {
    0 <= c && c + 1 < total && (c + 1) % cw != 0
}

/// Chunk `c + cw` stands below chunk `c`.
pub open spec fn vpair(cw: int, total: int, c: int) -> bool {
    0 <= c && c + cw < total
}

/// Neighbouring chunks that both have a pattern fit together.
pub open spec fn placed_fit(
    right: Seq<Vec<bool>>,
    below: Seq<Vec<bool>>,
    cw: int,
    total: int,
    assign: Seq<usize>,
    done: Seq<bool>,
) -> bool {
    &&& forall|c: int|
        #[trigger] hpair(cw, total, c) && done[c] && done[c + 1] ==> right[assign[c] as int]@[assign[c
            + 1] as int]
    &&& forall|c: int|
        #[trigger] vpair(cw, total, c) && done[c] && done[c + cw] ==> below[assign[c] as int]@[assign[c
            + cw] as int]
}

/// Every candidate of an open chunk fits the patterns already beside it.
pub open spec fn candidates_fit(
    right: Seq<Vec<bool>>,
    below: Seq<Vec<bool>>,
    cw: int,
    total: int,
    assign: Seq<usize>,
    done: Seq<bool>,
    cand: Seq<Vec<bool>>,
) -> bool {
    forall|c: int, q: int|
        0 <= c < total && !done[c] && 0 <= q < cand[c]@.len() && #[trigger] cand[c]@[q] ==> {
            &&& (hpair(cw, total, c - 1) && done[c - 1] ==> right[assign[c - 1] as int]@[q])
            &&& (hpair(cw, total, c) && done[c + 1] ==> right[q]@[assign[c + 1] as int])
            &&& (vpair(cw, total, c - cw) && done[c - cw] ==> below[assign[c - cw] as int]@[q])
            &&& (vpair(cw, total, c) && done[c + cw] ==> below[q]@[assign[c + cw] as int])
        }
}

proof fn lemma_collapse(
    right: Seq<Vec<bool>>,
    below: Seq<Vec<bool>>,
    cw: int,
    total: int,
    assign: Seq<usize>,
    done: Seq<bool>,
    cand0: Seq<Vec<bool>>,
    cand1: Seq<Vec<bool>>,
    best: int,
    p: usize,
)
    requires
        1 <= cw,
        assign.len() == total,
        done.len() == total,
        cand0.len() == total,
        cand1.len() == total,
        forall|x: int| 0 <= x < total ==> (#[trigger] cand1[x])@.len() == cand0[x]@.len(),
        0 <= best < total,
        !done[best],
        0 <= p < cand0[best]@.len(),
        cand0[best]@[p as int],
        cand1[best] == cand0[best],
        placed_fit(right, below, cw, total, assign, done),
        candidates_fit(right, below, cw, total, assign, done, cand0),
        forall|x: int, q: int|
            0 <= x < total && 0 <= q < cand1[x]@.len() && #[trigger] cand1[x]@[q] ==> cand0[x]@[q],
        hpair(cw, total, best - 1) && !done[best - 1] ==> forall|q: int|
            0 <= q < cand1[best - 1]@.len() && #[trigger] cand1[best - 1]@[q] ==> right[q]@[p as int],
        hpair(cw, total, best) && !done[best + 1] ==> forall|q: int|
            0 <= q < cand1[best + 1]@.len() && #[trigger] cand1[best + 1]@[q] ==> right[p as int]@[q],
        vpair(cw, total, best - cw) && !done[best - cw] ==> forall|q: int|
            0 <= q < cand1[best - cw]@.len() && #[trigger] cand1[best - cw]@[q] ==> below[q]@[p as int],
        vpair(cw, total, best) && !done[best + cw] ==> forall|q: int|
            0 <= q < cand1[best + cw]@.len() && #[trigger] cand1[best + cw]@[q] ==> below[p as int]@[q],
    ensures
        placed_fit(right, below, cw, total, assign.update(best, p), done.update(best, true)),
        candidates_fit(right, below, cw, total, assign.update(best, p), done.update(best, true), cand1),
{
    let a1 = assign.update(best, p);
    let d1 = done.update(best, true);
    assert forall|c: int| #[trigger] hpair(cw, total, c) && d1[c] && d1[c + 1] implies right[a1[c] as int]@[a1[c
        + 1] as int] by {
        if c == best {
            assert(cand0[best]@[p as int]);
        } else if c + 1 == best {
            assert(cand0[best]@[p as int]);
        } else {
            assert(done[c] && done[c + 1]);
        }
    }
    assert forall|c: int| #[trigger] vpair(cw, total, c) && d1[c] && d1[c + cw] implies below[a1[c] as int]@[a1[c
        + cw] as int] by {
        if c == best {
            assert(cand0[best]@[p as int]);
        } else if c + cw == best {
            assert(cand0[best]@[p as int]);
        } else {
            assert(done[c] && done[c + cw]);
        }
    }
    assert forall|c: int, q: int|
        0 <= c < total && !d1[c] && 0 <= q < cand1[c]@.len() && #[trigger] cand1[c]@[q] implies {
            &&& (hpair(cw, total, c - 1) && d1[c - 1] ==> right[a1[c - 1] as int]@[q])
            &&& (hpair(cw, total, c) && d1[c + 1] ==> right[q]@[a1[c + 1] as int])
            &&& (vpair(cw, total, c - cw) && d1[c - cw] ==> below[a1[c - cw] as int]@[q])
            &&& (vpair(cw, total, c) && d1[c + cw] ==> below[q]@[a1[c + cw] as int])
        } by {
        assert(cand0[c]@[q]);
        assert(c != best);
    }
}

/// Assigns a pattern to each of `cw * ch` chunks: repeatedly the chunk with
/// the fewest remaining candidates (the first such in scan order) takes one
/// of them at random, and its neighbours keep only the patterns that fit
/// beside it. `None` when some chunk runs out of candidates. On success
/// neighbouring chunks fit together.
pub fn solve(
    right: &Vec<Vec<bool>>,
    below: &Vec<Vec<bool>>,
    np: usize,
    cw: usize,
    ch: usize,
    rng: &mut rltk::RandomNumberGenerator,
) -> (r: Option<Vec<usize>>)
    requires
        1 <= np < 0x7fff_ffff,
        1 <= cw,
        cw * ch <= 0x7fff_fffe,
        right@.len() == np,
        below@.len() == np,
        forall|a: int| 0 <= a < np ==> (#[trigger] right@[a])@.len() == np,
        forall|a: int| 0 <= a < np ==> (#[trigger] below@[a])@.len() == np,
    ensures
        r matches Some(a) ==> a@.len() == cw * ch && (forall|c: int| 0 <= c < cw * ch ==> #[trigger] a@[c] < np)
            && (forall|c: int|
            #[trigger] hpair(cw as int, cw * ch, c) ==> right@[a@[c] as int]@[a@[c + 1] as int])
            && (forall|c: int|
            #[trigger] vpair(cw as int, cw * ch, c) ==> below@[a@[c] as int]@[a@[c + cw] as int]),
        all_fit(right@, below@, np as int) ==> r is Some,
{
    let total = cw * ch;
    let mut cand: Vec<Vec<bool>> = Vec::new();
    let mut c: usize = 0;
    while c < total
        invariant
            c <= total,
            cand@.len() == c,
            forall|x: int| 0 <= x < c ==> (#[trigger] cand@[x])@.len() == np,
            forall|x: int, q: int| 0 <= x < c && 0 <= q < np ==> #[trigger] cand@[x]@[q],
        decreases total - c,
    {
        cand.push(vec![true; np]);
        c = c + 1;
    }
    let mut assign: Vec<usize> = vec![0usize; total];
    let mut done: Vec<bool> = vec![false; total];
    let mut step: usize = 0;
    let mut more = true;
    proof {
        assert(trues_in(done@, total as int) == 0) by {
            lemma_trues_none(done@, total as int);
        }
    }
    while step < total && more
        invariant
            total == cw * ch,
            1 <= cw,
            1 <= np < 0x7fff_ffff,
            total <= 0x7fff_fffe,
            right@.len() == np,
            below@.len() == np,
            forall|a: int| 0 <= a < np ==> (#[trigger] right@[a])@.len() == np,
            forall|a: int| 0 <= a < np ==> (#[trigger] below@[a])@.len() == np,
            cand@.len() == total,
            assign@.len() == total,
            done@.len() == total,
            forall|x: int| 0 <= x < total ==> (#[trigger] cand@[x])@.len() == np,
            forall|x: int| 0 <= x < total ==> #[trigger] assign@[x] < np,
            placed_fit(right@, below@, cw as int, total as int, assign@, done@),
            candidates_fit(right@, below@, cw as int, total as int, assign@, done@, cand@),
            step <= total,
            trues_in(done@, total as int) == step,
            !more ==> forall|x: int| 0 <= x < total ==> #[trigger] done@[x],
            all_fit(right@, below@, np as int) ==> forall|x: int, q: int|
                0 <= x < total && !done@[x] && 0 <= q < np ==> #[trigger] cand@[x]@[q],
        decreases total - step, (if more { 1int } else { 0int }),
    {
        let mut best: usize = total;
        let mut best_count: usize = np + 1;
        let mut k: usize = 0;
        while k < total
            invariant
                k <= total,
                best == total || (best < total && !done@[best as int]),
                best_count <= np + 1,
                best < total ==> best_count <= np,
                cand@.len() == total,
                done@.len() == total,
                forall|x: int| 0 <= x < total ==> (#[trigger] cand@[x])@.len() == np,
                best == total ==> forall|x: int| 0 <= x < k ==> #[trigger] done@[x],
                best == total ==> best_count == np + 1,
                best < total ==> best_count == trues_in(cand@[best as int]@, np as int),
                all_fit(right@, below@, np as int) ==> forall|x: int, q: int|
                    0 <= x < total && !done@[x] && 0 <= q < np ==> #[trigger] cand@[x]@[q],
                all_fit(right@, below@, np as int) && best < total ==> best_count == np,
            decreases total - k,
        {
            if !done[k] {
                proof {
                    if all_fit(right@, below@, np as int) {
                        assert forall|q: int| 0 <= q < np implies #[trigger] cand@[k as int]@[q] by {
                            assert(cand@[k as int]@[q]);
                        }
                        lemma_trues_all(cand@[k as int]@, np as int);
                    }
                }
                let count = count_candidates(&cand[k]);
                if count < best_count {
                    best = k;
                    best_count = count;
                }
            }
            k = k + 1;
        }
        if best == total {
            more = false;
        } else {
        if best_count == 0 {
            return None;
        }
        proof {
            if all_fit(right@, below@, np as int) {
                assert(trues_in(cand@[best as int]@, cand@[best as int]@.len() as int) == best_count);
            }
        }
        let roll = rng.roll_dice(1, best_count as i32);
        let p = match nth_candidate(&cand[best], roll as usize) {
            Some(p) => p,
            None => {
                return None;
            },
        };
        let ghost cand0 = cand@;
        let ghost fit = all_fit(right@, below@, np as int);
        assert(fit ==> rows_full(cand@, done@, total as int, np as int, best as int));
        if best % cw != 0 && best >= 1 && !done[best - 1] {
            let col = column(right, p);
            let ghost c_before = cand@;
            restrict(&mut cand, best - 1, &col);
            proof {
                if fit {
                    assert forall|x: int, q: int|
                        0 <= x < total && x != best && !done@[x] && 0 <= q < np implies #[trigger] cand@[x]@[q] by {
                        assert(c_before[x]@[q]);
                        if x == best - 1 {
                            assert(col@[q] == right@[q]@[p as int]);
                        }
                    }
                }
            }
        }
        let ghost cand_a = cand@;
        if best + 1 < total && (best + 1) % cw != 0 && !done[best + 1] {
            let ghost c_before = cand@;
            restrict(&mut cand, best + 1, &right[p]);
            proof {
                if fit {
                    assert forall|x: int, q: int|
                        0 <= x < total && x != best && !done@[x] && 0 <= q < np implies #[trigger] cand@[x]@[q] by {
                        assert(c_before[x]@[q]);
                        if x == best + 1 {
                            assert(right@[p as int]@[q]);
                        }
                    }
                }
            }
        }
        let ghost cand_b = cand@;
        if best >= cw && !done[best - cw] {
            let col = column(below, p);
            let ghost c_before = cand@;
            restrict(&mut cand, best - cw, &col);
            proof {
                if fit {
                    assert forall|x: int, q: int|
                        0 <= x < total && x != best && !done@[x] && 0 <= q < np implies #[trigger] cand@[x]@[q] by {
                        assert(c_before[x]@[q]);
                        if x == best - cw {
                            assert(col@[q] == below@[q]@[p as int]);
                        }
                    }
                }
            }
        }
        let ghost cand_c = cand@;
        if total >= cw && best < total - cw && !done[best + cw] {
            let ghost c_before = cand@;
            restrict(&mut cand, best + cw, &below[p]);
            proof {
                if fit {
                    assert forall|x: int, q: int|
                        0 <= x < total && x != best && !done@[x] && 0 <= q < np implies #[trigger] cand@[x]@[q] by {
                        assert(c_before[x]@[q]);
                        if x == best + cw {
                            assert(below@[p as int]@[q]);
                        }
                    }
                }
            }
        }
        proof {
            let bi = best as int;
            let ci = cw as int;
            assert(cand@[bi] == cand0[bi]);
            assert forall|x: int, q: int|
                0 <= x < total && 0 <= q < cand@[x]@.len() && #[trigger] cand@[x]@[q] implies cand0[x]@[q] by {
                assert(cand_c[x]@[q]);
                assert(cand_b[x]@[q]);
                assert(cand_a[x]@[q]);
            }
            if hpair(ci, total as int, bi - 1) && !done@[bi - 1] {
                assert(bi % ci != 0);
                assert forall|q: int| 0 <= q < cand@[bi - 1]@.len() && #[trigger] cand@[bi - 1]@[q] implies right@[q]@[p as int] by {
                    assert(cand_c[bi - 1]@[q]);
                    assert(cand_b[bi - 1]@[q]);
                    assert(cand_a[bi - 1]@[q]);
                }
            }
            if hpair(ci, total as int, bi) && !done@[bi + 1] {
                assert forall|q: int| 0 <= q < cand@[bi + 1]@.len() && #[trigger] cand@[bi + 1]@[q] implies right@[p as int]@[q] by {
                    assert(cand_c[bi + 1]@[q]);
                    assert(cand_b[bi + 1]@[q]);
                }
            }
            if vpair(ci, total as int, bi - ci) && !done@[bi - ci] {
                assert forall|q: int| 0 <= q < cand@[bi - ci]@.len() && #[trigger] cand@[bi - ci]@[q] implies below@[q]@[p as int] by {
                    assert(cand_c[bi - ci]@[q]);
                }
            }
            lemma_collapse(right@, below@, ci, total as int, assign@, done@, cand0, cand@, bi, p);
        }
        proof {
            lemma_trues_set(done@, best as int, total as int);
        }
        let ghost done_before = done@;
        assign.set(best, p);
        done.set(best, true);
        proof {
            assert(done@ == done_before.update(best as int, true));
            if fit {
                assert forall|x: int, q: int|
                    0 <= x < total && !done@[x] && 0 <= q < np implies #[trigger] cand@[x]@[q] by {
                    assert(x != best);
                    assert(!done_before[x]);
                }
            }
            if step + 1 == total {
                lemma_trues_full(done@, total as int);
            }
        }
        step = step + 1;
        }
    }
    proof {
        if more {
            lemma_trues_full(done@, total as int);
        }
    }
    let mut c: usize = 0;
    while c < total
        invariant
            c <= total,
            done@.len() == total,
            forall|x: int| 0 <= x < c ==> #[trigger] done@[x],
            forall|x: int| 0 <= x < total ==> #[trigger] done@[x],
        decreases total - c,
    {
        if !done[c] {
            return None;
        }
        c = c + 1;
    }
    proof {
        assert forall|c: int| #[trigger] hpair(cw as int, total as int, c) implies right@[assign@[c] as int]@[assign@[c
            + 1] as int] by {
            assert(done@[c] && done@[c + 1]);
        }
        assert forall|c: int| #[trigger] vpair(cw as int, total as int, c) implies below@[assign@[c] as int]@[assign@[c
            + cw] as int] by {
            assert(done@[c] && done@[c + cw]);
        }
    }
    Some(assign)
}

/// Writes pattern `assign[c]` over each whole chunk `c`.
pub fn apply_patterns(build_data: &mut BuilderMap, patterns: &Vec<Vec<TileType>>, assign: &Vec<usize>, n: usize)
    requires
        old(build_data).wf(),
        1 <= n,
        forall|k: int| 0 <= k < patterns@.len() ==> (#[trigger] patterns@[k])@.len() == n * n,
        assignment_ok(
            assign@.map_values(|a: usize| a as int),
            chunk_cols(old(build_data).width as int, n as int) * chunk_rows(old(build_data).height as int, n as int),
            patterns@.len() as int,
        ),
    ensures
        final(build_data).wf(),
        final(build_data).same_layout(old(build_data)),
        final(build_data).history == old(build_data).history,
        final(build_data).map.tiles@ == resynthesized(
            old(build_data).map.tiles@,
            old(build_data).width as int,
            old(build_data).height as int,
            n as int,
            pattern_views(patterns@),
            assign@.map_values(|a: usize| a as int),
        ),
{
    let ghost b0 = *build_data;
    let ghost t = build_data.map.tiles@;
    let ghost wi = build_data.width as int;
    let ghost hi = build_data.height as int;
    let ghost ni = n as int;
    let ghost av = assign@.map_values(|a: usize| a as int);
    let w = build_data.width as usize;
    let h = build_data.height as usize;
    let cw = w / n;
    let ch = h / n;
    proof {
        vstd::arithmetic::div_mod::lemma_fundamental_div_mod(w as int, n as int);
        vstd::arithmetic::div_mod::lemma_fundamental_div_mod(h as int, n as int);
        assert(cw * n <= w && ch * n <= h) by (nonlinear_arith)
            requires
                w == n * cw + w % n,
                h == n * ch + h % n,
                0 <= w % n,
                0 <= h % n,
        ;
    }
    let len = build_data.map.tiles.len();
    let mut i: usize = 0;
    while i < len
        invariant
            build_data.wf(),
            build_data.same_layout(&b0),
            build_data.history == b0.history,
            b0.map.tiles@ == t,
            len == t.len(),
            wi == w,
            hi == h,
            ni == n,
            1 <= n,
            w == build_data.width,
            h == build_data.height,
            cw == chunk_cols(wi, ni),
            ch == chunk_rows(hi, ni),
            cw * n <= w,
            ch * n <= h,
            av == assign@.map_values(|a: usize| a as int),
            forall|k: int| 0 <= k < patterns@.len() ==> (#[trigger] patterns@[k])@.len() == n * n,
            assignment_ok(av, cw * ch, patterns@.len() as int),
            i <= len,
            forall|k: int| 0 <= k < i ==> #[trigger] build_data.map.tiles@[k] == resynthesized(
                t, wi, hi, ni, pattern_views(patterns@), av)[k],
            forall|k: int| i <= k < len ==> #[trigger] build_data.map.tiles@[k] == t[k],
        decreases len - i,
    {
        proof {
            lemma_coords(wi, hi, i as int);
        }
        let x = i % w;
        let y = i / w;
        if x < cw * n && y < ch * n {
            proof {
                lemma_chunk_of_bounds(wi, hi, ni, i as int);
                assert((y / n) as int * cw as int + (x / n) as int == chunk_of(wi, ni, i as int));
                assert(cw * ch <= w * h) by (nonlinear_arith)
                    requires
                        cw * n <= w,
                        ch * n <= h,
                        1 <= n,
                        0 <= cw,
                        0 <= ch,
                ;
                assert(0 <= (y / n) as int * cw as int) by (nonlinear_arith)
                    requires
                        0 <= (y / n) as int,
                        0 <= cw,
                ;
            }
            let c = (y / n) * cw + x / n;
            proof {
                assert((y % n) as int * n as int + (x % n) as int == offset_of(wi, ni, i as int));
                assert(1 <= cw && 1 <= ch) by (nonlinear_arith)
                    requires
                        0 <= x < cw * n,
                        0 <= y < ch * n,
                        1 <= n,
                        0 <= cw,
                        0 <= ch,
                ;
                assert(n * n <= w * h) by (nonlinear_arith)
                    requires
                        cw * n <= w,
                        ch * n <= h,
                        1 <= n,
                        1 <= cw,
                        1 <= ch,
                ;
                assert(0 <= (y % n) as int * n as int) by (nonlinear_arith)
                    requires
                        0 <= (y % n) as int,
                        1 <= n,
                ;
            }
            let o = (y % n) * n + x % n;
            let k = assign[c];
            assert(av[c as int] == k as int);
            let tile = patterns[k][o];
            build_data.map.tiles.set(i, tile);
        }
        i = i + 1;
    }
    proof {
        assert(build_data.map.tiles@ =~= resynthesized(t, wi, hi, ni, pattern_views(patterns@), av));
    }
}

/// Side-by-side chunks agree along their shared edge column, and stacked
/// chunks along their shared edge row.
pub open spec fn chunks_fit(patterns: Seq<Seq<TileType>>, assign: Seq<int>, cw: int, total: int, n: int) -> bool {
    &&& forall|c: int|
        #[trigger] hpair(cw, total, c) ==> fits_right(patterns[assign[c]], patterns[assign[c + 1]], n)
    &&& forall|c: int|
        #[trigger] vpair(cw, total, c) ==> fits_below(patterns[assign[c]], patterns[assign[c + cw]], n)
}

/// Every chunk of the grid fits right of and below every chunk.
pub open spec fn chunks_all_fit(t: Seq<TileType>, w: int, h: int, n: int) -> bool {
    forall|c1: int, c2: int|
        0 <= c1 < chunk_cols(w, n) * chunk_rows(h, n) && 0 <= c2 < chunk_cols(w, n) * chunk_rows(h, n) ==> fits_right(
            #[trigger] pattern_of(t, w, n, c1),
            #[trigger] pattern_of(t, w, n, c2),
            n,
        ) && fits_below(pattern_of(t, w, n, c1), pattern_of(t, w, n, c2), n)
}

/// Resynthesizes the grid from its own chunks.
pub struct WaveformCollapseBuilder {
    pub chunk_size: usize,
}

/// Default side of a chunk, in cells.
pub const CHUNK_SIZE: usize = 8;

impl WaveformCollapseBuilder {
    pub fn new() -> (r: WaveformCollapseBuilder)
        ensures
            r.chunk_size == CHUNK_SIZE,
    {
        WaveformCollapseBuilder { chunk_size: CHUNK_SIZE }
    }

    /// Chunks of the given side.
    pub fn with_chunk_size(chunk_size: usize) -> (r: WaveformCollapseBuilder)
        ensures
            r.chunk_size == chunk_size,
    {
        WaveformCollapseBuilder { chunk_size }
    }

    /// On success every whole chunk of the grid becomes one of the chunks
    /// sampled from it, and the spawn intents, rooms and corridors, which
    /// described the old grid, are cleared. When some chunk runs out of
    /// candidates, or the grid holds no whole chunk, nothing changes.
    pub fn build(&self, rng: &mut rltk::RandomNumberGenerator, build_data: &mut BuilderMap) -> (changed: bool)
        requires
            old(build_data).wf(),
            1 <= self.chunk_size,
        ensures
            final(build_data).wf(),
            self.chunk_size > old(build_data).width || self.chunk_size > old(build_data).height ==> !changed,
            self.chunk_size <= old(build_data).width && self.chunk_size <= old(build_data).height
                && chunks_all_fit(
                old(build_data).map.tiles@,
                old(build_data).width as int,
                old(build_data).height as int,
                self.chunk_size as int,
            ) ==> changed,
            !changed ==> *final(build_data) == *old(build_data),
            changed ==> exists|patterns: Seq<Seq<TileType>>, assign: Seq<int>|
                sampled_from(
                    old(build_data).map.tiles@,
                    old(build_data).width as int,
                    old(build_data).height as int,
                    self.chunk_size as int,
                    patterns,
                ) && assignment_ok(
                    assign,
                    chunk_cols(old(build_data).width as int, self.chunk_size as int) * chunk_rows(
                        old(build_data).height as int,
                        self.chunk_size as int,
                    ),
                    patterns.len() as int,
                ) && final(build_data).map.tiles@ == resynthesized(
                    old(build_data).map.tiles@,
                    old(build_data).width as int,
                    old(build_data).height as int,
                    self.chunk_size as int,
                    patterns,
                    assign,
                ) && chunks_fit(
                    patterns,
                    assign,
                    chunk_cols(old(build_data).width as int, self.chunk_size as int),
                    chunk_cols(old(build_data).width as int, self.chunk_size as int) * chunk_rows(
                        old(build_data).height as int,
                        self.chunk_size as int,
                    ),
                    self.chunk_size as int,
                ),
            changed ==> final(build_data).spawn_list@.len() == 0 && final(build_data).rooms is None
                && final(build_data).corridors is None
                && final(build_data).starting_position == old(build_data).starting_position
                && final(build_data).width == old(build_data).width
                && final(build_data).height == old(build_data).height,
    {
        let n = self.chunk_size;
        let w = build_data.width as usize;
        let h = build_data.height as usize;
        if n > w || n > h {
            return false;
        }
        let cw = w / n;
        let ch = h / n;
        proof {
            vstd::arithmetic::div_mod::lemma_fundamental_div_mod(w as int, n as int);
            vstd::arithmetic::div_mod::lemma_fundamental_div_mod(h as int, n as int);
            assert(cw >= 1 && ch >= 1) by (nonlinear_arith)
                requires
                    w == n * cw + w % n,
                    h == n * ch + h % n,
                    0 <= w % n < n,
                    0 <= h % n < n,
                    n <= w,
                    n <= h,
            ;
            assert(cw * ch <= w * h && n * n <= w * h) by (nonlinear_arith)
                requires
                    w == n * cw + w % n,
                    h == n * ch + h % n,
                    0 <= w % n,
                    0 <= h % n,
                    1 <= n,
                    1 <= cw,
                    1 <= ch,
            ;
        }
        let patterns = extract_patterns(build_data, n);
        let (right, below) = compatibility(&patterns, n);
        let np = patterns.len();
        proof {
            if chunks_all_fit(build_data.map.tiles@, w as int, h as int, n as int) {
                let t = build_data.map.tiles@;
                let pv = pattern_views(patterns@);
                assert forall|a: int, b: int|
                    #![trigger right@[a]@[b]]
                    #![trigger below@[a]@[b]]
                    0 <= a < np && 0 <= b < np implies right@[a]@[b] && below@[a]@[b] by {
                    assert(pv[a] == patterns@[a]@);
                    assert(pv[b] == patterns@[b]@);
                    let ca = choose|c: int| 0 <= c < chunk_cols(w as int, n as int) * chunk_rows(h as int, n as int) && #[trigger] pv[a] == pattern_of(t, w as int, n as int, c);
                    let cb = choose|c: int| 0 <= c < chunk_cols(w as int, n as int) * chunk_rows(h as int, n as int) && #[trigger] pv[b] == pattern_of(t, w as int, n as int, c);
                    assert(fits_right(pattern_of(t, w as int, n as int, ca), pattern_of(t, w as int, n as int, cb), n as int));
                }
                assert(all_fit(right@, below@, np as int));
            }
        }
        let assign = match solve(&right, &below, np, cw, ch, rng) {
            None => {
                return false;
            },
            Some(a) => a,
        };
        let ghost av = assign@.map_values(|a: usize| a as int);
        proof {
            assert(assignment_ok(av, (cw * ch) as int, np as int));
            let pv = pattern_views(patterns@);
            let total = (cw * ch) as int;
            assert forall|c: int| #[trigger] hpair(cw as int, total, c) implies fits_right(pv[av[c]], pv[av[c + 1]], n as int) by {
                assert(right@[assign@[c] as int]@[assign@[c + 1] as int]);
            }
            assert forall|c: int| #[trigger] vpair(cw as int, total, c) implies fits_below(pv[av[c]], pv[av[c + cw]], n as int) by {
                assert(below@[assign@[c] as int]@[assign@[c + cw] as int]);
            }
            assert(chunks_fit(pv, av, cw as int, total, n as int));
        }
        let ghost b0 = *build_data;
        apply_patterns(build_data, &patterns, &assign, n);
        let ghost tiles_after = build_data.map.tiles@;
        build_data.spawn_list = Vec::new();
        build_data.rooms = None;
        build_data.corridors = None;
        build_data.take_snapshot();
        proof {
            assert(build_data.map.tiles@ == tiles_after);
            assert(sampled_from(b0.map.tiles@, w as int, h as int, n as int, pattern_views(patterns@)));
        }
        true
    }
}

} // verus!
