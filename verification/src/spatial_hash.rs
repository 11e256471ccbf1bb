use vstd::prelude::*;
use vstd::arithmetic::div_mod::{
    lemma_fundamental_div_mod,
    lemma_fundamental_div_mod_converse,
    lemma_mod_multiples_vanish,
};

verus! {

/// The remainder that Rust's `%` computes on signed integers: it takes the
/// sign of the dividend and the magnitude `|a| mod |b|`.
pub open spec fn rem_trunc(a: int, b: int) -> int {
    if a >= 0 {
        a % b
    } else {
        -((-a) % b)
    }
}

/// `(v % n + n) % n` evaluated on `i32` without panicking: `n` is not zero,
/// neither remainder overflows and the sum fits in an `i32`.
pub open spec fn wrap_ok(v: int, n: int) -> bool {
    &&& n != 0
    &&& !(v == i32::MIN && n == -1)
    &&& i32::MIN <= rem_trunc(v, n) + n <= i32::MAX
}

/// The value of `(v % n + n) % n` with Rust's truncating remainder.
pub open spec fn wrap_spec(v: int, n: int) -> int {
    rem_trunc(rem_trunc(v, n) + n, n)
}

/// For a positive modulus the wrapping expression is the mathematical
/// (Euclidean) residue of `v`, which lies in `0..n`.
pub proof fn lemma_wrap_is_residue(v: int, n: int)
    requires
        n > 0,
    ensures
        wrap_spec(v, n) == v % n,
        0 <= wrap_spec(v, n) < n,
{
    if v >= 0 {
        let r = v % n;
        lemma_fundamental_div_mod(v, n);
        assert(0 <= r < n);
        lemma_fundamental_div_mod_converse(r + n, n, 1, r);
    } else {
        let a = -v;
        let s = a % n;
        let q = a / n;
        lemma_fundamental_div_mod(a, n);
        assert(0 <= s < n);
        assert(a == n * q + s);
        if s == 0 {
            assert(v == (-q) * n + 0) by (nonlinear_arith)
                requires a == n * q + s, v == -a, s == 0;
            lemma_fundamental_div_mod_converse(v, n, -q, 0);
            lemma_fundamental_div_mod_converse(n, n, 1, 0);
        } else {
            assert(v == (-q - 1) * n + (n - s)) by (nonlinear_arith)
                requires a == n * q + s, v == -a;
            lemma_fundamental_div_mod_converse(v, n, -q - 1, n - s);
            lemma_fundamental_div_mod_converse(n - s, n, 0, n - s);
        }
    }
}

/// With at most `2^30` cells along an axis, wrapping any `i32` coordinate
/// never overflows.
pub proof fn lemma_wrap_ok_small_modulus(v: int, n: int)
    requires
        i32::MIN <= v <= i32::MAX,
        0 < n <= 0x4000_0000,
    ensures
        wrap_ok(v, n),
{
    if v >= 0 {
        lemma_fundamental_div_mod(v, n);
    } else {
        lemma_fundamental_div_mod(-v, n);
    }
}

/// Wrapping a coordinate that already lies in `0..n` leaves it unchanged.
pub proof fn lemma_wrap_in_range_is_identity(v: int, n: int)
    requires
        0 <= v < n,
    ensures
        wrap_spec(v, n) == v,
{
    lemma_wrap_is_residue(v, n);
    lemma_fundamental_div_mod_converse(v, n, 0, v);
}

/// Wrapping is periodic: shifting a coordinate by whole multiples of the cell
/// count does not change the cell it wraps to.
pub proof fn lemma_wrap_periodic(v: int, k: int, n: int)
    requires
        n > 0,
    ensures
        wrap_spec(v + k * n, n) == wrap_spec(v, n),
{
    lemma_wrap_is_residue(v, n);
    lemma_wrap_is_residue(v + k * n, n);
    assert(v + k * n == n * k + v) by (nonlinear_arith);
    lemma_mod_multiples_vanish(k, v, n);
}

/// Wrapping is idempotent.
pub proof fn lemma_wrap_idempotent(v: int, n: int)
    requires
        n > 0,
    ensures
        wrap_spec(wrap_spec(v, n), n) == wrap_spec(v, n),
{
    lemma_wrap_is_residue(v, n);
    lemma_wrap_in_range_is_identity(wrap_spec(v, n), n);
}


/// The number of cells that a radius of `r` cells spans along one axis,
/// `2r + 1`; a negative radius spans nothing.
pub open spec fn window_len(r: int) -> int {
    if r >= 0 {
        2 * r + 1
    } else {
        0
    }
}

/// The elements of `s` whose decision in `keep` (by position) is `true`, in
/// their order in `s`.
pub open spec fn select<A>(s: Seq<A>, keep: Seq<bool>) -> Seq<A>
    decreases s.len(),
{
    if s.len() == 0 {
        Seq::empty()
    } else {
        let rest = select(s.drop_last(), keep);
        if keep[s.len() - 1] {
            rest.push(s.last())
        } else {
            rest
        }
    }
}

/// `select` reads only the decisions of the positions that `s` has.
pub proof fn lemma_select_reads_prefix<A>(s: Seq<A>, a: Seq<bool>, b: Seq<bool>)
    requires
        a.len() >= s.len(),
        b.len() >= s.len(),
        forall|i: int| 0 <= i < s.len() ==> a[i] == b[i],
    ensures
        select(s, a) == select(s, b),
    decreases s.len(),
{
    if s.len() > 0 {
        lemma_select_reads_prefix(s.drop_last(), a, b);
    }
}

/// Two coordinates less than `n` apart wrap to different cells.
pub proof fn lemma_wraps_of_close_values_differ(base: int, a: int, b: int, n: int)
    requires
        0 <= a < n,
        0 <= b < n,
        a != b,
    ensures
        wrap_spec(base + a, n) != wrap_spec(base + b, n),
{
    lemma_wrap_is_residue(base + a, n);
    lemma_wrap_is_residue(base + b, n);
    lemma_fundamental_div_mod(base + a, n);
    lemma_fundamental_div_mod(base + b, n);
    let qa = (base + a) / n;
    let qb = (base + b) / n;
    if (base + a) % n == (base + b) % n {
        assert(a - b == n * (qa - qb)) by (nonlinear_arith)
            requires
                base + a == n * qa + (base + a) % n,
                base + b == n * qb + (base + b) % n,
                (base + a) % n == (base + b) % n;
        assert(false) by (nonlinear_arith)
            requires a - b == n * (qa - qb), 0 <= a < n, 0 <= b < n, a != b;
    }
}

/// A grid of buckets over a rectangular world that wraps around at its edges.
///
/// Cell `(x, y)` is stored at index `y * columns + x`. Positions in the world,
/// and the floating-point geometry that turns them into grid coordinates, are
/// kept by the caller: each bucket holds whatever the caller stores with an
/// item, typically the item's world position beside the item itself.
pub struct SpatialHashGrid<T> {
    pub cells: Vec<Vec<T>>,
    /// Number of columns and rows.
    pub cell_count: (usize, usize),
}

impl<T> View for SpatialHashGrid<T> {
    type V = Seq<Seq<T>>;

    /// The contents of every bucket, in index order.
    open spec fn view(&self) -> Seq<Seq<T>> {
        self.cells@.map_values(|c: Vec<T>| c@)
    }
}

impl<T> SpatialHashGrid<T> {
    /// One bucket per cell.
    pub open spec fn wf(&self) -> bool {
        self.cells@.len() == self.cell_count.0 * self.cell_count.1
    }

    /// The column count as the grid arithmetic sees it: converted to `i32`
    /// (truncating, as `as i32` does).
    pub open spec fn cols(&self) -> int {
        (self.cell_count.0 as i32) as int
    }

    /// The row count as the grid arithmetic sees it.
    pub open spec fn rows(&self) -> int {
        (self.cell_count.1 as i32) as int
    }

    /// `y * columns + x`, computed without bounds.
    pub open spec fn index_value(&self, p: (i32, i32)) -> int {
        p.1 * self.cols() + p.0
    }

    /// Computing the index of `p` in `i32` arithmetic does not overflow.
    pub open spec fn index_ok(&self, p: (i32, i32)) -> bool {
        &&& i32::MIN <= p.1 * self.cols() <= i32::MAX
        &&& i32::MIN <= self.index_value(p) <= i32::MAX
    }

    /// The bucket index of `p`: `y * columns + x` converted to `usize`.
    pub open spec fn index_of(&self, p: (i32, i32)) -> usize {
        self.index_value(p) as usize
    }

    /// Enumerating the query window around `center` runs without overflow or
    /// panic: the bounds of the column range fit in `i32`, those of the row
    /// range too once a column is visited, and every coordinate that is
    /// wrapped wraps without overflow.
    pub open spec fn query_cells_ok(&self, center: (i32, i32), radius: (i32, i32)) -> bool {
        let w = window_len(radius.0 as int);
        let h = window_len(radius.1 as int);
        &&& i32::MIN <= center.0 - radius.0 <= i32::MAX
        &&& i32::MIN <= center.0 + radius.0 <= i32::MAX
        &&& w > 0 ==> i32::MIN <= center.1 - radius.1 <= i32::MAX
        &&& w > 0 ==> i32::MIN <= center.1 + radius.1 <= i32::MAX
        &&& w > 0 && h > 0 ==> forall|i: int|
            0 <= i < w ==> #[trigger] wrap_ok(center.0 - radius.0 + i, self.cols())
        &&& w > 0 && h > 0 ==> forall|j: int|
            0 <= j < h ==> #[trigger] wrap_ok(center.1 - radius.1 + j, self.rows())
    }

    /// The cells of the query window around `center`, wrapped onto the torus:
    /// column offsets `-radius.0 ..= radius.0` in the outer order, row offsets
    /// `-radius.1 ..= radius.1` in the inner order.
    pub open spec fn query_cells_spec(&self, center: (i32, i32), radius: (i32, i32)) -> Seq<(i32, i32)> {
        let w = window_len(radius.0 as int);
        let h = window_len(radius.1 as int);
        Seq::new(
            (w * h) as nat,
            |k: int|
                (
                    wrap_spec(center.0 - radius.0 + k / h, self.cols()) as i32,
                    wrap_spec(center.1 - radius.1 + k % h, self.rows()) as i32,
                ),
        )
    }

    /// The buckets of the query window's cells, in window order.
    pub open spec fn window_buckets(&self, center: (i32, i32), radius: (i32, i32)) -> Seq<Seq<T>> {
        self.query_cells_spec(center, radius).map_values(|p: (i32, i32)| self@[self.index_of(p) as int])
    }

    /// Everything stored in the query window: the window's buckets one after
    /// the other.
    pub open spec fn candidates(&self, center: (i32, i32), radius: (i32, i32)) -> Seq<T> {
        self.window_buckets(center, radius).flatten()
    }

    /// A query around `center` runs without overflow or panic: the window can
    /// be enumerated, and the index of every window cell is computed without
    /// overflow and names a bucket.
    pub open spec fn query_ok(&self, center: (i32, i32), radius: (i32, i32)) -> bool {
        &&& self.query_cells_ok(center, radius)
        &&& forall|k: int|
            0 <= k < self.query_cells_spec(center, radius).len() ==> {
                let p = #[trigger] self.query_cells_spec(center, radius)[k];
                &&& self.index_ok(p)
                &&& self.index_of(p) < self.cells@.len()
            }
    }

    /// A grid with `cell_count.0 * cell_count.1` empty buckets.
    pub fn new(cell_count: (usize, usize)) -> (grid: Self)
        requires
            cell_count.0 * cell_count.1 <= usize::MAX,
        ensures
            grid.wf(),
            grid.cell_count == cell_count,
            forall|i: int| 0 <= i < grid@.len() ==> grid@[i] == Seq::<T>::empty(),
    {
        let (x, y) = cell_count;
        let n = x * y;
        let mut cells: Vec<Vec<T>> = Vec::with_capacity(n);
        let mut i: usize = 0;
        while i < n
            invariant
                i <= n,
                cells@.len() == i,
                forall|j: int| 0 <= j < i ==> cells@[j]@ == Seq::<T>::empty(),
            decreases n - i,
        {
            cells.push(Vec::new());
            i = i + 1;
        }
        SpatialHashGrid { cells, cell_count }
    }

    /// Empties every bucket; the grid keeps its shape.
    pub fn clear(&mut self)
        ensures
            final(self).cell_count == old(self).cell_count,
            final(self)@.len() == old(self)@.len(),
            forall|i: int| 0 <= i < final(self)@.len() ==> final(self)@[i] == Seq::<T>::empty(),
    {
        let n = self.cells.len();
        let mut i: usize = 0;
        while i < n
            invariant
                i <= n,
                n == self.cells@.len(),
                self.cell_count == old(self).cell_count,
                old(self).cells@.len() == n,
                forall|j: int| 0 <= j < i ==> self.cells@[j]@ == Seq::<T>::empty(),
            decreases n - i,
        {
            self.cells[i].clear();
            i = i + 1;
        }
    }

    /// The bucket index of grid coordinates `(x, y)`: `y * columns + x`,
    /// computed in `i32` and converted to `usize`. Coordinates outside the
    /// grid are not rejected; a negative value converts as `as usize` does.
    pub fn grid_to_index(&self, p: (i32, i32)) -> (index: usize)
        requires
            self.index_ok(p),
        ensures
            index == self.index_of(p),
            self.index_value(p) >= 0 ==> index == self.index_value(p),
    {
        let (x, y) = p;
        (y * (self.cell_count.0 as i32) + x) as usize
    }

    /// Wraps grid coordinates onto the torus: `((x % cols + cols) % cols,
    /// (y % rows + rows) % rows)`.
    pub fn wrap_coordinates(&self, p: (i32, i32)) -> (w: (i32, i32))
        requires
            wrap_ok(p.0 as int, self.cols()),
            wrap_ok(p.1 as int, self.rows()),
        ensures
            w.0 == wrap_spec(p.0 as int, self.cols()),
            w.1 == wrap_spec(p.1 as int, self.rows()),
            self.cols() > 0 ==> 0 <= w.0 < self.cols() && w.0 == (p.0 as int) % self.cols(),
            self.rows() > 0 ==> 0 <= w.1 < self.rows() && w.1 == (p.1 as int) % self.rows(),
    {
        proof {
            if self.cols() > 0 {
                lemma_wrap_is_residue(p.0 as int, self.cols());
            }
            if self.rows() > 0 {
                lemma_wrap_is_residue(p.1 as int, self.rows());
            }
        }
        let (x, y) = p;
        let cols = self.cell_count.0 as i32;
        let rows = self.cell_count.1 as i32;
        ((x % cols + cols) % cols, (y % rows + rows) % rows)
    }

    /// The wrapped cells within `radius` cells of `center`, column by column.
    pub fn get_query_cells(&self, center: (i32, i32), radius: (i32, i32)) -> (cells: Vec<(i32, i32)>)
        requires
            self.query_cells_ok(center, radius),
        ensures
            cells@ == self.query_cells_spec(center, radius),
    {
        let ghost w = window_len(radius.0 as int);
        let ghost h = window_len(radius.1 as int);
        let (grid_x, grid_y) = center;
        let (x_radius, y_radius) = radius;
        let x_lo = grid_x - x_radius;
        let x_hi = grid_x + x_radius;
        let mut out: Vec<(i32, i32)> = Vec::new();
        let mut x: i64 = x_lo as i64;
        while x <= x_hi as i64
            invariant
                w == window_len(radius.0 as int),
                h == window_len(radius.1 as int),
                self.query_cells_ok(center, radius),
                x_lo == center.0 - radius.0,
                x_hi == center.0 + radius.0,
                grid_y == center.1,
                y_radius == radius.1,
                x_lo <= x <= x_lo + w,
                out@.len() == (x - x_lo) * h,
                forall|k: int|
                    0 <= k < out@.len() ==> #[trigger] out@[k] == self.query_cells_spec(center, radius)[k],
            decreases x_hi + 1 - x,
        {
            let ghost i = x - x_lo;
            assert(0 <= i < w);
            let y_lo = grid_y - y_radius;
            let y_hi = grid_y + y_radius;
            let mut y: i64 = y_lo as i64;
            while y <= y_hi as i64
                invariant
                    w == window_len(radius.0 as int),
                    h == window_len(radius.1 as int),
                    self.query_cells_ok(center, radius),
                    x_lo == center.0 - radius.0,
                    i == x - x_lo,
                    0 <= i < w,
                    y_lo == center.1 - radius.1,
                    y_hi == center.1 + radius.1,
                    y_lo <= y <= y_lo + h,
                    out@.len() == i * h + (y - y_lo),
                    forall|k: int|
                        0 <= k < out@.len() ==> #[trigger] out@[k] == self.query_cells_spec(center, radius)[k],
                decreases y_hi + 1 - y,
            {
                let ghost j = y - y_lo;
                assert(wrap_ok(center.0 - radius.0 + i, self.cols()));
                assert(wrap_ok(center.1 - radius.1 + j, self.rows()));
                let c = self.wrap_coordinates((x as i32, y as i32));
                proof {
                    let k = i * h + j;
                    lemma_fundamental_div_mod_converse(k, h, i, j);
                    assert(i * h + j < w * h) by (nonlinear_arith)
                        requires 0 <= i < w, 0 <= j < h;
                }
                out.push(c);
                y = y + 1;
            }
            proof {
                assert(i * h + h == (i + 1) * h) by (nonlinear_arith);
            }
            x = x + 1;
        }
        proof {
            if w > 0 {
                assert(x - x_lo == w);
            } else {
                assert(x == x_lo);
            }
        }
        assert(out@ =~= self.query_cells_spec(center, radius));
        out
    }

    /// The stored items of the query window around `center` for which `keep`
    /// answers `true`, bucket by bucket in window order and in insertion order
    /// within a bucket. Each item is kept or dropped by an answer that `keep`
    /// can give about it.
    pub fn query<F: Fn(&T) -> bool>(&self, center: (i32, i32), radius: (i32, i32), keep: F) -> (found: Vec<&T>)
        requires
            self.query_ok(center, radius),
            forall|t: &T| #[trigger] keep.requires((t,)),
        ensures
            exists|decisions: Seq<bool>|
                #![trigger select(self.candidates(center, radius), decisions)]
                {
                    &&& decisions.len() == self.candidates(center, radius).len()
                    &&& forall|k: int|
                        0 <= k < decisions.len() ==> keep.ensures(
                            (&self.candidates(center, radius)[k],),
                            #[trigger] decisions[k],
                        )
                    &&& found@.map_values(|r: &T| *r) == select(self.candidates(center, radius), decisions)
                },
    {
        let cells = self.get_query_cells(center, radius);
        let ghost buckets = self.window_buckets(center, radius);
        let mut found: Vec<&T> = Vec::new();
        let ghost mut decisions: Seq<bool> = Seq::empty();
        let mut k: usize = 0;
        while k < cells.len()
            invariant
                cells@ == self.query_cells_spec(center, radius),
                buckets == self.window_buckets(center, radius),
                self.query_ok(center, radius),
                forall|t: &T| #[trigger] keep.requires((t,)),
                k <= cells@.len(),
                decisions.len() == buckets.take(k as int).flatten().len(),
                forall|m: int|
                    0 <= m < decisions.len() ==> keep.ensures(
                        (&buckets.take(k as int).flatten()[m],),
                        #[trigger] decisions[m],
                    ),
                found@.map_values(|r: &T| *r) == select(buckets.take(k as int).flatten(), decisions),
            decreases cells@.len() - k,
        {
            let ghost before = buckets.take(k as int).flatten();
            let p = cells[k];
            assert(p == self.query_cells_spec(center, radius)[k as int]);
            let index = self.grid_to_index(p);
            let bucket = &self.cells[index];
            assert(bucket@ == buckets[k as int]);
            let mut j: usize = 0;
            while j < bucket.len()
                invariant
                    forall|t: &T| #[trigger] keep.requires((t,)),
                    j <= bucket@.len(),
                    decisions.len() == before.len() + j,
                    forall|m: int|
                        0 <= m < decisions.len() ==> keep.ensures(
                            (&(before + bucket@.take(j as int))[m],),
                            #[trigger] decisions[m],
                        ),
                    found@.map_values(|r: &T| *r) == select(before + bucket@.take(j as int), decisions),
                decreases bucket@.len() - j,
            {
                let item = &bucket[j];
                let b = keep(item);
                let ghost old_found = found@.map_values(|r: &T| *r);
                let ghost old_decisions = decisions;
                let ghost seen = before + bucket@.take(j as int);
                let ghost next = before + bucket@.take(j + 1);
                if b {
                    found.push(item);
                }
                proof {
                    decisions = decisions.push(b);
                    assert(next.drop_last() =~= seen);
                    assert(next.last() == *item);
                    lemma_select_reads_prefix(seen, old_decisions, decisions);
                    if b {
                        assert(found@.map_values(|r: &T| *r) =~= old_found.push(*item));
                    }
                    assert forall|m: int| 0 <= m < decisions.len() implies keep.ensures(
                        (&next[m],),
                        #[trigger] decisions[m],
                    ) by {
                        if m < old_decisions.len() {
                            assert(next[m] == seen[m]);
                        }
                    }
                }
                j = j + 1;
            }
            proof {
                assert(bucket@.take(bucket@.len() as int) =~= bucket@);
                assert(buckets.take(k + 1) =~= buckets.take(k as int).push(buckets[k as int]));
                buckets.take(k as int).lemma_flatten_push(buckets[k as int]);
            }
            k = k + 1;
        }
        proof {
            assert(buckets.take(cells@.len() as int) =~= buckets);
            assert(buckets.flatten() == self.candidates(center, radius));
            assert(found@.map_values(|r: &T| *r) == select(self.candidates(center, radius), decisions));
        }
        found
    }

    /// Stores `item` in the bucket of grid coordinates `grid_pos`. When the
    /// computed index falls outside the grid nothing is stored.
    pub fn insert(&mut self, grid_pos: (i32, i32), item: T)
        requires
            old(self).index_ok(grid_pos),
        ensures
            final(self).cell_count == old(self).cell_count,
            ({
                let i = old(self).index_of(grid_pos) as int;
                if i < old(self)@.len() {
                    final(self)@ == old(self)@.update(i, old(self)@[i].push(item))
                } else {
                    final(self)@ == old(self)@
                }
            }),
    {
        let index = self.grid_to_index(grid_pos);
        if index < self.cells.len() {
            self.cells[index].push(item);
            proof {
                assert(self@ =~= old(self)@.update(index as int, old(self)@[index as int].push(item)));
            }
        }
    }
}

} // verus!

verus! {

/// An element of one of the sequences is an element of their concatenation.
pub proof fn lemma_flatten_contains<A>(s: Seq<Seq<A>>, k: int, x: A)
    requires
        0 <= k < s.len(),
        s[k].contains(x),
    ensures
        s.flatten().contains(x),
    decreases s.len(),
{
    let i = choose|i: int| 0 <= i < s[k].len() && s[k][i] == x;
    if k == 0 {
        assert(s.flatten() == s[0] + s.drop_first().flatten());
        assert((s[0] + s.drop_first().flatten())[i] == x);
    } else {
        lemma_flatten_contains(s.drop_first(), k - 1, x);
        let f = s.drop_first().flatten();
        let j = choose|j: int| 0 <= j < f.len() && f[j] == x;
        assert(s.flatten() == s[0] + f);
        assert((s[0] + f)[s[0].len() + j] == x);
    }
}

/// An element of the concatenation is an element of one of the sequences;
/// the result is the position of such a sequence.
pub proof fn lemma_flatten_member<A>(s: Seq<Seq<A>>, x: A) -> (k: int)
    requires
        s.flatten().contains(x),
    ensures
        0 <= k < s.len(),
        s[k].contains(x),
    decreases s.len(),
{
    if s.len() == 0 {
        assert(s.flatten().len() == 0);
        0
    } else {
        let f = s.drop_first().flatten();
        assert(s.flatten() == s[0] + f);
        let i = choose|i: int| 0 <= i < s.flatten().len() && s.flatten()[i] == x;
        if i < s[0].len() {
            assert(s[0][i] == x);
            0
        } else {
            assert(f[i - s[0].len()] == x);
            let k = lemma_flatten_member(s.drop_first(), x);
            k + 1
        }
    }
}

/// The total number of items in the buckets at positions `idx` of
/// `buckets`, counted with repetition.
pub open spec fn bucket_sizes<A>(buckets: Seq<Seq<A>>, idx: Seq<int>) -> int
    decreases idx.len(),
{
    if idx.len() == 0 {
        0
    } else {
        bucket_sizes(buckets, idx.drop_last()) + buckets[idx.last()].len()
    }
}

/// Concatenating the buckets at positions `idx` gives as many items as they
/// hold together.
proof fn lemma_flatten_len_is_bucket_sizes<A>(buckets: Seq<Seq<A>>, idx: Seq<int>, picked: Seq<Seq<A>>)
    requires
        picked.len() == idx.len(),
        forall|k: int| 0 <= k < idx.len() ==> #[trigger] picked[k] == buckets[idx[k]],
    ensures
        picked.flatten().len() == bucket_sizes(buckets, idx),
    decreases idx.len(),
{
    if idx.len() > 0 {
        lemma_flatten_len_is_bucket_sizes(buckets, idx.drop_last(), picked.drop_last());
        assert(picked.drop_last().push(picked.last()) =~= picked);
        picked.drop_last().lemma_flatten_push(picked.last());
    }
}

/// Concatenating empty sequences gives the empty sequence.
pub proof fn lemma_flatten_all_empty<A>(s: Seq<Seq<A>>)
    requires
        forall|k: int| 0 <= k < s.len() ==> #[trigger] s[k].len() == 0,
    ensures
        s.flatten().len() == 0,
    decreases s.len(),
{
    if s.len() > 0 {
        assert(s[0].len() == 0);
        lemma_flatten_all_empty(s.drop_first());
    }
}

/// When every decision is `true`, `select` keeps the whole sequence.
pub proof fn lemma_select_all<A>(s: Seq<A>, keep: Seq<bool>)
    requires
        keep.len() >= s.len(),
        forall|i: int| 0 <= i < s.len() ==> #[trigger] keep[i],
    ensures
        select(s, keep) == s,
    decreases s.len(),
{
    if s.len() > 0 {
        lemma_select_all(s.drop_last(), keep);
        assert(s.drop_last().push(s.last()) =~= s);
    }
}

/// When every decision is `false`, `select` keeps nothing.
pub proof fn lemma_select_none<A>(s: Seq<A>, keep: Seq<bool>)
    requires
        keep.len() >= s.len(),
        forall|i: int| 0 <= i < s.len() ==> !#[trigger] keep[i],
    ensures
        select(s, keep) == Seq::<A>::empty(),
    decreases s.len(),
{
    if s.len() > 0 {
        lemma_select_none(s.drop_last(), keep);
    }
}

/// An element whose decision is `true` is kept.
pub proof fn lemma_select_contains<A>(s: Seq<A>, keep: Seq<bool>, k: int)
    requires
        0 <= k < s.len(),
        keep[k],
    ensures
        select(s, keep).contains(s[k]),
    decreases s.len(),
{
    if k == s.len() - 1 {
        assert(select(s, keep) == select(s.drop_last(), keep).push(s[k]));
        assert(select(s, keep)[select(s.drop_last(), keep).len() as int] == s[k]);
    } else {
        lemma_select_contains(s.drop_last(), keep, k);
        let rest = select(s.drop_last(), keep);
        let i = choose|i: int| 0 <= i < rest.len() && rest[i] == s[k];
        if keep[s.len() - 1] {
            assert(select(s, keep)[i] == s[k]);
        }
    }
}

/// A kept element sits at a position of `s` whose decision is `true`; the
/// result is such a position.
pub proof fn lemma_select_member<A>(s: Seq<A>, keep: Seq<bool>, x: A) -> (k: int)
    requires
        select(s, keep).contains(x),
    ensures
        0 <= k < s.len(),
        s[k] == x,
        keep[k],
    decreases s.len(),
{
    let rest = select(s.drop_last(), keep);
    let i = choose|i: int| 0 <= i < select(s, keep).len() && select(s, keep)[i] == x;
    if s.len() > 0 && keep[s.len() - 1] && i == rest.len() {
        s.len() - 1
    } else {
        assert(rest[i] == x);
        lemma_select_member(s.drop_last(), keep, x)
    }
}

/// `select` keeps only elements of `s`, at most all of them.
pub proof fn lemma_select_subset<A>(s: Seq<A>, keep: Seq<bool>)
    ensures
        select(s, keep).len() <= s.len(),
        forall|x: A| select(s, keep).contains(x) ==> s.contains(x),
    decreases s.len(),
{
    if s.len() > 0 {
        let rest = select(s.drop_last(), keep);
        lemma_select_subset(s.drop_last(), keep);
        assert forall|x: A| select(s, keep).contains(x) implies s.contains(x) by {
            let i = choose|i: int| 0 <= i < select(s, keep).len() && select(s, keep)[i] == x;
            if i < rest.len() {
                assert(rest[i] == x);
                assert(select(s.drop_last(), keep).contains(x));
                assert(s.drop_last().contains(x));
                let j = choose|j: int| 0 <= j < s.drop_last().len() && s.drop_last()[j] == x;
                assert(s[j] == x);
            } else {
                assert(s[s.len() - 1] == x);
            }
        }
    }
}

impl<T> SpatialHashGrid<T> {
    /// Cell `(x, y)` of the grid maps to a bucket index in `0..columns * rows`,
    /// and distinct cells map to distinct buckets.
    pub proof fn lemma_index_is_bijective(&self, p: (i32, i32), q: (i32, i32))
        requires
            self.cols() == self.cell_count.0,
            0 <= p.0 < self.cell_count.0,
            0 <= p.1 < self.cell_count.1,
            0 <= q.0 < self.cell_count.0,
            0 <= q.1 < self.cell_count.1,
        ensures
            0 <= self.index_value(p) < self.cell_count.0 * self.cell_count.1,
            self.index_value(p) == self.index_value(q) ==> p == q,
    {
        let c = self.cell_count.0 as int;
        let r = self.cell_count.1 as int;
        assert(0 <= p.1 * c + p.0 < c * r) by (nonlinear_arith)
            requires 0 <= p.0 < c, 0 <= p.1 < r;
        if self.index_value(p) == self.index_value(q) {
            lemma_fundamental_div_mod_converse(p.1 * c + p.0, c, p.1 as int, p.0 as int);
            lemma_fundamental_div_mod_converse(q.1 * c + q.0, c, q.1 as int, q.0 as int);
        }
    }

    /// Every bucket index below `columns * rows` is the index of a cell of the
    /// grid: that of column `k % columns`, row `k / columns`. With
    /// `lemma_index_is_bijective`, indexing is a bijection between the cells
    /// and the buckets.
    pub proof fn lemma_index_is_onto(&self, k: int)
        requires
            self.cols() == self.cell_count.0,
            self.rows() == self.cell_count.1,
            0 <= k < self.cell_count.0 * self.cell_count.1,
        ensures
            ({
                let p = ((k % (self.cell_count.0 as int)) as i32, (k / (self.cell_count.0 as int)) as i32);
                &&& 0 <= p.0 < self.cell_count.0
                &&& 0 <= p.1 < self.cell_count.1
                &&& self.index_value(p) == k
            }),
    {
        let c = self.cell_count.0 as int;
        let r = self.cell_count.1 as int;
        assert(c > 0) by (nonlinear_arith)
            requires 0 <= k < c * r, c >= 0, r >= 0;
        lemma_fundamental_div_mod(k, c);
        let q = k / c;
        let m = k % c;
        assert(0 <= q < r) by (nonlinear_arith)
            requires k == c * q + m, 0 <= m < c, 0 <= k < c * r, c > 0;
        assert(q * c + m == k) by (nonlinear_arith)
            requires k == c * q + m;
    }

    /// Growing the radius only adds cells: every cell of the window of radius
    /// `r1` is a cell of the window of radius `r2` when `r1 <= r2` on both
    /// axes.
    pub proof fn lemma_query_window_grows(&self, center: (i32, i32), r1: (i32, i32), r2: (i32, i32), k: int)
        requires
            0 <= r1.0 <= r2.0,
            0 <= r1.1 <= r2.1,
            0 <= k < self.query_cells_spec(center, r1).len(),
        ensures
            self.query_cells_spec(center, r2).contains(self.query_cells_spec(center, r1)[k]),
    {
        let w1 = window_len(r1.0 as int);
        let h1 = window_len(r1.1 as int);
        assert(h1 > 0);
        lemma_fundamental_div_mod(k, h1);
        let i = k / h1;
        let j = k % h1;
        assert(0 <= i < w1) by (nonlinear_arith)
            requires k == h1 * i + j, 0 <= j < h1, 0 <= k < w1 * h1, h1 > 0;
        assert(k == i * h1 + j) by (nonlinear_arith)
            requires k == h1 * i + j;
        self.lemma_query_cells_at(center, r1, i, j);
        let i2 = i + (r2.0 - r1.0);
        let j2 = j + (r2.1 - r1.1);
        self.lemma_query_cells_at(center, r2, i2, j2);
        let h2 = window_len(r2.1 as int);
        assert(self.query_cells_spec(center, r2)[i2 * h2 + j2] == self.query_cells_spec(center, r1)[k]);
    }

    /// Growing the radius only adds items: every item a query of radius `r1`
    /// considers is considered by the query of radius `r2` when `r1 <= r2`
    /// on both axes.
    pub proof fn lemma_candidates_grow(&self, center: (i32, i32), r1: (i32, i32), r2: (i32, i32), x: T)
        requires
            0 <= r1.0 <= r2.0,
            0 <= r1.1 <= r2.1,
            self.candidates(center, r1).contains(x),
        ensures
            self.candidates(center, r2).contains(x),
    {
        let b1 = self.window_buckets(center, r1);
        let b2 = self.window_buckets(center, r2);
        let k = lemma_flatten_member(b1, x);
        self.lemma_query_window_grows(center, r1, r2, k);
        let cells2 = self.query_cells_spec(center, r2);
        let p = self.query_cells_spec(center, r1)[k];
        let k2 = choose|k2: int| 0 <= k2 < cells2.len() && cells2[k2] == p;
        assert(b2[k2] == b1[k]);
        lemma_flatten_contains(b2, k2, x);
    }

    /// Offset `(i, j)` of the query window, counted from its lowest column and
    /// row, is entry `i * h + j` of the window's cell list, where `h` is the
    /// window's height.
    pub proof fn lemma_query_cells_at(&self, center: (i32, i32), radius: (i32, i32), i: int, j: int)
        requires
            0 <= i < window_len(radius.0 as int),
            0 <= j < window_len(radius.1 as int),
        ensures
            ({
                let h = window_len(radius.1 as int);
                let cells = self.query_cells_spec(center, radius);
                &&& 0 <= i * h + j < cells.len()
                &&& cells[i * h + j] == (
                    wrap_spec(center.0 - radius.0 + i, self.cols()) as i32,
                    wrap_spec(center.1 - radius.1 + j, self.rows()) as i32,
                )
            }),
    {
        let w = window_len(radius.0 as int);
        let h = window_len(radius.1 as int);
        assert(0 <= i * h + j < w * h) by (nonlinear_arith)
            requires 0 <= i < w, 0 <= j < h;
        lemma_fundamental_div_mod_converse(i * h + j, h, i, j);
    }

    /// A query considers every item stored in the bucket of every cell of its
    /// window, old and new alike: for window entry `k`, naming cell `p`, and
    /// any position `m` of the bucket of `p`, the bucket's `m`-th item is a
    /// candidate.
    pub proof fn lemma_every_window_item_is_a_candidate(&self, center: (i32, i32), radius: (i32, i32), k: int, m: int)
        requires
            0 <= k < self.query_cells_spec(center, radius).len(),
            0 <= m < self@[self.index_of(self.query_cells_spec(center, radius)[k]) as int].len(),
        ensures
            self.candidates(center, radius).contains(
                self@[self.index_of(self.query_cells_spec(center, radius)[k]) as int][m],
            ),
    {
        let buckets = self.window_buckets(center, radius);
        let b = self@[self.index_of(self.query_cells_spec(center, radius)[k]) as int];
        assert(buckets[k] == b);
        assert(buckets[k].contains(b[m]));
        lemma_flatten_contains(buckets, k, b[m]);
    }

    /// A query considers exactly as many items as the buckets of its window
    /// cells hold together.
    pub proof fn lemma_candidate_count(&self, center: (i32, i32), radius: (i32, i32))
        ensures
            self.candidates(center, radius).len() == bucket_sizes(
                self@,
                self.query_cells_spec(center, radius).map_values(|p: (i32, i32)| self.index_of(p) as int),
            ),
    {
        let cells = self.query_cells_spec(center, radius);
        let idx = cells.map_values(|p: (i32, i32)| self.index_of(p) as int);
        lemma_flatten_len_is_bucket_sizes(self@, idx, self.window_buckets(center, radius));
    }

    /// Growing the radius only adds results: when `keep` answers about an
    /// item by a fixed rule `answer` (so that `d1` and `d2`, the decisions of
    /// a query of radius `r1` and of one of radius `r2`, are `answer` of the
    /// items decided), every item the smaller query returns is returned by
    /// the larger one, for `r1 <= r2` on both axes.
    pub proof fn lemma_query_results_grow(
        &self,
        center: (i32, i32),
        r1: (i32, i32),
        r2: (i32, i32),
        answer: spec_fn(T) -> bool,
        d1: Seq<bool>,
        d2: Seq<bool>,
        x: T,
    )
        requires
            0 <= r1.0 <= r2.0,
            0 <= r1.1 <= r2.1,
            d1.len() == self.candidates(center, r1).len(),
            d2.len() == self.candidates(center, r2).len(),
            forall|k: int| 0 <= k < d1.len() ==> d1[k] == answer(self.candidates(center, r1)[k]),
            forall|k: int| 0 <= k < d2.len() ==> d2[k] == answer(self.candidates(center, r2)[k]),
            select(self.candidates(center, r1), d1).contains(x),
        ensures
            select(self.candidates(center, r2), d2).contains(x),
    {
        let c1 = self.candidates(center, r1);
        let c2 = self.candidates(center, r2);
        let k = lemma_select_member(c1, d1, x);
        assert(c1.contains(x));
        self.lemma_candidates_grow(center, r1, r2, x);
        let k2 = choose|k2: int| 0 <= k2 < c2.len() && c2[k2] == x;
        assert(d2[k2] == answer(x));
        assert(d1[k] == answer(x));
        lemma_select_contains(c2, d2, k2);
    }

    /// When the window is no wider than the grid and no taller, it names every
    /// cell at most once, so a query considers every stored item at most once.
    pub proof fn lemma_query_cells_distinct(&self, center: (i32, i32), radius: (i32, i32), k1: int, k2: int)
        requires
            window_len(radius.0 as int) <= self.cols(),
            window_len(radius.1 as int) <= self.rows(),
            0 <= k1 < k2 < self.query_cells_spec(center, radius).len(),
        ensures
            self.query_cells_spec(center, radius)[k1] != self.query_cells_spec(center, radius)[k2],
    {
        let w = window_len(radius.0 as int);
        let h = window_len(radius.1 as int);
        let cells = self.query_cells_spec(center, radius);
        assert(h > 0) by (nonlinear_arith)
            requires w * h > k2, k2 > 0, w >= 0, h >= 0;
        lemma_fundamental_div_mod(k1, h);
        lemma_fundamental_div_mod(k2, h);
        let i1 = k1 / h;
        let j1 = k1 % h;
        let i2 = k2 / h;
        let j2 = k2 % h;
        assert(0 <= i1 < w && 0 <= i2 < w) by (nonlinear_arith)
            requires k1 == h * i1 + j1, k2 == h * i2 + j2, 0 <= j1 < h, 0 <= j2 < h,
                0 <= k1, 0 <= k2, k1 < w * h, k2 < w * h;
        assert(i1 != i2 || j1 != j2);
        if i1 != i2 {
            lemma_wraps_of_close_values_differ(center.0 - radius.0, i1, i2, self.cols());
        } else {
            lemma_wraps_of_close_values_differ(center.1 - radius.1, j1, j2, self.rows());
        }
    }

    /// A query reaches every item stored in a cell of its window: after
    /// `insert` put `item` into the bucket of cell `g`, the items that a query
    /// around `center` considers include `item`, whenever `g` lies within the
    /// query radius of `center` on the torus (`g` is `center` shifted by
    /// `(dx, dy)`, `|dx| <= radius.0`, `|dy| <= radius.1`, and wrapped).
    pub proof fn lemma_query_reaches_inserted(
        before: Self,
        after: Self,
        g: (i32, i32),
        item: T,
        center: (i32, i32),
        radius: (i32, i32),
        dx: int,
        dy: int,
    )
        requires
            after.cell_count == before.cell_count,
            before.index_of(g) < before@.len(),
            after@ == before@.update(before.index_of(g) as int, before@[before.index_of(g) as int].push(item)),
            -radius.0 <= dx <= radius.0,
            -radius.1 <= dy <= radius.1,
            g.0 == wrap_spec(center.0 + dx, after.cols()),
            g.1 == wrap_spec(center.1 + dy, after.rows()),
        ensures
            after.candidates(center, radius).contains(item),
    {
        let i = dx + radius.0;
        let j = dy + radius.1;
        let h = window_len(radius.1 as int);
        after.lemma_query_cells_at(center, radius, i, j);
        let k = i * h + j;
        let cells = after.query_cells_spec(center, radius);
        assert(cells[k] == g);
        let buckets = after.window_buckets(center, radius);
        let b = before.index_of(g) as int;
        assert(buckets[k] == after@[b]);
        assert(after@[b] == before@[b].push(item));
        assert(after@[b][before@[b].len() as int] == item);
        lemma_flatten_contains(buckets, k, item);
    }

    /// After `clear`, every query considers no item at all.
    pub proof fn lemma_cleared_query_is_empty(&self, center: (i32, i32), radius: (i32, i32))
        requires
            forall|i: int| 0 <= i < self@.len() ==> #[trigger] self@[i] == Seq::<T>::empty(),
            self.query_ok(center, radius),
        ensures
            self.candidates(center, radius) == Seq::<T>::empty(),
    {
        let buckets = self.window_buckets(center, radius);
        assert forall|k: int| 0 <= k < buckets.len() implies #[trigger] buckets[k].len() == 0 by {
            let p = self.query_cells_spec(center, radius)[k];
            assert(self.index_of(p) < self.cells@.len());
            assert(self@[self.index_of(p) as int] == Seq::<T>::empty());
        }
        lemma_flatten_all_empty(buckets);
    }

    /// A grid with positive cell counts of at most `2^30` columns and rows and
    /// at most `2^31` cells can be queried in any window whose bounds fit in
    /// `i32`: every window cell wraps into the grid and its index names a
    /// bucket.
    pub proof fn lemma_query_ok_for_bounded_grid(&self, center: (i32, i32), radius: (i32, i32))
        requires
            self.wf(),
            0 < self.cell_count.0 <= 0x4000_0000,
            0 < self.cell_count.1 <= 0x4000_0000,
            self.cell_count.0 * self.cell_count.1 <= 0x8000_0000,
            i32::MIN <= center.0 - radius.0,
            center.0 + radius.0 <= i32::MAX,
            i32::MIN <= center.0 + radius.0,
            center.0 - radius.0 <= i32::MAX,
            i32::MIN <= center.1 - radius.1,
            center.1 + radius.1 <= i32::MAX,
            i32::MIN <= center.1 + radius.1,
            center.1 - radius.1 <= i32::MAX,
        ensures
            self.query_ok(center, radius),
    {
        let c = self.cell_count.0 as int;
        let r = self.cell_count.1 as int;
        assert(self.cols() == c);
        assert(self.rows() == r);
        let w = window_len(radius.0 as int);
        let h = window_len(radius.1 as int);
        assert forall|i: int| 0 <= i < w implies #[trigger] wrap_ok(center.0 - radius.0 + i, self.cols()) by {
            lemma_wrap_ok_small_modulus(center.0 - radius.0 + i, c);
        }
        assert forall|j: int| 0 <= j < h implies #[trigger] wrap_ok(center.1 - radius.1 + j, self.rows()) by {
            lemma_wrap_ok_small_modulus(center.1 - radius.1 + j, r);
        }
        let cells = self.query_cells_spec(center, radius);
        assert forall|k: int| 0 <= k < cells.len() implies {
            let p = #[trigger] cells[k];
            &&& self.index_ok(p)
            &&& self.index_of(p) < self.cells@.len()
        } by {
            let p = cells[k];
            assert(w * h > 0);
            assert(h > 0) by (nonlinear_arith) requires w * h > 0, w >= 0, h >= 0;
            lemma_wrap_is_residue(center.0 - radius.0 + k / h, c);
            lemma_wrap_is_residue(center.1 - radius.1 + k % h, r);
            assert(0 <= p.0 < c && 0 <= p.1 < r);
            assert(0 <= p.1 * c <= (r - 1) * c) by (nonlinear_arith)
                requires 0 <= p.1 < r, c > 0;
            assert((r - 1) * c + c == c * r) by (nonlinear_arith);
            self.lemma_index_is_bijective(p, p);
        }
    }
}

} // verus!
