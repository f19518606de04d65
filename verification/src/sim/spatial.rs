//! Uniform-grid neighbour index for agent-agent queries.
//!
//! A counting sort over fixed-size bins: `rebuild` refills preallocated
//! buffers. Bucket contents come out in ascending agent index, which is what
//! makes a neighbour scan reproducible rather than merely correct.
//!
//! Bin populations carry a rebuild stamp, so a rebuild never clears them; a
//! bin whose stamp is stale reads as empty. Which bin a floating-point
//! position falls in is decided by the caller: the grid is rebuilt from each
//! agent's bin coordinates.

use vstd::prelude::*;

verus! {

/// Linear index of bin `(bx, by)` in a grid `cols` bins wide.
pub open spec fn bin_index(bin: (u32, u32), cols: u32) -> int {
    bin.0 + bin.1 * cols
}

/// The agents placed in linear bin `b`, in ascending agent index.
pub open spec fn bucket(placed: Seq<(u32, u32)>, cols: u32, b: int) -> Seq<u32>
    decreases placed.len(),
{
    if placed.len() == 0 {
        Seq::empty()
    } else {
        bucket(placed.drop_last(), cols, b) + if bin_index(placed.last(), cols) == b {
            seq![(placed.len() - 1) as u32]
        } else {
            Seq::<u32>::empty()
        }
    }
}

/// How many agents were placed in a bin whose linear index is below `b`.
pub open spec fn count_below(placed: Seq<(u32, u32)>, cols: u32, b: int) -> int
    decreases placed.len(),
{
    if placed.len() == 0 {
        0
    } else {
        count_below(placed.drop_last(), cols, b) + if bin_index(placed.last(), cols) < b {
            1int
        } else {
            0
        }
    }
}

/// The buckets of linear bins `lo..=hi`, one after another.
pub open spec fn buckets_run(placed: Seq<(u32, u32)>, cols: u32, lo: int, hi: int) -> Seq<u32>
    decreases hi + 1 - lo,
{
    if hi < lo {
        Seq::empty()
    } else {
        buckets_run(placed, cols, lo, hi - 1) + bucket(placed, cols, hi)
    }
}

/// Every bin coordinate lies inside a `cols` x `rows` grid.
pub open spec fn bins_in_grid(placed: Seq<(u32, u32)>, cols: u32, rows: u32) -> bool {
    forall|i: int| 0 <= i < placed.len() ==> (#[trigger] placed[i]).0 < cols && placed[i].1 < rows
}

/// A bucket is as long as the run of agents between its two counts.
proof fn lemma_bucket_len(placed: Seq<(u32, u32)>, cols: u32, b: int)
    ensures
        bucket(placed, cols, b).len() == count_below(placed, cols, b + 1) - count_below(placed, cols, b),
    decreases placed.len(),
{
    if placed.len() > 0 {
        lemma_bucket_len(placed.drop_last(), cols, b);
    }
}

/// `count_below` grows with the bin and never exceeds the agent count.
proof fn lemma_count_below_mono(placed: Seq<(u32, u32)>, cols: u32, b1: int, b2: int)
    requires
        b1 <= b2,
    ensures
        0 <= count_below(placed, cols, b1) <= count_below(placed, cols, b2) <= placed.len(),
    decreases placed.len(),
{
    if placed.len() > 0 {
        lemma_count_below_mono(placed.drop_last(), cols, b1, b2);
    }
}

/// With every agent in a bin below `n`, `count_below(n)` counts them all.
proof fn lemma_count_below_all(placed: Seq<(u32, u32)>, cols: u32, n: int)
    requires
        forall|i: int| 0 <= i < placed.len() ==> bin_index(#[trigger] placed[i], cols) < n,
    ensures
        count_below(placed, cols, n) == placed.len(),
    decreases placed.len(),
{
    if placed.len() > 0 {
        assert forall|i: int| 0 <= i < placed.drop_last().len() implies bin_index(
            #[trigger] placed.drop_last()[i],
            cols,
        ) < n by {
            assert(placed.drop_last()[i] == placed[i]);
        }
        lemma_count_below_all(placed.drop_last(), cols, n);
    }
}

/// No agent sits in a bin below bin `0`.
proof fn lemma_count_below_zero(placed: Seq<(u32, u32)>, cols: u32)
    ensures
        count_below(placed, cols, 0) == 0,
    decreases placed.len(),
{
    if placed.len() > 0 {
        lemma_count_below_zero(placed.drop_last(), cols);
        let y = placed.last().1 as int;
        let c = cols as int;
        assert(y * c >= 0) by (nonlinear_arith)
            requires
                y >= 0,
                c >= 0,
        ;
    }
}

/// The bucket of a prefix is a prefix of the bucket.
proof fn lemma_bucket_prefix(placed: Seq<(u32, u32)>, cols: u32, b: int, j: int)
    requires
        0 <= j <= placed.len(),
    ensures
        bucket(placed.subrange(0, j), cols, b).len() <= bucket(placed, cols, b).len(),
        forall|k: int|
            0 <= k < bucket(placed.subrange(0, j), cols, b).len() ==> #[trigger] bucket(placed.subrange(0, j), cols, b)[k]
                == bucket(placed, cols, b)[k],
    decreases placed.len(),
{
    if j == placed.len() {
        assert(placed.subrange(0, j) =~= placed);
    } else {
        assert(placed.drop_last().subrange(0, j) =~= placed.subrange(0, j));
        lemma_bucket_prefix(placed.drop_last(), cols, b, j);
    }
}

/// A bucket lists exactly the agents placed in its bin, each once, in
/// strictly ascending order.
pub proof fn lemma_bucket_members(placed: Seq<(u32, u32)>, cols: u32, b: int)
    requires
        placed.len() <= u32::MAX + 1,
    ensures
        forall|k: int|
            0 <= k < bucket(placed, cols, b).len() ==> (#[trigger] bucket(placed, cols, b)[k]) < placed.len()
                && bin_index(placed[bucket(placed, cols, b)[k] as int], cols) == b,
        forall|k1: int, k2: int|
            0 <= k1 < k2 < bucket(placed, cols, b).len() ==> #[trigger] bucket(placed, cols, b)[k1] < #[trigger] bucket(
                placed,
                cols,
                b,
            )[k2],
        forall|i: int|
            0 <= i < placed.len() && bin_index(#[trigger] placed[i], cols) == b ==> bucket(placed, cols, b).contains(
                i as u32,
            ),
    decreases placed.len(),
{
    if placed.len() > 0 {
        let pre = placed.drop_last();
        lemma_bucket_members(pre, cols, b);
        let last = (placed.len() - 1) as u32;
        let bk = bucket(placed, cols, b);
        let bp = bucket(pre, cols, b);
        assert forall|k: int| 0 <= k < bk.len() implies (#[trigger] bk[k]) < placed.len() && bin_index(
            placed[bk[k] as int],
            cols,
        ) == b by {
            if k < bp.len() {
                assert(bk[k] == bp[k]);
                assert(placed[bp[k] as int] == pre[bp[k] as int]);
            }
        }
        assert forall|i: int| 0 <= i < placed.len() && bin_index(#[trigger] placed[i], cols) == b implies bk.contains(
            i as u32,
        ) by {
            if i < pre.len() {
                assert(pre[i] == placed[i]);
                let k = choose|k: int| 0 <= k < bp.len() && bp[k] == i as u32;
                assert(bk[k] == i as u32);
            } else {
                assert(bk[bk.len() - 1] == last);
            }
        }
    }
}

/// A bin inside the grid has a linear index below the bin count.
proof fn lemma_bin_in_grid(cols: u32, rows: u32, bx: u32, by: u32)
    requires
        cols >= 1,
        bx < cols,
        by < rows,
    ensures
        0 <= bin_index((bx, by), cols) < cols * rows,
{
    let c = cols as int;
    let r = rows as int;
    assert(by * c <= (r - 1) * c) by (nonlinear_arith)
        requires
            by < r,
            c >= 1,
    ;
    assert((r - 1) * c + c == r * c) by (nonlinear_arith);
}

/// The population `counts` records for bin `b` under rebuild `stamp`: a bin
/// whose stamp is stale is empty.
pub open spec fn stamped_count(counts: Seq<u32>, stamps: Seq<u32>, stamp: u32, b: int) -> int {
    if stamps[b] == stamp {
        counts[b] as int
    } else {
        0
    }
}

/// Preallocated uniform bins over the world rect.
pub struct SpatialGrid {
    cols: u32,
    rows: u32,
    /// Bin start offsets into `items`; length `cols * rows + 1`.
    starts: Vec<u32>,
    /// Write cursors during a rebuild; length `cols * rows`.
    cursor: Vec<u32>,
    /// Agent indices, bucketed; the first `len` entries are live.
    items: Vec<u32>,
    len: usize,
    /// Per-bin population for the rebuild identified by `stamp`; a bin whose
    /// `count_stamp` differs is empty and its entry here is stale.
    counts: Vec<u32>,
    /// Rebuild that last wrote `counts[b]`; length `cols * rows`.
    count_stamp: Vec<u32>,
    /// Rebuild counter. Starts at 0, so the first rebuild's stamp of 1 marks
    /// every zero-initialised `count_stamp` entry stale.
    stamp: u32,
    /// The bin of every agent placed by the last rebuild.
    placed: Ghost<Seq<(u32, u32)>>,
}

/// What a grid holds: its shape, its capacity, and the bin of every agent
/// placed by the last rebuild.
pub struct GridView {
    pub cols: u32,
    pub rows: u32,
    pub capacity: nat,
    pub placed: Seq<(u32, u32)>,
}

impl View for SpatialGrid {
    type V = GridView;

    closed spec fn view(&self) -> GridView {
        GridView { cols: self.cols, rows: self.rows, capacity: self.items@.len(), placed: self.placed@ }
    }
}

/// A grid shape the bin arithmetic fits: at least one bin, and a bin count
/// (plus the closing offset) representable in a `u32`.
pub open spec fn grid_shape_ok(cols: u32, rows: u32) -> bool {
    cols >= 1 && rows >= 1 && cols * rows < u32::MAX
}

impl SpatialGrid {
    spec fn n_bins(&self) -> int {
        self.cols * self.rows
    }

    /// Shape and buffers agree, and `starts`, `counts` and `items` hold the
    /// counting sort of the placed agents.
    pub closed spec fn wf(&self) -> bool {
        &&& grid_shape_ok(self.cols, self.rows)
        &&& self.starts@.len() == self.n_bins() + 1
        &&& self.cursor@.len() == self.n_bins()
        &&& self.counts@.len() == self.n_bins()
        &&& self.count_stamp@.len() == self.n_bins()
        &&& self.items@.len() <= u32::MAX
        &&& self.len == self.placed@.len()
        &&& self.len <= self.items@.len()
        &&& bins_in_grid(self.placed@, self.cols, self.rows)
        &&& forall|b: int| 0 <= b < self.n_bins() ==> #[trigger] self.count_stamp@[b] <= self.stamp
        &&& forall|b: int|
            0 <= b < self.n_bins() ==> #[trigger] stamped_count(self.counts@, self.count_stamp@, self.stamp, b) == bucket(self.placed@, self.cols, b).len()
        &&& forall|b: int| 0 <= b <= self.n_bins() ==> #[trigger] self.starts@[b] == count_below(self.placed@, self.cols, b)
        &&& forall|b: int, k: int|
            0 <= b < self.n_bins() && 0 <= k < bucket(self.placed@, self.cols, b).len() ==> self.items@[count_below(
                self.placed@,
                self.cols,
                b,
            ) + k] == #[trigger] bucket(self.placed@, self.cols, b)[k]
    }

    /// Reserve a grid `cols` x `rows` bins for at most `capacity` agents,
    /// with nothing placed yet.
    pub fn new(cols: u32, rows: u32, capacity: usize) -> (g: Self)
        requires
            grid_shape_ok(cols, rows),
            capacity <= u32::MAX,
        ensures
            g.wf(),
            g@.cols == cols,
            g@.rows == rows,
            g@.capacity == capacity,
            g@.placed == Seq::<(u32, u32)>::empty(),
    {
        let n_bins = cols as usize * rows as usize;
        let g = SpatialGrid {
            cols,
            rows,
            starts: zeroes(n_bins + 1),
            cursor: zeroes(n_bins),
            items: zeroes(capacity),
            len: 0,
            counts: zeroes(n_bins),
            count_stamp: zeroes(n_bins),
            stamp: 0,
            placed: Ghost(Seq::empty()),
        };
        proof {
            assert forall|b: int, k: int|
                0 <= b < g.n_bins() && 0 <= k < bucket(g.placed@, g.cols, b).len() implies g.items@[count_below(
                g.placed@,
                g.cols,
                b,
            ) + k] == #[trigger] bucket(g.placed@, g.cols, b)[k] by {
                assert(bucket(g.placed@, g.cols, b).len() == 0);
            }
        }
        g
    }

    pub fn cols(&self) -> (r: u32)
        ensures
            r == self@.cols,
    {
        self.cols
    }

    pub fn rows(&self) -> (r: u32)
        ensures
            r == self@.rows,
    {
        self.rows
    }

    /// Agents the grid can hold.
    pub fn capacity(&self) -> (r: usize)
        ensures
            r == self@.capacity,
    {
        self.items.len()
    }

    /// Items of the bins `lo..=hi` sit in one run starting at `lo`'s offset.
    proof fn lemma_items_run(&self, lo: int, hi: int)
        requires
            self.wf(),
            0 <= lo,
            hi < self.n_bins(),
        ensures
            lo <= hi + 1 ==> self.items@.subrange(
                count_below(self.placed@, self.cols, lo),
                count_below(self.placed@, self.cols, hi + 1),
            ) == buckets_run(self.placed@, self.cols, lo, hi),
        decreases hi + 1 - lo,
    {
        let p = self.placed@;
        let c = self.cols;
        if hi + 1 == lo {
            lemma_count_below_mono(p, c, lo, lo);
            assert(self.items@.subrange(count_below(p, c, lo), count_below(p, c, hi + 1)) =~= Seq::<u32>::empty());
        } else if lo <= hi {
            self.lemma_items_run(lo, hi - 1);
            lemma_bucket_len(p, c, hi);
            lemma_count_below_mono(p, c, lo, hi);
            lemma_count_below_mono(p, c, hi + 1, self.n_bins());
            let a = count_below(p, c, lo);
            let m = count_below(p, c, hi);
            let e = count_below(p, c, hi + 1);
            assert(e <= self.items@.len()) by {
                lemma_count_below_mono(p, c, hi + 1, hi + 1);
            }
            assert(self.items@.subrange(m, e) =~= bucket(p, c, hi)) by {
                assert forall|k: int| 0 <= k < e - m implies self.items@.subrange(m, e)[k] == bucket(p, c, hi)[k] by {
                    assert(self.items@[m + k] == bucket(p, c, hi)[k]);
                }
            }
            assert(self.items@.subrange(a, e) =~= self.items@.subrange(a, m) + self.items@.subrange(m, e));
        }
    }

    /// Agents in one bin, without touching the items: `0` for a bin off the
    /// grid or an empty one.
    pub fn bin_count(&self, bx: u32, by: u32) -> (r: u32)
        requires
            self.wf(),
        ensures
            r == if bx < self@.cols && by < self@.rows {
                bucket(self@.placed, self@.cols, bin_index((bx, by), self@.cols)).len()
            } else {
                0
            },
    {
        if bx >= self.cols || by >= self.rows {
            return 0;
        }
        proof {
            lemma_bin_in_grid(self.cols, self.rows, bx, by);
        }
        let b = (bx + by * self.cols) as usize;
        assert(stamped_count(self.counts@, self.count_stamp@, self.stamp, b as int) == bucket(self.placed@, self.cols, b as int).len());
        if self.count_stamp[b] == self.stamp {
            self.counts[b]
        } else {
            0
        }
    }

    /// Agent indices in one bin, ascending; empty for a bin off the grid.
    pub fn agents_in_bin(&self, bx: u32, by: u32) -> (r: &[u32])
        requires
            self.wf(),
        ensures
            r@ == if bx < self@.cols && by < self@.rows {
                bucket(self@.placed, self@.cols, bin_index((bx, by), self@.cols))
            } else {
                Seq::<u32>::empty()
            },
    {
        if bx >= self.cols || by >= self.rows {
            let r: &[u32] = &[];
            assert(r@ =~= Seq::<u32>::empty());
            return r;
        }
        proof {
            lemma_bin_in_grid(self.cols, self.rows, bx, by);
        }
        let b = (bx + by * self.cols) as usize;
        let lo = self.starts[b] as usize;
        let hi = self.starts[b + 1] as usize;
        proof {
            self.lemma_items_run(b as int, b as int);
            lemma_count_below_mono(self.placed@, self.cols, b as int, b as int + 1);
            lemma_count_below_mono(self.placed@, self.cols, b as int + 1, b as int + 1);
            assert(buckets_run(self.placed@, self.cols, b as int, b as int - 1) =~= Seq::<u32>::empty());
            assert(buckets_run(self.placed@, self.cols, b as int, b as int) =~= bucket(
                self.placed@,
                self.cols,
                b as int,
            ));
        }
        vstd::slice::slice_subrange(self.items.as_slice(), lo, hi)
    }

    /// Agents in bins `bx0..=bx1` of row `by`, as one contiguous run: exactly
    /// the agents a bin-by-bin walk would visit, in exactly that order.
    /// Empty for a row off the grid or a window starting past the last
    /// column; `bx1` is clamped to the last column.
    pub fn agents_in_bin_row(&self, bx0: u32, bx1: u32, by: u32) -> (r: &[u32])
        requires
            self.wf(),
        ensures
            r@ == if by >= self@.rows || bx0 >= self@.cols || bx1 < bx0 {
                Seq::<u32>::empty()
            } else {
                buckets_run(
                    self@.placed,
                    self@.cols,
                    bin_index((bx0, by), self@.cols),
                    bin_index((if bx1 < self@.cols { bx1 } else { (self@.cols - 1) as u32 }, by), self@.cols),
                )
            },
    {
        if by >= self.rows || bx0 >= self.cols || bx1 < bx0 {
            let r: &[u32] = &[];
            assert(r@ =~= Seq::<u32>::empty());
            return r;
        }
        let hi = if bx1 < self.cols - 1 {
            bx1
        } else {
            self.cols - 1
        };
        proof {
            lemma_bin_in_grid(self.cols, self.rows, bx0, by);
            lemma_bin_in_grid(self.cols, self.rows, hi, by);
        }
        let row = by * self.cols;
        let lo_bin = (bx0 + row) as usize;
        let hi_bin = (hi + row) as usize;
        let start = self.starts[lo_bin] as usize;
        let end = self.starts[hi_bin + 1] as usize;
        proof {
            self.lemma_items_run(lo_bin as int, hi_bin as int);
            lemma_count_below_mono(self.placed@, self.cols, lo_bin as int, hi_bin as int + 1);
            lemma_count_below_mono(self.placed@, self.cols, hi_bin as int + 1, hi_bin as int + 1);
        }
        vstd::slice::slice_subrange(self.items.as_slice(), start, end)
    }

    /// Refill the bins, agent `i` going into bin `bins[i]`. Every bin's
    /// agents come out in ascending agent index.
    pub fn rebuild(&mut self, bins: &[(u32, u32)])
        requires
            old(self).wf(),
            bins@.len() <= old(self)@.capacity,
            bins_in_grid(bins@, old(self)@.cols, old(self)@.rows),
        ensures
            final(self).wf(),
            final(self)@ == (GridView { placed: bins@, ..old(self)@ }),
    {
        let n = bins.len();
        let nb = self.cols as usize * self.rows as usize;
        let cols = self.cols;
        let rows = self.rows;
        let ghost cap = self.items@.len();
        self.len = n;
        self.placed = Ghost(bins@);

        // A stamp of `self.stamp` on a bin means "written this rebuild".
        if self.stamp == u32::MAX {
            self.stamp = 0;
        } else {
            self.stamp = self.stamp + 1;
        }
        if self.stamp == 0 {
            // Wrapped: a stale bin holding stamp 0 would resurrect its old
            // population, so clear every stamp once.
            fill_zero(&mut self.count_stamp);
            self.stamp = 1;
        }
        let stamp = self.stamp;
        assert(forall|c: int| 0 <= c < nb ==> #[trigger] self.count_stamp@[c] < stamp);

        // Count each bin's population.
        let mut i: usize = 0;
        while i < n
            invariant
                i <= n,
                n == bins@.len(),
                n <= u32::MAX,
                nb == cols * rows,
                grid_shape_ok(cols, rows),
                self.cols == cols,
                self.rows == rows,
                self.stamp == stamp,
                self.counts@.len() == nb,
                self.count_stamp@.len() == nb,
                self.starts@.len() == nb + 1,
                self.cursor@.len() == nb,
                self.items@.len() == cap,
                cap <= u32::MAX,
                n <= cap,
                self.len == n,
                self.placed@ == bins@,
                bins_in_grid(bins@, cols, rows),
                forall|c: int| 0 <= c < nb ==> #[trigger] self.count_stamp@[c] <= stamp,
                forall|c: int|
                    0 <= c < nb ==> #[trigger] stamped_count(self.counts@, self.count_stamp@, self.stamp, c) == bucket(bins@.subrange(0, i as int), cols, c).len(),
            decreases n - i,
        {
            let (bx, by) = bins[i];
            proof {
                assert(bins@[i as int] == (bx, by));
                lemma_bin_in_grid(cols, rows, bx, by);
            }
            let b = (bx + by * cols) as usize;
            let ghost pre = bins@.subrange(0, i as int);
            let ghost next = bins@.subrange(0, i as int + 1);
            proof {
                assert(next.drop_last() =~= pre);
                assert(next.last() == (bx, by));
                assert(bucket(next, cols, b as int) =~= bucket(pre, cols, b as int).push(i as u32));
                lemma_bucket_len(next, cols, b as int);
                lemma_count_below_mono(next, cols, b as int, b as int + 1);
                assert(stamped_count(self.counts@, self.count_stamp@, self.stamp, b as int) == bucket(pre, cols, b as int).len());
            }
            let ghost c0 = self.counts@;
            let ghost s0 = self.count_stamp@;
            if self.count_stamp[b] != stamp {
                self.count_stamp.set(b, stamp);
                self.counts.set(b, 0);
            }
            let c = self.counts[b];
            self.counts.set(b, c + 1);
            proof {
                assert forall|d: int| 0 <= d < nb implies #[trigger] stamped_count(self.counts@, self.count_stamp@, self.stamp, d) == bucket(next, cols, d).len() by {
                    if d != b {
                        assert(stamped_count(c0, s0, stamp, d) == bucket(pre, cols, d).len());
                        assert(self.counts@[d] == c0[d] && self.count_stamp@[d] == s0[d]);
                        assert(bucket(next, cols, d) =~= bucket(pre, cols, d));
                    }
                }
            }
            i = i + 1;
        }
        proof {
            assert(bins@.subrange(0, n as int) =~= bins@);
        }

        proof {
            lemma_count_below_zero(bins@, cols);
        }
        // Prefix sums: each bin starts where the bins below it end.
        let ghost counts_snap = self.counts@;
        let ghost stamps_snap = self.count_stamp@;
        let mut acc: u32 = 0;
        let mut b: usize = 0;
        while b < nb
            invariant
                b <= nb,
                n == bins@.len(),
                n <= u32::MAX,
                nb == cols * rows,
                grid_shape_ok(cols, rows),
                self.cols == cols,
                self.rows == rows,
                self.stamp == stamp,
                self.counts@ == counts_snap,
                self.count_stamp@ == stamps_snap,
                self.counts@.len() == nb,
                self.count_stamp@.len() == nb,
                self.starts@.len() == nb + 1,
                self.cursor@.len() == nb,
                self.items@.len() == cap,
                cap <= u32::MAX,
                n <= cap,
                self.len == n,
                self.placed@ == bins@,
                bins_in_grid(bins@, cols, rows),
                forall|c: int| 0 <= c < nb ==> #[trigger] self.count_stamp@[c] <= stamp,
                forall|c: int| 0 <= c < nb ==> #[trigger] stamped_count(self.counts@, self.count_stamp@, self.stamp, c) == bucket(bins@, cols, c).len(),
                acc == count_below(bins@, cols, b as int),
                forall|c: int| 0 <= c < b ==> #[trigger] self.starts@[c] == count_below(bins@, cols, c),
                forall|c: int| 0 <= c < b ==> #[trigger] self.cursor@[c] == count_below(bins@, cols, c),
            decreases nb - b,
        {
            self.starts.set(b, acc);
            self.cursor.set(b, acc);
            proof {
                assert(stamped_count(self.counts@, self.count_stamp@, self.stamp, b as int) == bucket(bins@, cols, b as int).len());
                lemma_bucket_len(bins@, cols, b as int);
                lemma_count_below_mono(bins@, cols, b as int + 1, b as int + 1);
            }
            if self.count_stamp[b] == stamp {
                acc = acc + self.counts[b];
            }
            b = b + 1;
        }
        proof {
            assert forall|j: int| 0 <= j < bins@.len() implies bin_index(#[trigger] bins@[j], cols) < nb by {
                lemma_bin_in_grid(cols, rows, bins@[j].0, bins@[j].1);
            }
            lemma_count_below_all(bins@, cols, nb as int);
        }
        self.starts.set(nb, acc);

        // Place each agent at its bin's cursor, in ascending agent index.
        let ghost starts_snap = self.starts@;
        let mut i: usize = 0;
        while i < n
            invariant
                i <= n,
                n == bins@.len(),
                n <= self.items@.len(),
                self.items@.len() == cap,
                cap <= u32::MAX,
                nb == cols * rows,
                grid_shape_ok(cols, rows),
                self.cols == cols,
                self.rows == rows,
                self.stamp == stamp,
                self.counts@ == counts_snap,
                self.count_stamp@ == stamps_snap,
                self.starts@ == starts_snap,
                self.starts@.len() == nb + 1,
                forall|c: int| 0 <= c <= nb ==> #[trigger] self.starts@[c] == count_below(bins@, cols, c),
                self.counts@.len() == nb,
                self.count_stamp@.len() == nb,
                forall|c: int| 0 <= c < nb ==> #[trigger] self.count_stamp@[c] <= stamp,
                forall|c: int| 0 <= c < nb ==> #[trigger] stamped_count(self.counts@, self.count_stamp@, self.stamp, c) == bucket(bins@, cols, c).len(),
                self.len == n,
                self.placed@ == bins@,
                self.cursor@.len() == nb,
                bins_in_grid(bins@, cols, rows),
                count_below(bins@, cols, nb as int) == n,
                forall|c: int|
                    0 <= c < nb ==> #[trigger] self.cursor@[c] == count_below(bins@, cols, c) + bucket(
                        bins@.subrange(0, i as int),
                        cols,
                        c,
                    ).len(),
                forall|c: int, k: int|
                    0 <= c < nb && 0 <= k < bucket(bins@.subrange(0, i as int), cols, c).len() ==> self.items@[count_below(
                        bins@,
                        cols,
                        c,
                    ) + k] == #[trigger] bucket(bins@.subrange(0, i as int), cols, c)[k],
            decreases n - i,
        {
            let (bx, by) = bins[i];
            proof {
                assert(bins@[i as int] == (bx, by));
                lemma_bin_in_grid(cols, rows, bx, by);
            }
            let b = (bx + by * cols) as usize;
            let ghost pre = bins@.subrange(0, i as int);
            let ghost next = bins@.subrange(0, i as int + 1);
            proof {
                assert(next.drop_last() =~= pre);
                assert(next.last() == (bx, by));
                assert(bucket(next, cols, b as int) =~= bucket(pre, cols, b as int).push(i as u32));
                lemma_bucket_prefix(bins@, cols, b as int, i as int + 1);
                lemma_bucket_len(bins@, cols, b as int);
                lemma_count_below_mono(bins@, cols, b as int + 1, nb as int);
            }
            let slot = self.cursor[b] as usize;
            let ghost items0 = self.items@;
            self.items.set(slot, i as u32);
            let cur = self.cursor[b];
            self.cursor.set(b, cur + 1);
            proof {
                assert forall|c: int| 0 <= c < nb implies #[trigger] self.cursor@[c] == count_below(bins@, cols, c) + bucket(
                    next,
                    cols,
                    c,
                ).len() by {
                    if c != b {
                        assert(bucket(next, cols, c) =~= bucket(pre, cols, c));
                    }
                }
                assert forall|c: int, k: int|
                    0 <= c < nb && 0 <= k < bucket(next, cols, c).len() implies self.items@[count_below(bins@, cols, c) + k]
                    == #[trigger] bucket(next, cols, c)[k] by {
                    if c != b {
                        assert(bucket(next, cols, c) =~= bucket(pre, cols, c));
                        assert(bucket(next, cols, c)[k] == bucket(pre, cols, c)[k]);
                        assert(items0[count_below(bins@, cols, c) + k] == bucket(pre, cols, c)[k]);
                        lemma_bucket_prefix(bins@, cols, c, i as int);
                        lemma_bucket_len(bins@, cols, c);
                        if c < b {
                            lemma_count_below_mono(bins@, cols, c + 1, b as int);
                        } else {
                            lemma_count_below_mono(bins@, cols, b as int + 1, c);
                        }
                        lemma_count_below_mono(bins@, cols, c + 1, nb as int);
                        lemma_count_below_mono(bins@, cols, c, c + 1);
                    } else if k < bucket(pre, cols, c).len() {
                        lemma_count_below_mono(bins@, cols, c, c + 1);
                        assert(bucket(next, cols, c)[k] == bucket(pre, cols, c)[k]);
                        assert(items0[count_below(bins@, cols, c) + k] == bucket(pre, cols, c)[k]);
                    } else {
                        assert(bucket(next, cols, c)[k] == i as u32);
                    }
                }
            }
            i = i + 1;
        }
        proof {
            assert(bins@.subrange(0, n as int) =~= bins@);
        }
    }

    /// Agents placed by the last rebuild.
    pub fn len(&self) -> (r: usize)
        requires
            self.wf(),
        ensures
            r == self@.placed.len(),
    {
        self.len
    }

    pub fn is_empty(&self) -> (r: bool)
        requires
            self.wf(),
        ensures
            r == (self@.placed.len() == 0),
    {
        self.len == 0
    }
}

/// Set every entry of `v` to zero.
fn fill_zero(v: &mut Vec<u32>)
    ensures
        final(v)@.len() == old(v)@.len(),
        forall|i: int| 0 <= i < final(v)@.len() ==> final(v)@[i] == 0,
{
    let n = v.len();
    let mut i: usize = 0;
    while i < n
        invariant
            i <= n,
            n == v@.len(),
            forall|j: int| 0 <= j < i ==> v@[j] == 0,
        decreases n - i,
    {
        v.set(i, 0);
        i = i + 1;
    }
}

/// A vector of `n` zeroes.
fn zeroes(n: usize) -> (v: Vec<u32>)
    ensures
        v@.len() == n,
        forall|i: int| 0 <= i < n ==> v@[i] == 0,
{
    let mut v: Vec<u32> = Vec::with_capacity(n);
    let mut i: usize = 0;
    while i < n
        invariant
            i <= n,
            v@.len() == i,
            forall|j: int| 0 <= j < i ==> v@[j] == 0,
        decreases n - i,
    {
        v.push(0);
        i = i + 1;
    }
    v
}

} // verus!
