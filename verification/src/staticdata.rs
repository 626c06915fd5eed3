//! Static decorations of the world: per-block runs of static tiles, each
//! run sorted by its `(x, y, z)` offsets so that all tiles of one cell form
//! a contiguous run that a partition-style lookup can return.

use vstd::prelude::*;
use crate::mulreader::{le_u16, le_u32, mul_read_i8, mul_read_u16, mul_read_u32, mul_read_u8};

verus! {

/// One static tile: a graphic, offsets `0..7` inside its block, and an
/// elevation.
#[derive(Debug, Copy, Clone, PartialEq, Eq, Structural)]
pub struct StaticTile {
    pub static_tile: u16,
    pub x: u8,
    pub y: u8,
    pub z: i8,
}

/// A run inside the tile store: start index and length.
#[derive(Debug, Copy, Clone, PartialEq, Eq, Structural)]
pub struct MulSlice(pub usize, pub usize);

/// The `(x, y, z)` key order of a block's run. Ties (same key, different
/// graphic) may come in either order.
pub open spec fn st_le(a: StaticTile, b: StaticTile) -> bool {
    if a.x != b.x {
        a.x < b.x
    } else if a.y != b.y {
        a.y < b.y
    } else {
        a.z as int <= b.z as int
    }
}

/// Whether the tile's cell offsets are exactly `(ox, oy)`.
pub open spec fn st_at(t: StaticTile, ox: u8, oy: u8) -> bool {
    t.x == ox && t.y == oy
}

/// Whether the tile's cell offsets order strictly before `(ox, oy)`.
pub open spec fn st_xy_lt(t: StaticTile, ox: u8, oy: u8) -> bool {
    t.x < ox || (t.x == ox && t.y < oy)
}

/// The subsequence of `s` whose cell offsets are exactly `(ox, oy)`, in
/// order.
pub open spec fn tiles_at(s: Seq<StaticTile>, ox: u8, oy: u8) -> Seq<StaticTile>
    decreases s.len(),
{
    if s.len() == 0 {
        Seq::empty()
    } else {
        let pre = tiles_at(s.drop_last(), ox, oy);
        if st_at(s.last(), ox, oy) {
            pre.push(s.last())
        } else {
            pre
        }
    }
}

/// Every tile the lookup returns is a tile of the sequence.
pub proof fn lemma_tiles_at_contains(s: Seq<StaticTile>, ox: u8, oy: u8)
    ensures
        forall|k: int|
            0 <= k < tiles_at(s, ox, oy).len() ==> s.contains(#[trigger] tiles_at(s, ox, oy)[k]),
    decreases s.len(),
{
    if s.len() > 0 {
        lemma_tiles_at_contains(s.drop_last(), ox, oy);
        let pre = tiles_at(s.drop_last(), ox, oy);
        assert forall|k: int| 0 <= k < tiles_at(s, ox, oy).len() implies s.contains(
            #[trigger] tiles_at(s, ox, oy)[k],
        ) by {
            if k < pre.len() {
                assert(s.drop_last().contains(pre[k]));
                let j = choose|j: int| 0 <= j < s.drop_last().len() && s.drop_last()[j] == pre[k];
                assert(s[j] == pre[k]);
            } else {
                assert(tiles_at(s, ox, oy)[k] == s.last());
                assert(s[s.len() - 1] == s.last());
            }
        }
    }
}

/// If the tiles matching `(ox, oy)` are exactly those at indices
/// `[lo, hi)`, then `tiles_at` is that contiguous run.
pub proof fn lemma_tiles_at_run(s: Seq<StaticTile>, ox: u8, oy: u8, lo: int, hi: int)
    requires
        0 <= lo <= hi <= s.len(),
        forall|i: int| lo <= i < hi ==> st_at(#[trigger] s[i], ox, oy),
        forall|i: int| 0 <= i < lo ==> !st_at(#[trigger] s[i], ox, oy),
        forall|i: int| hi <= i < s.len() ==> !st_at(#[trigger] s[i], ox, oy),
    ensures
        tiles_at(s, ox, oy) == s.subrange(lo, hi),
    decreases s.len(),
{
    if s.len() == 0 {
        assert(tiles_at(s, ox, oy) =~= s.subrange(lo, hi));
    } else if hi == s.len() && lo < hi {
        lemma_tiles_at_run(s.drop_last(), ox, oy, lo, hi - 1);
        assert(s.drop_last().subrange(lo, hi - 1) =~= s.subrange(lo, hi - 1));
        assert(tiles_at(s, ox, oy) =~= s.subrange(lo, hi));
    } else {
        // the last element does not match, so hi < len or lo == hi
        let lo2 = if lo == s.len() { s.len() - 1 } else { lo };
        let hi2 = if hi == s.len() { s.len() - 1 } else { hi };
        lemma_tiles_at_run(s.drop_last(), ox, oy, lo2, hi2);
        assert(s.drop_last().subrange(lo2, hi2) =~= s.subrange(lo, hi));
        assert(tiles_at(s, ox, oy) =~= s.subrange(lo, hi));
    }
}

/// The static store: every block's tiles back to back, with per-block runs.
pub struct Static {
    pub statics: Vec<StaticTile>,
    pub blocks: Vec<Option<MulSlice>>,
}

impl Static {
    /// Every run lies inside the store and is sorted by `(x, y, z)`.
    pub open spec fn wf(self) -> bool {
        forall|b: int|
            0 <= b < self.blocks@.len() ==> match #[trigger] self.blocks@[b] {
                Some(run) => {
                    &&& run.0 + run.1 <= self.statics@.len()
                    &&& forall|p: int, q: int|
                        run.0 <= p < q < run.0 + run.1 ==> st_le(
                            #[trigger] self.statics@[p],
                            #[trigger] self.statics@[q],
                        )
                },
                None => true,
            }
    }

    /// The tiles of block `b`, in store order.
    pub open spec fn block_seq(self, b: int) -> Seq<StaticTile> {
        match self.blocks@[b] {
            Some(run) => self.statics@.subrange(run.0 as int, run.0 + run.1),
            None => Seq::empty(),
        }
    }

    pub open spec fn block_count(self) -> int {
        self.blocks@.len() as int
    }

    /// Builds a store directly from its parts.
    pub fn new(statics: Vec<StaticTile>, blocks: Vec<Option<MulSlice>>) -> (r: Static)
        requires
            (Static { statics: statics, blocks: blocks }).wf(),
        ensures
            r.wf(),
            r.statics == statics,
            r.blocks == blocks,
    {
        Static { statics, blocks }
    }

    /// All tiles of block `index`, or nothing where the block is empty.
    pub fn statics_block(&self, index: usize) -> (r: Vec<StaticTile>)
        requires
            self.wf(),
            (index as int) < self.block_count(),
        ensures
            r@ == self.block_seq(index as int),
    {
        let mut r: Vec<StaticTile> = Vec::new();
        match self.blocks[index] {
            None => {
                proof {
                    assert(r@ =~= self.block_seq(index as int));
                }
            },
            Some(MulSlice(start, count)) => {
                let n: usize = self.statics.len();
                let mut k: usize = 0;
                while k < count
                    invariant
                        k <= count,
                        start + count <= n == self.statics@.len(),
                        r@.len() == k,
                        forall|i: int| 0 <= i < k ==> r@[i] == self.statics@[start + i],
                    decreases count - k,
                {
                    r.push(self.statics[start + k]);
                    k = k + 1;
                }
                proof {
                    assert(r@ =~= self.block_seq(index as int));
                }
            },
        }
        r
    }

    /// The run of tiles of block `index` whose offsets equal `(ox, oy)`,
    /// found by binary partition on the sorted run and a forward scan.
    pub fn statics_block_tile(&self, index: usize, ox: u8, oy: u8) -> (r: Vec<StaticTile>)
        requires
            self.wf(),
            (index as int) < self.block_count(),
        ensures
            r@ == tiles_at(self.block_seq(index as int), ox, oy),
    {
        let block = self.statics_block(index);
        let lo = lower_bound_xy(&block, ox, oy);
        let mut hi: usize = lo;
        while hi < block.len() && block[hi].x == ox && block[hi].y == oy
            invariant
                lo <= hi <= block@.len(),
                forall|i: int| lo <= i < hi ==> st_at(#[trigger] block@[i], ox, oy),
            decreases block@.len() - hi,
        {
            hi = hi + 1;
        }
        proof {
            sorted_after_run_mismatch(block@, ox, oy, lo as int, hi as int);
            lemma_tiles_at_run(block@, ox, oy, lo as int, hi as int);
        }
        let mut r: Vec<StaticTile> = Vec::new();
        let mut k: usize = lo;
        while k < hi
            invariant
                lo <= k <= hi <= block@.len(),
                r@.len() == k - lo,
                forall|i: int| 0 <= i < r@.len() ==> r@[i] == block@[lo + i],
            decreases hi - k,
        {
            r.push(block[k]);
            k = k + 1;
        }
        proof {
            assert(r@ =~= block@.subrange(lo as int, hi as int));
        }
        r
    }

    /// Same lookup by two binary partitions instead of a scan.
    pub fn statics_block_tile2(&self, index: usize, ox: u8, oy: u8) -> (r: Vec<StaticTile>)
        requires
            self.wf(),
            (index as int) < self.block_count(),
        ensures
            r@ == tiles_at(self.block_seq(index as int), ox, oy),
    {
        let block = self.statics_block(index);
        let lo = lower_bound_xy(&block, ox, oy);
        let hi = upper_bound_xy(&block, ox, oy);
        if hi < lo {
            // cannot happen on a sorted run; keep the lookup total anyway
            proof {
                let s = block@;
                assert(st_xy_lt(s[hi as int], ox, oy));
                assert(!st_xy_lt(s[hi as int], ox, oy) && !st_at(s[hi as int], ox, oy));
                assert(false);
            }
        }
        proof {
            lemma_tiles_at_run(block@, ox, oy, lo as int, hi as int);
        }
        let mut r: Vec<StaticTile> = Vec::new();
        let mut k: usize = lo;
        while k < hi
            invariant
                lo <= k <= hi <= block@.len(),
                r@.len() == k - lo,
                forall|i: int| 0 <= i < r@.len() ==> r@[i] == block@[lo + i],
            decreases hi - k,
        {
            r.push(block[k]);
            k = k + 1;
        }
        proof {
            assert(r@ =~= block@.subrange(lo as int, hi as int));
        }
        r
    }
}

/// The 7-byte record stored at byte offset `pos`.
pub open spec fn parse_static_tile(data: Seq<u8>, pos: int) -> StaticTile {
    StaticTile {
        static_tile: le_u16(data, pos),
        x: data[pos + 2],
        y: data[pos + 3],
        z: data[pos + 4] as i8,
    }
}

/// The `count` records of one block, starting at record index `first`.
pub open spec fn block_file_records(data: Seq<u8>, first: int, count: int) -> Seq<StaticTile> {
    Seq::new(count as nat, |k: int| parse_static_tile(data, (first + k) * 7))
}

/// When the index and tile buffers let every referenced run be decoded:
/// whole 7-byte records, one 12-byte index record per block, every run in
/// bounds.
pub open spec fn static_read_ok(idx: Seq<u8>, data: Seq<u8>, nblocks: int) -> bool {
    &&& data.len() % 7 == 0
    &&& nblocks * 12 <= idx.len()
    &&& forall|b: int|
        0 <= b < nblocks ==> (#[trigger] le_u32(idx, b * 12) == 0xFFFF_FFFFu32 || (le_u32(
            idx,
            b * 12,
        ) as int) / 7 + (le_u32(idx, b * 12 + 4) as int) / 7 <= (data.len() as int) / 7)
}

/// Inserting into a sequence inserts into its multiset.
proof fn lemma_insert_to_multiset(s: Seq<StaticTile>, pos: int, x: StaticTile)
    requires
        0 <= pos <= s.len(),
    ensures
        s.insert(pos, x).to_multiset() =~= s.to_multiset().insert(x),
{
    let s2 = s.insert(pos, x);
    broadcast use vstd::seq_lib::group_seq_properties;

    s2.to_multiset_ensures();
    s.to_multiset_ensures();
    assert(s2.remove(pos) =~= s);
    assert(s2[pos] == x);
    assert(s2.to_multiset().contains(x));
    assert(s2.remove(pos).to_multiset() =~= s2.to_multiset().remove(x));
    assert forall|y: StaticTile| true implies s2.to_multiset().count(y) == s.to_multiset().insert(
        x,
    ).count(y) by {
        if y == x {
            assert(s2.to_multiset().remove(x).count(x) == s2.to_multiset().count(x) - 1);
        } else {
            assert(s2.to_multiset().remove(x).count(y) == s2.to_multiset().count(y));
        }
    }
}

/// Sorts tiles by their `(x, y, z)` key, keeping the collection of tiles.
pub fn sort_static_tiles(v: Vec<StaticTile>) -> (r: Vec<StaticTile>)
    ensures
        r@.len() == v@.len(),
        forall|p: int, q: int| 0 <= p < q < r@.len() ==> st_le(#[trigger] r@[p], #[trigger] r@[q]),
        r@.to_multiset() == v@.to_multiset(),
{
    let mut out: Vec<StaticTile> = Vec::new();
    proof {
        assert(out@ =~= v@.take(0));
    }
    let mut i: usize = 0;
    while i < v.len()
        invariant
            i <= v@.len(),
            out@.len() == i,
            forall|p: int, q: int|
                0 <= p < q < out@.len() ==> st_le(#[trigger] out@[p], #[trigger] out@[q]),
            out@.to_multiset() == v@.take(i as int).to_multiset(),
        decreases v@.len() - i,
    {
        let x = v[i];
        let mut pos: usize = 0;
        while pos < out.len() && st_le_exec(&out[pos], &x)
            invariant
                pos <= out@.len(),
                forall|j: int| 0 <= j < pos ==> st_le(#[trigger] out@[j], x),
            decreases out@.len() - pos,
        {
            pos = pos + 1;
        }
        proof {
            let ghost old_out = out@;
            assert(v@.take(i + 1) =~= v@.take(i as int).push(v@[i as int]));
            v@.take(i as int).to_multiset_ensures();
            out@.to_multiset_ensures();
            lemma_insert_to_multiset(out@, pos as int, x);
        }
        out.insert(pos, x);
        i = i + 1;
        proof {
            assert forall|p: int, q: int| 0 <= p < q < out@.len() implies st_le(
                #[trigger] out@[p],
                #[trigger] out@[q],
            ) by {
                // each index maps to an old element or to the inserted one
                if q < pos {
                } else if p == pos && q > pos {
                    assert(!st_le(out@[q], x) ==> st_le(x, out@[q]));
                } else if p < pos && q == pos {
                } else if p < pos && q > pos {
                    assert(st_le(out@[p], x));
                    assert(st_le(x, out@[q]));
                } else if p > pos {
                }
            }
        }
    }
    proof {
        assert(v@.take(v@.len() as int) =~= v@);
    }
    out
}

/// Executable `(x, y, z)` key comparison.
fn st_le_exec(a: &StaticTile, b: &StaticTile) -> (r: bool)
    ensures
        r == st_le(*a, *b),
{
    if a.x != b.x {
        a.x < b.x
    } else if a.y != b.y {
        a.y < b.y
    } else {
        a.z <= b.z
    }
}

impl Static {
    /// Decodes the static index and tile buffers of one world: one index
    /// record per block naming a run of 7-byte tile records, each run
    /// sorted by `(x, y, z)` as it is brought in. Fails exactly when a
    /// buffer is cut short or a run lies outside the tile buffer.
    pub fn read(idx_data: &[u8], data: &[u8], x_blocks: usize, y_blocks: usize) -> (r: Option<
        Static,
    >)
        requires
            x_blocks * y_blocks <= 0x100_0000,
        ensures
            r.is_some() <==> static_read_ok(idx_data@, data@, x_blocks * y_blocks),
            r matches Some(s) ==> {
                &&& s.wf()
                &&& s.block_count() == x_blocks * y_blocks
                &&& forall|b: int|
                    0 <= b < s.block_count() ==> {
                        let off = #[trigger] le_u32(idx_data@, b * 12);
                        let cnt = le_u32(idx_data@, b * 12 + 4);
                        if off == 0xFFFF_FFFFu32 {
                            s.block_seq(b) == Seq::<StaticTile>::empty()
                        } else {
                            s.block_seq(b).to_multiset() == block_file_records(
                                data@,
                                (off as int) / 7,
                                (cnt as int) / 7,
                            ).to_multiset()
                        }
                    }
            },
    {
        let total: usize = x_blocks * y_blocks;
        let data_len: usize = data.len();
        let idx_len: usize = idx_data.len();
        if data_len % 7 != 0 {
            return None;
        }
        if idx_len / 12 < total {
            proof {
                let t = total as int;
                let nn = idx_len as int;
                assert(t > nn / 12 ==> t * 12 > nn) by (nonlinear_arith);
            }
            return None;
        }
        proof {
            let t = total as int;
            let nn = idx_len as int;
            assert(t <= nn / 12 ==> t * 12 <= nn) by (nonlinear_arith);
        }
        let max_recs: usize = data_len / 7;
        let mut statics: Vec<StaticTile> = Vec::new();
        let mut blocks: Vec<Option<MulSlice>> = Vec::new();
        let mut b: usize = 0;
        while b < total
            invariant
                b <= total,
                total == x_blocks * y_blocks,
                total <= 0x100_0000,
                total * 12 <= idx_len == idx_data@.len(),
                data_len == data@.len(),
                data_len % 7 == 0,
                max_recs == data_len / 7,
                blocks@.len() == b,
                (Static { statics: statics, blocks: blocks }).wf(),
                forall|k: int|
                    0 <= k < b ==> {
                        let off = #[trigger] le_u32(idx_data@, k * 12);
                        let cnt = le_u32(idx_data@, k * 12 + 4);
                        {
                            &&& (off == 0xFFFF_FFFFu32 || (off as int) / 7 + (cnt as int) / 7
                                <= (data_len as int) / 7)
                            &&& if off == 0xFFFF_FFFFu32 {
                                (Static { statics: statics, blocks: blocks }).block_seq(k)
                                    == Seq::<StaticTile>::empty()
                            } else {
                                (Static { statics: statics, blocks: blocks }).block_seq(
                                    k,
                                ).to_multiset() == block_file_records(
                                    data@,
                                    (off as int) / 7,
                                    (cnt as int) / 7,
                                ).to_multiset()
                            }
                        }
                    },
            decreases total - b,
        {
            proof {
                assert(b * 12 + 12 <= total * 12) by (nonlinear_arith)
                    requires
                        b + 1 <= total,
                ;
            }
            let off: u32 = mul_read_u32(idx_data, b * 12);
            let cnt: u32 = mul_read_u32(idx_data, b * 12 + 4);
            let ghost pre_statics = statics@;
            let ghost pre_blocks = blocks@;
            if off == 0xFFFF_FFFF {
                blocks.push(None);
            } else {
                let index: usize = (off / 7) as usize;
                let count: usize = (cnt / 7) as usize;
                if index > max_recs || count > max_recs - index {
                    proof {
                        let bi = b as int;
                        assert(le_u32(idx_data@, bi * 12) == off);
                        assert(le_u32(idx_data@, bi * 12 + 4) == cnt);
                        assert((off as int) / 7 + (cnt as int) / 7 > (data@.len() as int) / 7);
                        if static_read_ok(idx_data@, data@, x_blocks * y_blocks) {
                            assert(le_u32(idx_data@, bi * 12) == 0xFFFF_FFFFu32 || (le_u32(
                                idx_data@,
                                bi * 12,
                            ) as int) / 7 + (le_u32(idx_data@, bi * 12 + 4) as int) / 7 <= (
                            data@.len() as int) / 7);
                            assert(false);
                        }
                    }
                    return None;
                }
                let mut tmp: Vec<StaticTile> = Vec::new();
                let mut k: usize = 0;
                while k < count
                    invariant
                        k <= count,
                        index + count <= max_recs,
                        max_recs == data_len / 7,
                        data_len % 7 == 0,
                        data_len == data@.len(),
                        tmp@.len() == k,
                        forall|j: int|
                            0 <= j < k ==> tmp@[j] == parse_static_tile(
                                data@,
                                (index + j) * 7,
                            ),
                    decreases count - k,
                {
                    proof {
                        let mr = max_recs as int;
                        let dl = data_len as int;
                        assert((index + k) * 7 + 7 <= mr * 7) by (nonlinear_arith)
                            requires
                                index + k + 1 <= mr,
                        ;
                        assert(mr * 7 <= dl) by (nonlinear_arith)
                            requires
                                mr == dl / 7 && dl % 7 == 0 && dl >= 0,
                        ;
                    }
                    let base: usize = (index + k) * 7;
                    let tile = StaticTile {
                        static_tile: mul_read_u16(data, base),
                        x: mul_read_u8(data, base + 2),
                        y: mul_read_u8(data, base + 3),
                        z: mul_read_i8(data, base + 4),
                    };
                    tmp.push(tile);
                    k = k + 1;
                }
                proof {
                    assert(tmp@ =~= block_file_records(data@, index as int, count as int));
                }
                let sorted = sort_static_tiles(tmp);
                let start: usize = statics.len();
                let mut j: usize = 0;
                while j < sorted.len()
                    invariant
                        j <= sorted@.len(),
                        statics@ == pre_statics + sorted@.take(j as int),
                    decreases sorted@.len() - j,
                {
                    statics.push(sorted[j]);
                    proof {
                        assert(statics@ =~= pre_statics + sorted@.take(j + 1));
                    }
                    j = j + 1;
                }
                proof {
                    assert(sorted@.take(sorted@.len() as int) =~= sorted@);
                    assert(statics@ == pre_statics + sorted@);
                    assert(statics@.subrange(start as int, start + sorted@.len()) =~= sorted@);
                }
                blocks.push(Some(MulSlice(start, count)));
            }
            b = b + 1;
            proof {
                // appending tiles and one block entry leaves every earlier
                // run, and its sortedness, untouched
                assert(pre_statics =~= statics@.subrange(0, pre_statics.len() as int));
                assert forall|k: int| 0 <= k < b - 1 implies #[trigger] blocks@[k]
                    == pre_blocks[k] && (blocks@[k] matches Some(run) ==> statics@.subrange(
                    run.0 as int,
                    run.0 + run.1,
                ) =~= pre_statics.subrange(run.0 as int, run.0 + run.1)) by {
                }
            }
        }
        Some(Static { statics, blocks })
    }
}

/// On a sorted run, nothing at or after the first mismatch following a run
/// of matches can match again.
proof fn sorted_after_run_mismatch(s: Seq<StaticTile>, ox: u8, oy: u8, lo: int, hi: int)
    requires
        0 <= lo <= hi <= s.len(),
        forall|p: int, q: int| 0 <= p < q < s.len() ==> st_le(#[trigger] s[p], #[trigger] s[q]),
        forall|i: int| 0 <= i < lo ==> st_xy_lt(#[trigger] s[i], ox, oy),
        lo < s.len() ==> !st_xy_lt(s[lo], ox, oy),
        forall|i: int| lo <= i < hi ==> st_at(#[trigger] s[i], ox, oy),
        hi < s.len() ==> !st_at(s[hi], ox, oy),
    ensures
        forall|i: int| hi <= i < s.len() ==> !st_at(#[trigger] s[i], ox, oy),
        forall|i: int| 0 <= i < lo ==> !st_at(#[trigger] s[i], ox, oy),
{
    assert forall|i: int| hi <= i < s.len() implies !st_at(#[trigger] s[i], ox, oy) by {
        if i > hi {
            assert(st_le(s[hi], s[i]));
        }
        if st_at(s[i], ox, oy) {
            if hi < lo {
            } else if hi == lo {
                assert(hi < s.len());
                if i > hi {
                    // s[hi] is not before (ox,oy) and not at it, yet precedes s[i]
                    assert(!st_xy_lt(s[hi], ox, oy) && !st_at(s[hi], ox, oy));
                    assert(false);
                }
            } else {
                assert(st_at(s[lo], ox, oy));
                if i > hi {
                    assert(st_le(s[hi - 1], s[hi]));
                    assert(st_at(s[hi - 1], ox, oy));
                    assert(false);
                }
            }
        }
    }
}

/// First index whose tile does not order strictly before `(ox, oy)`.
fn lower_bound_xy(v: &Vec<StaticTile>, ox: u8, oy: u8) -> (r: usize)
    requires
        forall|p: int, q: int| 0 <= p < q < v@.len() ==> st_le(#[trigger] v@[p], #[trigger] v@[q]),
    ensures
        r <= v@.len(),
        forall|i: int| 0 <= i < r ==> st_xy_lt(#[trigger] v@[i], ox, oy),
        r < v@.len() ==> !st_xy_lt(v@[r as int], ox, oy),
{
    let mut lo: usize = 0;
    let mut hi: usize = v.len();
    while lo < hi
        invariant
            lo <= hi <= v@.len(),
            forall|p: int, q: int|
                0 <= p < q < v@.len() ==> st_le(#[trigger] v@[p], #[trigger] v@[q]),
            forall|i: int| 0 <= i < lo ==> st_xy_lt(#[trigger] v@[i], ox, oy),
            forall|i: int| hi <= i < v@.len() ==> !st_xy_lt(#[trigger] v@[i], ox, oy),
        decreases hi - lo,
    {
        let mid: usize = lo + (hi - lo) / 2;
        let t = v[mid];
        if t.x < ox || (t.x == ox && t.y < oy) {
            proof {
                assert forall|i: int| 0 <= i < mid + 1 implies st_xy_lt(
                    #[trigger] v@[i],
                    ox,
                    oy,
                ) by {
                    if i < mid {
                        assert(st_le(v@[i], v@[mid as int]));
                    }
                }
            }
            lo = mid + 1;
        } else {
            proof {
                assert forall|i: int| mid <= i < v@.len() implies !st_xy_lt(
                    #[trigger] v@[i],
                    ox,
                    oy,
                ) by {
                    if i > mid {
                        assert(st_le(v@[mid as int], v@[i]));
                    }
                }
            }
            hi = mid;
        }
    }
    lo
}

/// First index whose tile orders strictly after `(ox, oy)`.
fn upper_bound_xy(v: &Vec<StaticTile>, ox: u8, oy: u8) -> (r: usize)
    requires
        forall|p: int, q: int| 0 <= p < q < v@.len() ==> st_le(#[trigger] v@[p], #[trigger] v@[q]),
    ensures
        r <= v@.len(),
        forall|i: int|
            0 <= i < r ==> st_xy_lt(#[trigger] v@[i], ox, oy) || st_at(v@[i], ox, oy),
        forall|i: int|
            r <= i < v@.len() ==> !st_xy_lt(#[trigger] v@[i], ox, oy) && !st_at(v@[i], ox, oy),
{
    let mut lo: usize = 0;
    let mut hi: usize = v.len();
    while lo < hi
        invariant
            lo <= hi <= v@.len(),
            forall|p: int, q: int|
                0 <= p < q < v@.len() ==> st_le(#[trigger] v@[p], #[trigger] v@[q]),
            forall|i: int|
                0 <= i < lo ==> st_xy_lt(#[trigger] v@[i], ox, oy) || st_at(v@[i], ox, oy),
            forall|i: int|
                hi <= i < v@.len() ==> !st_xy_lt(#[trigger] v@[i], ox, oy) && !st_at(
                    v@[i],
                    ox,
                    oy,
                ),
        decreases hi - lo,
    {
        let mid: usize = lo + (hi - lo) / 2;
        let t = v[mid];
        if t.x < ox || (t.x == ox && t.y <= oy) {
            proof {
                assert forall|i: int| 0 <= i < mid + 1 implies st_xy_lt(#[trigger] v@[i], ox, oy)
                    || st_at(v@[i], ox, oy) by {
                    if i < mid {
                        assert(st_le(v@[i], v@[mid as int]));
                    }
                }
            }
            lo = mid + 1;
        } else {
            proof {
                assert forall|i: int| mid <= i < v@.len() implies !st_xy_lt(#[trigger] v@[i], ox, oy)
                    && !st_at(v@[i], ox, oy) by {
                    if i > mid {
                        assert(st_le(v@[mid as int], v@[i]));
                    }
                }
            }
            hi = mid;
        }
    }
    lo
}

} // verus!
