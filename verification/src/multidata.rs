//! The multi-object table: for each multi graphic, the list of parts that
//! make up the composite, decoded from the multi index and data assets.
//! Records come in two sizes; the version is detected by which size divides
//! every referenced run evenly.

use vstd::prelude::*;
use crate::mulreader::{le_u16, le_u32, mul_read_i16, mul_read_u16, mul_read_u32};
use crate::staticdata::MulSlice;

verus! {

/// One part of a multi object, relative to the multi's head.
#[derive(Debug, Copy, Clone, PartialEq, Eq, Structural)]
pub struct MultiPart {
    pub static_tile: u16,
    pub x: i16,
    pub y: i16,
    pub z: i16,
    pub flags: u32,
}

/// The raw 16-byte record layout of the newer asset revision.
#[derive(Debug, Copy, Clone, PartialEq, Eq, Structural)]
pub struct MulMultiPart7090 {
    pub static_tile: u16,
    pub x: i16,
    pub y: i16,
    pub z: i16,
    pub flags: u32,
    pub unknown: u32,
}

/// The multi table: all parts back to back, and per-graphic runs.
pub struct Multi {
    pub parts: Vec<MultiPart>,
    pub multis: Vec<Option<MulSlice>>,
}

impl Multi {
    pub open spec fn wf(self) -> bool {
        forall|b: int|
            0 <= b < self.multis@.len() ==> match #[trigger] self.multis@[b] {
                Some(run) => run.0 + run.1 <= self.parts@.len(),
                None => true,
            }
    }

    /// The parts of multi graphic `id`, or nothing where the table has no
    /// entry.
    pub open spec fn parts_spec(self, id: int) -> Seq<MultiPart> {
        if 0 <= id < self.multis@.len() {
            match self.multis@[id] {
                Some(run) => self.parts@.subrange(run.0 as int, run.0 + run.1),
                None => Seq::empty(),
            }
        } else {
            Seq::empty()
        }
    }

    /// Builds a table directly from its parts.
    pub fn new(parts: Vec<MultiPart>, multis: Vec<Option<MulSlice>>) -> (r: Multi)
        requires
            (Multi { parts: parts, multis: multis }).wf(),
        ensures
            r.wf(),
            r.parts == parts,
            r.multis == multis,
    {
        Multi { parts, multis }
    }

    pub fn multi_parts(&self, multi_id: u16) -> (r: Vec<MultiPart>)
        requires
            self.wf(),
            (multi_id as int) < self.multis@.len(),
        ensures
            r@ == self.parts_spec(multi_id as int),
    {
        let mut r: Vec<MultiPart> = Vec::new();
        match self.multis[multi_id as usize] {
            None => {
                proof {
                    assert(r@ =~= self.parts_spec(multi_id as int));
                }
            },
            Some(MulSlice(start, count)) => {
                let n: usize = self.parts.len();
                let mut k: usize = 0;
                while k < count
                    invariant
                        k <= count,
                        start + count <= n == self.parts@.len(),
                        r@.len() == k,
                        forall|i: int| 0 <= i < k ==> r@[i] == self.parts@[start + i],
                    decreases count - k,
                {
                    r.push(self.parts[start + k]);
                    k = k + 1;
                }
                proof {
                    assert(r@ =~= self.parts_spec(multi_id as int));
                }
            },
        }
        r
    }
}

/// The part record stored at byte offset `pos`; the newer layout carries
/// four extra bytes that the table does not keep.
pub open spec fn parse_multi_part(data: Seq<u8>, pos: int) -> MultiPart {
    MultiPart {
        static_tile: le_u16(data, pos),
        x: le_u16(data, pos + 2) as i16,
        y: le_u16(data, pos + 4) as i16,
        z: le_u16(data, pos + 6) as i16,
        flags: le_u32(data, pos + 8),
    }
}

/// Whether index entry `b` is absent or has a length divisible by `rec`.
pub open spec fn multi_entry_divides(idx: Seq<u8>, b: int, rec: int) -> bool {
    le_u32(idx, b * 12) == 0xFFFF_FFFFu32 || (le_u32(idx, b * 12 + 4) as int) % rec == 0
}

/// Whether every run named by the index divides evenly into `rec`-byte
/// records.
pub open spec fn multi_lengths_divide(idx: Seq<u8>, rec: int) -> bool {
    forall|b: int| 0 <= b < idx.len() as int / 12 ==> #[trigger] multi_entry_divides(idx, b, rec)
}

/// Extends the running divisibility flag by one entry.
proof fn lemma_div_flag_step(idx: Seq<u8>, b: int, rec: int, old_flag: bool, new_flag: bool)
    requires
        0 <= b,
        old_flag == (forall|k: int| 0 <= k < b ==> #[trigger] multi_entry_divides(idx, k, rec)),
        new_flag == (old_flag && multi_entry_divides(idx, b, rec)),
    ensures
        new_flag == (forall|k: int| 0 <= k < b + 1 ==> #[trigger] multi_entry_divides(idx, k, rec)),
{
    if new_flag {
        assert forall|k: int| 0 <= k < b + 1 implies #[trigger] multi_entry_divides(
            idx,
            k,
            rec,
        ) by {
            if k < b {
            }
        }
    } else if old_flag {
        assert(!multi_entry_divides(idx, b, rec));
    } else {
        let k0 = choose|k: int| 0 <= k < b && !#[trigger] multi_entry_divides(idx, k, rec);
        assert(0 <= k0 < b + 1 && !multi_entry_divides(idx, k0, rec));
    }
}

/// The detected record size: exactly one of the two sizes must fit.
pub open spec fn multi_record_size(idx: Seq<u8>) -> Option<int> {
    if multi_lengths_divide(idx, 12) && !multi_lengths_divide(idx, 16) {
        Some(12int)
    } else if multi_lengths_divide(idx, 16) && !multi_lengths_divide(idx, 12) {
        Some(16int)
    } else {
        None
    }
}

/// Every referenced run lies inside the data buffer.
pub open spec fn multi_runs_in_bounds(idx: Seq<u8>, data: Seq<u8>, rec: int) -> bool {
    forall|b: int|
        0 <= b < idx.len() as int / 12 ==> (#[trigger] le_u32(idx, b * 12) == 0xFFFF_FFFFu32 || (
        le_u32(idx, b * 12) as int) / rec + (le_u32(idx, b * 12 + 4) as int) / rec <= data.len()
            as int / rec)
}

impl Multi {
    /// Decodes the multi index and data buffers: detects the record size,
    /// then builds one run of parts per multi graphic. Fails exactly when
    /// the record size is ambiguous or a run lies outside the data buffer.
    pub fn read(idx_data: &[u8], data: &[u8]) -> (r: Option<Multi>)
        requires
            idx_data@.len() <= 0x1000_0000,
            data@.len() <= 0x1000_0000,
        ensures
            r.is_some() <==> (multi_record_size(idx_data@) matches Some(rec)
                && multi_runs_in_bounds(idx_data@, data@, rec)),
            r matches Some(m) ==> {
                let rec = multi_record_size(idx_data@)->Some_0;
                &&& m.wf()
                &&& m.multis@.len() == idx_data@.len() as int / 12
                &&& m.parts@.len() == data@.len() as int / rec
                &&& forall|k: int|
                    0 <= k < m.parts@.len() ==> m.parts@[k] == parse_multi_part(data@, k * rec)
                &&& forall|b: int|
                    0 <= b < m.multis@.len() ==> {
                        if #[trigger] le_u32(idx_data@, b * 12) == 0xFFFF_FFFFu32 {
                            m.multis@[b] matches None
                        } else {
                            m.multis@[b] matches Some(run) && run.0 == (le_u32(idx_data@, b * 12)
                                as int) / rec && run.1 == (le_u32(idx_data@, b * 12 + 4) as int)
                                / rec
                        }
                    }
            },
    {
        let idx_count: usize = idx_data.len() / 12;
        let mut pre7090: bool = true;
        let mut is7090: bool = true;
        let mut b: usize = 0;
        while b < idx_count
            invariant
                b <= idx_count,
                idx_count == idx_data@.len() as int / 12,
                idx_data@.len() <= 0x1000_0000,
                pre7090 == (forall|k: int|
                    0 <= k < b ==> #[trigger] multi_entry_divides(idx_data@, k, 12)),
                is7090 == (forall|k: int|
                    0 <= k < b ==> #[trigger] multi_entry_divides(idx_data@, k, 16)),
            decreases idx_count - b,
        {
            proof {
                let ic = idx_count as int;
                let nn = idx_data@.len() as int;
                assert(b * 12 + 12 <= ic * 12) by (nonlinear_arith)
                    requires
                        b + 1 <= ic,
                ;
                assert(ic * 12 <= nn) by (nonlinear_arith)
                    requires
                        (ic == nn / 12) && (0 <= nn),
                ;
            }
            let off: u32 = mul_read_u32(idx_data, b * 12);
            let len: u32 = mul_read_u32(idx_data, b * 12 + 4);
            let ghost old_pre = pre7090;
            let ghost old_is = is7090;
            if off != 0xFFFF_FFFF {
                pre7090 = pre7090 && (len % 12 == 0);
                is7090 = is7090 && (len % 16 == 0);
            }
            proof {
                let bi = b as int;
                assert(pre7090 == (old_pre && multi_entry_divides(idx_data@, bi, 12)));
                assert(is7090 == (old_is && multi_entry_divides(idx_data@, bi, 16)));
                lemma_div_flag_step(idx_data@, bi, 12, old_pre, pre7090);
                lemma_div_flag_step(idx_data@, bi, 16, old_is, is7090);
            }
            b = b + 1;
        }
        if pre7090 && is7090 || (!pre7090 && !is7090) {
            return None;
        }
        let rec: usize = if is7090 {
            16
        } else {
            12
        };
        let parts_count: usize = data.len() / rec;
        let mut multis: Vec<Option<MulSlice>> = Vec::new();
        let mut i: usize = 0;
        while i < idx_count
            invariant
                i <= idx_count,
                idx_count == idx_data@.len() as int / 12,
                idx_data@.len() <= 0x1000_0000,
                data@.len() <= 0x1000_0000,
                (rec == 12 || rec == 16),
                multi_record_size(idx_data@) == Some(rec as int),
                parts_count == data@.len() as int / (rec as int),
                multis@.len() == i,
                forall|k: int|
                    0 <= k < i ==> {
                        if #[trigger] le_u32(idx_data@, k * 12) == 0xFFFF_FFFFu32 {
                            multis@[k] matches None
                        } else {
                            multis@[k] matches Some(run) && run.0 == (le_u32(idx_data@, k * 12)
                                as int) / (rec as int) && run.1 == (le_u32(idx_data@, k * 12 + 4)
                                as int) / (rec as int) && run.0 + run.1 <= parts_count
                        }
                    },
            decreases idx_count - i,
        {
            proof {
                let ic = idx_count as int;
                let nn = idx_data@.len() as int;
                assert(i * 12 + 12 <= ic * 12) by (nonlinear_arith)
                    requires
                        i + 1 <= ic,
                ;
                assert(ic * 12 <= nn) by (nonlinear_arith)
                    requires
                        (ic == nn / 12) && (0 <= nn),
                ;
            }
            let off: u32 = mul_read_u32(idx_data, i * 12);
            let len: u32 = mul_read_u32(idx_data, i * 12 + 4);
            if off != 0xFFFF_FFFF {
                let index: usize = (off as usize) / rec;
                let count: usize = (len as usize) / rec;
                if index > parts_count || count > parts_count - index {
                    proof {
                        let ii = i as int;
                        if multi_runs_in_bounds(idx_data@, data@, rec as int) {
                            assert(le_u32(idx_data@, ii * 12) == 0xFFFF_FFFFu32 || (le_u32(
                                idx_data@,
                                ii * 12,
                            ) as int) / (rec as int) + (le_u32(idx_data@, ii * 12 + 4) as int) / (
                            rec as int) <= data@.len() as int / (rec as int));
                            assert(false);
                        }
                    }
                    return None;
                }
                multis.push(Some(MulSlice(index, count)));
            } else {
                multis.push(None);
            }
            i = i + 1;
        }
        let mut parts: Vec<MultiPart> = Vec::new();
        let mut k: usize = 0;
        while k < parts_count
            invariant
                k <= parts_count,
                data@.len() <= 0x1000_0000,
                idx_data@.len() <= 0x1000_0000,
                (rec == 12 || rec == 16),
                multi_record_size(idx_data@) == Some(rec as int),
                parts_count == data@.len() as int / (rec as int),
                idx_count == idx_data@.len() as int / 12,
                multis@.len() == idx_count,
                forall|j: int|
                    0 <= j < multis@.len() ==> {
                        if #[trigger] le_u32(idx_data@, j * 12) == 0xFFFF_FFFFu32 {
                            multis@[j] matches None
                        } else {
                            multis@[j] matches Some(run) && run.0 == (le_u32(idx_data@, j * 12)
                                as int) / (rec as int) && run.1 == (le_u32(idx_data@, j * 12 + 4)
                                as int) / (rec as int) && run.0 + run.1 <= parts_count
                        }
                    },
                parts@.len() == k,
                forall|j: int|
                    0 <= j < k ==> parts@[j] == parse_multi_part(data@, j * (rec as int)),
            decreases parts_count - k,
        {
            proof {
                let pc = parts_count as int;
                let nn = data@.len() as int;
                let rc = rec as int;
                assert((k + 1) * rc <= pc * rc) by (nonlinear_arith)
                    requires
                        k + 1 <= pc && (rc == 12 || rc == 16),
                ;
                assert(pc * rc <= nn) by (nonlinear_arith)
                    requires
                        (pc == nn / rc) && (0 <= nn) && (rc == 12 || rc == 16),
                ;
                assert(k * rc + 12 <= (k + 1) * rc) by (nonlinear_arith)
                    requires
                        (rc == 12 || rc == 16) && 0 <= k,
                ;
            }
            let base: usize = k * rec;
            let part = MultiPart {
                static_tile: mul_read_u16(data, base),
                x: mul_read_i16(data, base + 2),
                y: mul_read_i16(data, base + 4),
                z: mul_read_i16(data, base + 6),
                flags: mul_read_u32(data, base + 8),
            };
            parts.push(part);
            k = k + 1;
        }
        proof {
            assert forall|bb: int| 0 <= bb < idx_data@.len() as int / 12 implies (#[trigger] le_u32(
                idx_data@,
                bb * 12,
            ) == 0xFFFF_FFFFu32 || (le_u32(idx_data@, bb * 12) as int) / (rec as int) + (le_u32(
                idx_data@,
                bb * 12 + 4,
            ) as int) / (rec as int) <= data@.len() as int / (rec as int)) by {
                if le_u32(idx_data@, bb * 12) != 0xFFFF_FFFFu32 {
                    assert(multis@[bb] matches Some(run) && run.0 + run.1 <= parts_count);
                }
            }
            assert(multi_runs_in_bounds(idx_data@, data@, rec as int));
            assert(multi_record_size(idx_data@)->Some_0 == rec as int);
            assert forall|b2: int| 0 <= b2 < multis@.len() implies match #[trigger] multis@[b2] {
                Some(run) => run.0 + run.1 <= parts@.len(),
                None => true,
            } by {
                if le_u32(idx_data@, b2 * 12) != 0xFFFF_FFFFu32 {
                    assert(multis@[b2] matches Some(run) && run.0 + run.1 <= parts_count);
                }
            }
        }
        Some(Multi { parts, multis })
    }
}

} // verus!
