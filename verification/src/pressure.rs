//! Register pressure tracking.
//!
//! SSA-based register allocation needs a spilling phase that lowers register
//! pressure far enough that the later coloring phase cannot run out of
//! registers. Counting live registers is complicated by two facts: registers
//! come in separate banks (integer and floating point, say), and some banks
//! contain several top-level register classes whose registers alias each
//! other, for example a bank where two narrow registers overlap one wide
//! register.
//!
//! This module counts allocated registers per top-level register class and
//! answers whether one more register of a class can be allocated. For a bank
//! with several top-level classes the answer converts every aliasing class's
//! usage into register units on the queried class's scale, with a conservative
//! cross-width estimate.

use vstd::prelude::*;
use vstd::pervasive::VecAdditionalExecFns;

verus! {

/// Upper bound on the number of top-level register classes a target may have.
pub const MAX_TOPRCS: usize = 8;

/// Bookkeeping for one top-level register class. Everything but `count` is
/// static information computed by the constructor.
#[derive(Clone, Copy, PartialEq, Eq, Structural)]
pub struct TopRC {
    /// Number of registers currently taken from this class.
    pub count: u32,
    /// Max number of registers that can be allocated from this class.
    pub limit: u32,
    /// Register units per register.
    pub width: u8,
    /// The first aliasing top-level class (the start of this class's bank).
    pub first_toprc: u8,
    /// The number of aliasing top-level classes (the size of this class's bank).
    pub num_toprcs: u8,
}

/// A register bank: a contiguous range of top-level register class ids that
/// share one physical register file and may alias each other.
#[derive(Clone, Copy)]
pub struct RegBank {
    /// Id of the first top-level register class in this bank.
    pub first_toprc: usize,
    /// Number of top-level register classes in this bank.
    pub num_toprcs: usize,
}

/// Static data for one top-level register class.
#[derive(Clone, Copy)]
pub struct RegClassData {
    /// Register units per register of this class.
    pub width: u8,
}

/// The register-class topology of a target: its banks, and per top-level
/// class its width. Banks tile the class ids from 0 up in order.
pub struct RegInfo {
    /// The banks, in increasing order of class ids, tiling all class ids.
    pub banks: Vec<RegBank>,
    /// Per-class static data, indexed by top-level class id.
    pub classes: Vec<RegClassData>,
}

/// A reference to a register class, reduced to the id of its unique top-level
/// register class, which is the unit of pressure counting.
#[derive(Clone, Copy)]
pub struct RegClass {
    /// Id of the top-level register class.
    pub toprc: u8,
}

/// The mathematical state of a pressure tracker.
#[verifier::ext_equal]
pub ghost struct PressureModel {
    /// Bit mask of top-level register classes that belong to a bank with more
    /// than one top-level class.
    pub aliased: u32,
    /// Per-class records, indexed by top-level class id.
    pub toprc: Seq<TopRC>,
}

/// Register pressure tracker: per-class allocation counts plus the static
/// register-class topology, able to say whether one more register of a class
/// can be allocated without exceeding physical limits.
pub struct Pressure {
    aliased: u32,
    toprc: Vec<TopRC>,
}

impl View for Pressure {
    type V = PressureModel;

    closed spec fn view(&self) -> PressureModel {
        PressureModel { aliased: self.aliased, toprc: self.toprc@ }
    }
}

pub open spec fn spec_min(a: int, b: int) -> int {
    if a < b {
        a
    } else {
        b
    }
}

/// The capacity of class `e` expressed in register units.
pub open spec fn ulimit(e: TopRC) -> int {
    e.limit * e.width
}

/// The worst-case number of register units that class `rc`'s current usage can
/// occupy, on the scale of a queried class of width `width`. A class of
/// smaller width can block one full register of the queried class per
/// allocated register, but never more units than it could ever physically
/// hold.
pub open spec fn contribution(rc: TopRC, width: int) -> int {
    if (rc.width as int) < width {
        spec_min(rc.count * width, rc.limit * rc.width)
    } else {
        rc.count * rc.width
    }
}

/// Sum of the unit contributions of all classes in `s` on scale `width`.
pub open spec fn units_sum(s: Seq<TopRC>, width: int) -> int
    decreases s.len(),
{
    if s.len() == 0 {
        0
    } else {
        units_sum(s.drop_last(), width) + contribution(s.last(), width)
    }
}

/// Whether some class in `s` on its own contributes at least `ul` units.
pub open spec fn has_offender(s: Seq<TopRC>, width: int, ul: int) -> bool {
    exists|i: int| 0 <= i < s.len() && contribution(s[i], width) >= ul
}

/// Index of the first class in `s` that on its own contributes at least `ul`
/// units, assuming there is one.
pub open spec fn first_offender(s: Seq<TopRC>, width: int, ul: int) -> int
    decreases s.len(),
{
    if s.len() == 0 {
        0
    } else if contribution(s[0], width) >= ul {
        0
    } else {
        1 + first_offender(s.drop_first(), width, ul)
    }
}

/// The bit mask selecting class ids `first .. first + num`.
pub open spec fn range_mask(first: int, num: int) -> u32 {
    (((1u64 << (num as u64)) - 1) as u32) << (first as u32)
}

/// What an availability query for a class of a multi-class bank returns:
/// 0 when one more register of class `e` fits; the single bit of the first
/// aliasing class whose own usage already fills `e`'s capacity, if any; else
/// the mask of the whole bank when the summed usage fills the capacity.
pub open spec fn check_avail_aliased_spec(s: Seq<TopRC>, e: TopRC) -> u32 {
    let first = e.first_toprc as int;
    let num = e.num_toprcs as int;
    let w = e.width as int;
    let ul = ulimit(e);
    let sub = s.subrange(first, first + num);
    if has_offender(sub, w, ul) {
        1u32 << ((first + first_offender(sub, w, ul)) as u32)
    } else if units_sum(sub, w) >= ul {
        range_mask(first, num)
    } else {
        0u32
    }
}

/// What an availability query for class id `c` returns: 0 when one more
/// register fits, else a mask of top-level classes whose pressure must be
/// eased first.
pub open spec fn check_avail_spec(m: PressureModel, c: int) -> u32 {
    let e = m.toprc[c];
    if m.aliased & (1u32 << (c as u32)) == 0 {
        if e.count < e.limit {
            0u32
        } else {
            1u32 << (c as u32)
        }
    } else {
        check_avail_aliased_spec(m.toprc, e)
    }
}

/// Well-formed per-class records: every class lies inside its bank, banks lie
/// inside the table, and widths are positive.
pub open spec fn wf_classes(s: Seq<TopRC>) -> bool {
    &&& s.len() <= MAX_TOPRCS
    &&& forall|i: int|
        0 <= i < s.len() ==> {
            let e = #[trigger] s[i];
            &&& e.first_toprc as int <= i
            &&& i < e.first_toprc + e.num_toprcs
            &&& e.first_toprc + e.num_toprcs <= s.len()
            &&& e.width >= 1
        }
}

pub open spec fn wf_model(m: PressureModel) -> bool {
    wf_classes(m.toprc)
}

/// The state after taking one register of class `c`.
pub open spec fn take_spec(m: PressureModel, c: int) -> PressureModel {
    PressureModel {
        aliased: m.aliased,
        toprc: m.toprc.update(c, TopRC { count: (m.toprc[c].count + 1) as u32, ..m.toprc[c] }),
    }
}

/// The state after freeing one register of class `c`.
pub open spec fn free_spec(m: PressureModel, c: int) -> PressureModel {
    PressureModel {
        aliased: m.aliased,
        toprc: m.toprc.update(c, TopRC { count: (m.toprc[c].count - 1) as u32, ..m.toprc[c] }),
    }
}

/// The state after resetting all counts to zero.
pub open spec fn reset_spec(m: PressureModel) -> PressureModel {
    PressureModel {
        aliased: m.aliased,
        toprc: Seq::new(m.toprc.len(), |i: int| TopRC { count: 0, ..m.toprc[i] }),
    }
}

/// Whether `banks` are in increasing order of class ids and exactly tile the
/// ids `start .. end`.
pub open spec fn banks_tile(banks: Seq<RegBank>, start: int, end: int) -> bool
    decreases banks.len(),
{
    if banks.len() == 0 {
        start == end
    } else {
        &&& banks[0].first_toprc == start
        &&& banks[0].num_toprcs >= 1
        &&& start + banks[0].num_toprcs <= end
        &&& banks_tile(banks.drop_first(), start + banks[0].num_toprcs, end)
    }
}

/// The bank that class id `i` belongs to.
pub open spec fn bank_of(banks: Seq<RegBank>, i: int) -> RegBank
    decreases banks.len(),
{
    if banks.len() == 0 {
        RegBank { first_toprc: 0, num_toprcs: 0 }
    } else if i < banks[0].first_toprc + banks[0].num_toprcs {
        banks[0]
    } else {
        bank_of(banks.drop_first(), i)
    }
}

/// The mask of all classes that belong to a bank with more than one top-level
/// class.
pub open spec fn alias_mask_spec(banks: Seq<RegBank>) -> u32
    decreases banks.len(),
{
    if banks.len() == 0 {
        0u32
    } else {
        let rest = alias_mask_spec(banks.drop_last());
        let b = banks.last();
        if b.num_toprcs > 1 {
            rest | range_mask(b.first_toprc as int, b.num_toprcs as int)
        } else {
            rest
        }
    }
}

impl RegInfo {
    /// A usable topology: at most `MAX_TOPRCS` classes, banks tiling all class
    /// ids in order, every width positive.
    pub open spec fn wf(&self) -> bool {
        &&& self.classes@.len() <= MAX_TOPRCS
        &&& banks_tile(self.banks@, 0, self.classes@.len() as int)
        &&& forall|i: int|
            0 <= i < self.classes@.len() ==> (#[trigger] self.classes@[i]).width >= 1
    }
}

/// For a tiled bank list, `bank_of` maps every id in a bank's range to that
/// bank.
proof fn lemma_bank_of(banks: Seq<RegBank>, start: int, end: int, b: int, i: int)
    requires
        banks_tile(banks, start, end),
        0 <= b < banks.len(),
        banks[b].first_toprc <= i < banks[b].first_toprc + banks[b].num_toprcs,
    ensures
        bank_of(banks, i) == banks[b],
    decreases b,
{
    if b == 0 {
    } else {
        lemma_bank_of(banks.drop_first(), start + banks[0].num_toprcs, end, b - 1, i);
        assert(banks.drop_first()[b - 1] == banks[b]);
        assert(banks_tile(banks.drop_first(), start + banks[0].num_toprcs, end));
        lemma_tile_starts(banks.drop_first(), start + banks[0].num_toprcs, end, b - 1);
        assert(i >= banks[0].first_toprc + banks[0].num_toprcs);
    }
}

/// In a tiled bank list every bank starts at or after the tile's start.
proof fn lemma_tile_starts(banks: Seq<RegBank>, start: int, end: int, b: int)
    requires
        banks_tile(banks, start, end),
        0 <= b < banks.len(),
    ensures
        banks[b].first_toprc >= start,
        banks[b].first_toprc + banks[b].num_toprcs <= end,
    decreases b,
{
    if b == 0 {
        lemma_tile_end(banks.drop_first(), start + banks[0].num_toprcs, end);
    } else {
        lemma_tile_starts(banks.drop_first(), start + banks[0].num_toprcs, end, b - 1);
        assert(banks.drop_first()[b - 1] == banks[b]);
    }
}

/// A tiled range is not empty-reversed: its start is at most its end.
proof fn lemma_tile_end(banks: Seq<RegBank>, start: int, end: int)
    requires
        banks_tile(banks, start, end),
    ensures
        start <= end,
    decreases banks.len(),
{
    if banks.len() == 0 {
    } else {
        lemma_tile_end(banks.drop_first(), start + banks[0].num_toprcs, end);
    }
}

/// Well-formedness only reads the static fields, so any sequence with the same
/// statics as a well-formed one is well-formed.
proof fn lemma_wf_statics(s1: Seq<TopRC>, s2: Seq<TopRC>)
    requires
        wf_classes(s1),
        s1.len() == s2.len(),
        forall|i: int|
            0 <= i < s2.len() ==> (#[trigger] s2[i]).limit == s1[i].limit && s2[i].width == s1[i].width
                && s2[i].first_toprc == s1[i].first_toprc && s2[i].num_toprcs == s1[i].num_toprcs,
    ensures
        wf_classes(s2),
{
}

/// If every class before `m` contributes less than `ul` and class `m` reaches
/// `ul`, then `m` is the first offender.
proof fn lemma_first_offender(s: Seq<TopRC>, w: int, ul: int, m: int)
    requires
        0 <= m < s.len(),
        forall|k: int| 0 <= k < m ==> contribution(#[trigger] s[k], w) < ul,
        contribution(s[m], w) >= ul,
    ensures
        has_offender(s, w, ul),
        first_offender(s, w, ul) == m,
    decreases m,
{
    assert(has_offender(s, w, ul)) by {
        assert(0 <= m < s.len() && contribution(s[m], w) >= ul);
    }
    if m > 0 {
        let t = s.drop_first();
        assert forall|k: int| 0 <= k < m - 1 implies contribution(#[trigger] t[k], w) < ul by {
            assert(t[k] == s[k + 1]);
        }
        assert(t[m - 1] == s[m]);
        lemma_first_offender(t, w, ul, m - 1);
    }
}

/// For a shift amount of at most 8, `1 << n` lies between 1 and 256.
proof fn lemma_low_mask_bound(n: u64)
    requires
        n <= 8,
    ensures
        1 <= (1u64 << n) <= 0x100,
{
    assert(n <= 8 ==> 1 <= (1u64 << n) <= 0x100) by (bit_vector);
}

/// The product of a count at most `u32::MAX` and a width at most `u8::MAX`
/// stays below 2^40.
proof fn lemma_mul_bound(x: u64, y: u64)
    requires
        x <= 0xFFFF_FFFF,
        y <= 0xFF,
    ensures
        x * y < 0x100_0000_0000,
{
    assert(x * y < 0x100_0000_0000) by (nonlinear_arith)
        requires
            x <= 0xFFFF_FFFFu64,
            y <= 0xFFu64,
    ;
}

impl Pressure {
    /// The tracker's well-formedness: its class table is well-formed.
    pub open spec fn wf(&self) -> bool {
        wf_model(self@)
    }

    /// Create a new register pressure tracker for the topology `reginfo`, with
    /// `usable[c]` usable registers in top-level class `c` (each class's
    /// allocation limit).
    #[verifier::loop_isolation(false)]
    pub fn new(reginfo: &RegInfo, usable: &Vec<u32>) -> (p: Pressure)
        requires
            reginfo.wf(),
            usable@.len() == reginfo.classes@.len(),
        ensures
            p.wf(),
            p@.toprc.len() == reginfo.classes@.len(),
            forall|i: int|
                0 <= i < p@.toprc.len() ==> {
                    let e = #[trigger] p@.toprc[i];
                    &&& e.count == 0
                    &&& e.limit == usable@[i]
                    &&& e.width == reginfo.classes@[i].width
                    &&& e.first_toprc as int == bank_of(reginfo.banks@, i).first_toprc
                    &&& e.num_toprcs as int == bank_of(reginfo.banks@, i).num_toprcs
                },
            p@.aliased == alias_mask_spec(reginfo.banks@),
    {
        let ghost gbanks = reginfo.banks@;
        let ghost n = reginfo.classes@.len() as int;
        let mut toprc: Vec<TopRC> = Vec::new();
        let mut aliased: u32 = 0;
        let mut b: usize = 0;
        proof {
            assert(gbanks.skip(0) =~= gbanks);
            assert(gbanks.take(0) =~= Seq::<RegBank>::empty());
        }
        while b < reginfo.banks.len()
            invariant
                banks_tile(gbanks.skip(b as int), toprc@.len() as int, n),
                toprc@.len() <= n,
                aliased == alias_mask_spec(gbanks.take(b as int)),
                b <= gbanks.len(),
                forall|i: int|
                    0 <= i < toprc@.len() ==> {
                        let e = #[trigger] toprc@[i];
                        &&& e.count == 0
                        &&& e.limit == usable@[i]
                        &&& e.width == reginfo.classes@[i].width
                        &&& e.first_toprc as int == bank_of(gbanks, i).first_toprc
                        &&& e.num_toprcs as int == bank_of(gbanks, i).num_toprcs
                        &&& e.first_toprc as int <= i < e.first_toprc + e.num_toprcs
                        &&& e.first_toprc + e.num_toprcs <= n
                    },
            decreases gbanks.len() - b,
        {
            let bank = reginfo.banks[b];
            let first = bank.first_toprc;
            let num = bank.num_toprcs;
            proof {
                assert(gbanks.skip(b as int)[0] == gbanks[b as int]);
                assert(first == toprc@.len());
                lemma_tile_end(gbanks.skip(b as int).drop_first(), first + num, n);
            }
            let ghost len0 = toprc@.len() as int;
            let mut k: usize = 0;
            while k < num
                invariant
                    toprc@.len() == len0 + k,
                    k <= num,
                    first == len0,
                    first + num <= n,
                    forall|i: int|
                        len0 <= i < toprc@.len() ==> {
                            let e = #[trigger] toprc@[i];
                            &&& e.count == 0
                            &&& e.limit == usable@[i]
                            &&& e.width == reginfo.classes@[i].width
                            &&& e.first_toprc == first
                            &&& e.num_toprcs == num
                        },
                    forall|i: int|
                        0 <= i < len0 ==> {
                            let e = #[trigger] toprc@[i];
                            &&& e.count == 0
                            &&& e.limit == usable@[i]
                            &&& e.width == reginfo.classes@[i].width
                            &&& e.first_toprc as int == bank_of(gbanks, i).first_toprc
                            &&& e.num_toprcs as int == bank_of(gbanks, i).num_toprcs
                            &&& e.first_toprc as int <= i < e.first_toprc + e.num_toprcs
                            &&& e.first_toprc + e.num_toprcs <= n
                        },
                decreases num - k,
            {
                let idx = first + k;
                toprc.push(
                    TopRC {
                        count: 0,
                        limit: usable[idx],
                        width: reginfo.classes[idx].width,
                        first_toprc: first as u8,
                        num_toprcs: num as u8,
                    },
                );
                k = k + 1;
            }
            if num > 1 {
                proof {
                    lemma_low_mask_bound(num as u64);
                }
                let low = ((1u64 << (num as u64)) - 1) as u32;
                aliased = aliased | (low << (first as u32));
            }
            proof {
                assert forall|i: int| len0 <= i < toprc@.len() implies (#[trigger] toprc@[i]).first_toprc as int
                    == bank_of(gbanks, i).first_toprc && toprc@[i].num_toprcs as int == bank_of(
                    gbanks,
                    i,
                ).num_toprcs by {
                    lemma_bank_of(gbanks, 0, n, b as int, i);
                }
                assert(gbanks.take(b as int + 1).drop_last() =~= gbanks.take(b as int));
                assert(gbanks.take(b as int + 1).last() == gbanks[b as int]);
                assert(gbanks.skip(b as int).drop_first() =~= gbanks.skip(b as int + 1));
            }
            b = b + 1;
        }
        proof {
            assert(gbanks.take(gbanks.len() as int) =~= gbanks);
        }
        let p = Pressure { aliased, toprc };
        proof {
            assert(p@.toprc.len() == n);
        }
        p
    }

    /// Check for an available register in the register class `rc`.
    ///
    /// Returns 0 when one more register of `rc`'s top-level class can be
    /// allocated. Otherwise returns a bit mask of the top-level register
    /// classes that are interfering; pressure should be eased in one of them
    /// before checking again.
    pub fn check_avail(&self, rc: RegClass) -> (r: u32)
        requires
            self.wf(),
            (rc.toprc as int) < self@.toprc.len(),
        ensures
            r == check_avail_spec(self@, rc.toprc as int),
    {
        let idx = rc.toprc as usize;
        let entry = self.toprc[idx];
        let mask = 1u32 << (rc.toprc as u32);
        if self.aliased & mask == 0 {
            if entry.count < entry.limit {
                0
            } else {
                mask
            }
        } else {
            self.check_avail_aliased(entry)
        }
    }

    /// Check for an available register in a top-level class whose bank may
    /// hold aliasing classes: the out-of-line slow path of `check_avail`.
    #[verifier::loop_isolation(false)]
    fn check_avail_aliased(&self, entry: TopRC) -> (r: u32)
        requires
            self.wf(),
            entry.first_toprc + entry.num_toprcs <= self@.toprc.len(),
        ensures
            r == check_avail_aliased_spec(self@.toprc, entry),
    {
        let ghost s = self@.toprc;
        let first = entry.first_toprc as usize;
        let num = entry.num_toprcs as usize;
        let width = entry.width as u64;
        let ghost w = entry.width as int;
        proof {
            lemma_mul_bound(entry.limit as u64, width);
        }
        let ulim: u64 = entry.limit as u64 * width;
        let ghost sub = s.subrange(first as int, first as int + num as int);
        let mut units: u64 = 0;
        let mut i: usize = first;
        while i < first + num
            invariant
                first <= i <= first + num,
                first + num <= s.len() <= MAX_TOPRCS,
                units == units_sum(s.subrange(first as int, i as int), w),
                units <= (i - first) * 0x100_0000_0000u64,
                forall|j: int| first <= j < i ==> contribution(#[trigger] s[j], w) < ulim,
                width == entry.width as u64,
                w == entry.width as int,
                ulim == ulimit(entry),
                s == self@.toprc,
            decreases first + num - i,
        {
            let rc = self.toprc[i];
            let rcw = rc.width as u64;
            proof {
                lemma_mul_bound(rc.count as u64, width);
                lemma_mul_bound(rc.count as u64, rcw);
                lemma_mul_bound(rc.limit as u64, rcw);
            }
            let u: u64 = if rcw < width {
                let a = rc.count as u64 * width;
                let bb = rc.limit as u64 * rcw;
                if a < bb {
                    a
                } else {
                    bb
                }
            } else {
                rc.count as u64 * rcw
            };
            proof {
                assert(u as int == contribution(s[i as int], w));
            }
            if u >= ulim {
                proof {
                    assert forall|k: int| 0 <= k < i - first implies contribution(
                        #[trigger] sub[k],
                        w,
                    ) < ulimit(entry) by {
                        assert(sub[k] == s[first + k]);
                    }
                    assert(sub[i - first] == s[i as int]);
                    lemma_first_offender(sub, w, ulimit(entry), i as int - first as int);
                }
                return 1u32 << (i as u32);
            }
            units = units + u;
            proof {
                assert(s.subrange(first as int, i as int + 1).drop_last() =~= s.subrange(
                    first as int,
                    i as int,
                ));
                assert(s.subrange(first as int, i as int + 1).last() == s[i as int]);
            }
            i = i + 1;
        }
        proof {
            assert forall|k: int| 0 <= k < sub.len() implies contribution(#[trigger] sub[k], w)
                < ulimit(entry) by {
                assert(sub[k] == s[first + k]);
            }
            assert(!has_offender(sub, w, ulimit(entry)));
            assert(units == units_sum(sub, w));
        }
        if units < ulim {
            0
        } else {
            proof {
                lemma_low_mask_bound(num as u64);
            }
            let low = ((1u64 << (num as u64)) - 1) as u32;
            low << (first as u32)
        }
    }

    /// Take a register from `rc`'s top-level class. The caller is meant to
    /// have seen `check_avail` return 0 for this class first; the tracker
    /// itself only needs the count not to wrap.
    pub fn take(&mut self, rc: RegClass)
        requires
            old(self).wf(),
            (rc.toprc as int) < old(self)@.toprc.len(),
            old(self)@.toprc[rc.toprc as int].count < u32::MAX,
        ensures
            final(self).wf(),
            final(self)@ == take_spec(old(self)@, rc.toprc as int),
    {
        let idx = rc.toprc as usize;
        let mut e = self.toprc[idx];
        e.count = e.count + 1;
        self.toprc.set(idx, e);
        proof {
            let m = take_spec(old(self)@, rc.toprc as int);
            assert(self@.toprc =~= m.toprc);
            assert(self@ =~= m);
            lemma_wf_statics(old(self)@.toprc, self@.toprc);
        }
    }

    /// Free a register in `rc`'s top-level class. Every free must pair with an
    /// earlier take: the class's count must be positive.
    pub fn free(&mut self, rc: RegClass)
        requires
            old(self).wf(),
            (rc.toprc as int) < old(self)@.toprc.len(),
            old(self)@.toprc[rc.toprc as int].count > 0,
        ensures
            final(self).wf(),
            final(self)@ == free_spec(old(self)@, rc.toprc as int),
    {
        let idx = rc.toprc as usize;
        let mut e = self.toprc[idx];
        e.count = e.count - 1;
        self.toprc.set(idx, e);
        proof {
            let m = free_spec(old(self)@, rc.toprc as int);
            assert(self@.toprc =~= m.toprc);
            assert(self@ =~= m);
            lemma_wf_statics(old(self)@.toprc, self@.toprc);
        }
    }

    /// Reset all counts to 0.
    #[verifier::loop_isolation(false)]
    pub fn reset(&mut self)
        requires
            old(self).wf(),
        ensures
            final(self).wf(),
            final(self)@ == reset_spec(old(self)@),
    {
        let n = self.toprc.len();
        let mut i: usize = 0;
        while i < n
            invariant
                n == self.toprc@.len(),
                i <= n,
                self@.aliased == old(self)@.aliased,
                forall|j: int|
                    0 <= j < n ==> #[trigger] self.toprc@[j] == (if j < i {
                        TopRC { count: 0, ..old(self)@.toprc[j] }
                    } else {
                        old(self)@.toprc[j]
                    }),
            decreases n - i,
        {
            let mut e = self.toprc[i];
            e.count = 0;
            self.toprc.set(i, e);
            i = i + 1;
        }
        proof {
            let m = reset_spec(old(self)@);
            assert(self@.toprc =~= m.toprc);
            assert(self@ =~= m);
            lemma_wf_statics(old(self)@.toprc, self@.toprc);
        }
    }
}

/// Dropping the last bank of a tiled list leaves a tiled list ending where
/// the last bank starts, and the last bank ends at the tile's end.
proof fn lemma_tile_drop_last(banks: Seq<RegBank>, start: int, end: int)
    requires
        banks_tile(banks, start, end),
        banks.len() > 0,
    ensures
        banks_tile(banks.drop_last(), start, banks.last().first_toprc as int),
        banks.last().first_toprc + banks.last().num_toprcs == end,
    decreases banks.len(),
{
    if banks.len() == 1 {
        assert(banks.drop_last() =~= Seq::<RegBank>::empty());
        assert(banks_tile(banks.drop_first(), start + banks[0].num_toprcs, end));
        assert(banks.drop_first().len() == 0);
        assert(start + banks[0].num_toprcs == end);
        assert(banks.last() == banks[0]);
    } else {
        lemma_tile_drop_last(banks.drop_first(), start + banks[0].num_toprcs, end);
        assert(banks.drop_first().last() == banks.last());
        assert(banks.drop_last().drop_first() =~= banks.drop_first().drop_last());
        assert(banks.drop_last()[0] == banks[0]);
    }
}

/// For an id before the last bank, the owning bank is unchanged by dropping
/// the last bank.
proof fn lemma_bank_of_drop_last(banks: Seq<RegBank>, start: int, end: int, i: int)
    requires
        banks_tile(banks, start, end),
        banks.len() > 1,
        i < banks.last().first_toprc,
    ensures
        bank_of(banks, i) == bank_of(banks.drop_last(), i),
    decreases banks.len(),
{
    lemma_tile_drop_last(banks, start, end);
    if i < banks[0].first_toprc + banks[0].num_toprcs {
        assert(banks.drop_last()[0] == banks[0]);
        assert(bank_of(banks, i) == banks[0]);
        assert(bank_of(banks.drop_last(), i) == banks[0]);
    } else {
        assert(banks.drop_first()[0] == banks[1]);
        assert(banks_tile(banks.drop_first(), start + banks[0].num_toprcs, end));
        assert(banks[1].first_toprc == start + banks[0].num_toprcs);
        if banks.len() == 2 {
            assert(banks.last() == banks[1]);
            assert(i < banks[1].first_toprc);
            assert(banks[0].first_toprc == start);
            assert(false);
        } else {
            lemma_bank_of_drop_last(banks.drop_first(), start + banks[0].num_toprcs, end, i);
            assert(banks.drop_first().last() == banks.last());
            assert(banks.drop_last().drop_first() =~= banks.drop_first().drop_last());
            assert(banks.drop_last()[0] == banks[0]);
        }
    }
}

/// Which bits a bank's range mask holds.
proof fn lemma_range_mask_bit(first: u32, num: u32, i: u32)
    requires
        first <= 8,
        num <= 8,
        i < 32,
    ensures
        range_mask(first as int, num as int) & (1u32 << i) == (if first <= i && i < first + num {
            1u32 << i
        } else {
            0u32
        }),
{
    assert(range_mask(first as int, num as int) == (((1u64 << (num as u64)) - 1) as u32) << first);
    assert(((((1u64 << (num as u64)) - 1) as u32) << first) & (1u32 << i) == (if first <= i && i
        < first + num {
        1u32 << i
    } else {
        0u32
    })) by (bit_vector)
        requires
            first <= 8u32,
            num <= 8u32,
            i < 32u32,
    ;
}

/// The alias mask holds no bit outside the tiled id range.
proof fn lemma_alias_mask_range(banks: Seq<RegBank>, start: int, end: int, i: u32)
    requires
        banks_tile(banks, start, end),
        0 <= start,
        end <= MAX_TOPRCS,
        i < 32,
        i < start || i >= end,
    ensures
        alias_mask_spec(banks) & (1u32 << i) == 0,
    decreases banks.len(),
{
    if banks.len() == 0 {
        assert(alias_mask_spec(banks) == 0);
        assert(0u32 & (1u32 << i) == 0) by (bit_vector);
    } else {
        let last = banks.last();
        lemma_tile_drop_last(banks, start, end);
        lemma_tile_starts(banks, start, end, banks.len() as int - 1);
        lemma_alias_mask_range(banks.drop_last(), start, last.first_toprc as int, i);
        let pre = alias_mask_spec(banks.drop_last());
        if last.num_toprcs > 1 {
            lemma_range_mask_bit(last.first_toprc as u32, last.num_toprcs as u32, i);
            let m = range_mask(last.first_toprc as int, last.num_toprcs as int);
            assert((pre | m) & (1u32 << i) == 0) by (bit_vector)
                requires
                    pre & (1u32 << i) == 0,
                    m & (1u32 << i) == 0,
            ;
        }
    }
}

/// Bit `i` of the alias mask built from a tiled bank list is set exactly
/// when the bank owning class id `i` holds more than one top-level class.
pub proof fn lemma_alias_mask_bit(banks: Seq<RegBank>, start: int, end: int, i: u32)
    requires
        banks_tile(banks, start, end),
        0 <= start,
        end <= MAX_TOPRCS,
        start <= i < end,
    ensures
        alias_mask_spec(banks) & (1u32 << i) == (if bank_of(banks, i as int).num_toprcs > 1 {
            1u32 << i
        } else {
            0u32
        }),
    decreases banks.len(),
{
    let last = banks.last();
    lemma_tile_drop_last(banks, start, end);
    lemma_tile_starts(banks, start, end, banks.len() as int - 1);
    let pre = alias_mask_spec(banks.drop_last());
    if i < last.first_toprc {
        lemma_alias_mask_bit(banks.drop_last(), start, last.first_toprc as int, i);
        lemma_bank_of_drop_last(banks, start, end, i as int);
        if last.num_toprcs > 1 {
            lemma_range_mask_bit(last.first_toprc as u32, last.num_toprcs as u32, i);
            let m = range_mask(last.first_toprc as int, last.num_toprcs as int);
            assert((pre | m) & (1u32 << i) == pre & (1u32 << i)) by (bit_vector)
                requires
                    m & (1u32 << i) == 0,
            ;
        }
    } else {
        lemma_bank_of(banks, start, end, banks.len() as int - 1, i as int);
        lemma_alias_mask_range(banks.drop_last(), start, last.first_toprc as int, i);
        if last.num_toprcs > 1 {
            lemma_range_mask_bit(last.first_toprc as u32, last.num_toprcs as u32, i);
            let m = range_mask(last.first_toprc as int, last.num_toprcs as int);
            assert((pre | m) & (1u32 << i) == 1u32 << i) by (bit_vector)
                requires
                    pre & (1u32 << i) == 0,
                    m & (1u32 << i) == 1u32 << i,
            ;
        }
    }
}

/// The state after `n` takes of class `c`, one at a time.
pub open spec fn takes_n(m: PressureModel, c: int, n: nat) -> PressureModel
    decreases n,
{
    if n == 0 {
        m
    } else {
        take_spec(takes_n(m, c, (n - 1) as nat), c)
    }
}

/// `n` takes of class `c` add `n` to its count and change nothing else.
proof fn lemma_takes_n(m: PressureModel, c: int, n: nat)
    requires
        0 <= c < m.toprc.len(),
        m.toprc[c].count + n <= u32::MAX,
    ensures
        takes_n(m, c, n).aliased == m.aliased,
        takes_n(m, c, n).toprc.len() == m.toprc.len(),
        takes_n(m, c, n).toprc[c] == (TopRC { count: (m.toprc[c].count + n) as u32, ..m.toprc[c] }),
        forall|i: int|
            0 <= i < m.toprc.len() && i != c ==> #[trigger] takes_n(m, c, n).toprc[i]
                == m.toprc[i],
    decreases n,
{
    if n > 0 {
        lemma_takes_n(m, c, (n - 1) as nat);
    }
}

/// Unaliased saturation law. For a class `c` in a bank of its own (its alias
/// bit is clear) whose count starts at zero and whose limit is `L`: after any
/// `n <= L` takes, availability checks answer 0 exactly while `n < L`; after
/// the `L`-th take the answer is exactly that class's own bit; and one free
/// restores availability.
pub proof fn lemma_unaliased_saturation(m: PressureModel, c: int, n: nat)
    requires
        0 <= c < m.toprc.len(),
        m.aliased & (1u32 << (c as u32)) == 0,
        m.toprc[c].count == 0,
        n <= m.toprc[c].limit,
    ensures
        n < m.toprc[c].limit ==> check_avail_spec(takes_n(m, c, n), c) == 0,
        n == m.toprc[c].limit ==> check_avail_spec(takes_n(m, c, n), c) == 1u32 << (c as u32),
        n == m.toprc[c].limit && n > 0 ==> check_avail_spec(free_spec(takes_n(m, c, n), c), c)
            == 0,
{
    lemma_takes_n(m, c, n);
}

/// Reset equivalence law. A tracker that went through any sequence of takes
/// and was then reset answers every availability query exactly as a freshly
/// constructed tracker with the same topology and usable-register set: both
/// have the same statics and all counts zero.
pub proof fn lemma_reset_equivalence(m: PressureModel, fresh: PressureModel, c: int)
    requires
        m.aliased == fresh.aliased,
        m.toprc.len() == fresh.toprc.len(),
        forall|i: int|
            #![trigger m.toprc[i], fresh.toprc[i]]
            0 <= i < m.toprc.len() ==> m.toprc[i].limit == fresh.toprc[i].limit && m.toprc[i].width
                == fresh.toprc[i].width && m.toprc[i].first_toprc == fresh.toprc[i].first_toprc
                && m.toprc[i].num_toprcs == fresh.toprc[i].num_toprcs,
        forall|i: int| 0 <= i < fresh.toprc.len() ==> (#[trigger] fresh.toprc[i]).count == 0,
        0 <= c < m.toprc.len(),
    ensures
        check_avail_spec(reset_spec(m), c) == check_avail_spec(fresh, c),
{
    assert(reset_spec(m).toprc =~= fresh.toprc);
    assert(reset_spec(m) =~= fresh);
}

} // verus!
