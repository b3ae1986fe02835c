use vstd::prelude::*;

use crate::header::TableDescriptor;

verus! {

/// Mathematical image of a [`Table`].
#[verifier::ext_equal]
pub ghost struct TableView {
    pub start: u64,
    pub stop: u64,
    pub data: Seq<u64>,
}

impl TableView {
    /// The table serves `jd`: `start <= jd < stop`.
    pub open spec fn contains(self, jd: u64) -> bool {
        self.start <= jd && jd < self.stop
    }

    /// The block for sub-interval `ik` of `desc` lies inside `data`.
    pub open spec fn block_ok(self, desc: TableDescriptor, ik: u32) -> bool {
        &&& desc.offset >= 1
        &&& desc.sub_intervals >= 1
        &&& ik <= desc.sub_intervals
        &&& block_start(desc, clamp_sub_interval(ik, desc.sub_intervals)) + 6
            * desc.coefficient_count <= self.data.len()
    }
}

/// Sub-interval index used for a query landing at `ik` of `nsi`: a
/// query exactly at the table's upper bound computes `ik == nsi` and
/// is served by the last sub-interval.
pub open spec fn clamp_sub_interval(ik: u32, nsi: u32) -> u32 {
    if nsi > 0 && ik == nsi {
        (nsi - 1) as u32
    } else {
        ik
    }
}

/// First slot of `desc`'s coefficients for sub-interval `ik`
/// (0-based; `desc.offset` is 1-based).
pub open spec fn block_start(desc: TableDescriptor, ik: u32) -> int {
    desc.offset - 1 + 6 * desc.coefficient_count * ik
}

/// One Chebyshev coefficient table: valid over the window
/// `[start, stop)` and holding, planet block by planet block, the
/// coefficients of all planets for that window.  `start`, `stop` and
/// every slot of `data` are the 64-bit encodings described at the
/// crate root.
#[derive(Clone, Debug, PartialEq)]
pub struct Table {
    pub start: u64,
    pub stop: u64,
    pub data: Vec<u64>,
}

impl View for Table {
    type V = TableView;

    open spec fn view(&self) -> TableView {
        TableView { start: self.start, stop: self.stop, data: self.data@ }
    }
}

impl Table {
    /// Whether the window `[start, stop)` contains `jd`.
    pub fn is_in_range(&self, jd: u64) -> (r: bool)
        ensures
            r == self@.contains(jd),
    {
        jd >= self.start && jd < self.stop
    }

    /// Whether `jd` clears at least one of the two window bounds.
    pub fn is_in_range_partial(&self, jd: u64) -> (r: bool)
        ensures
            r == (self.start <= jd || jd < self.stop),
    {
        jd >= self.start || jd < self.stop
    }

    /// The six per-component coefficient runs for sub-interval `ik` of
    /// the planet `desc` describes, together with the sub-interval
    /// actually used (`ik` itself, or the last one when `ik` equals
    /// `sub_intervals`: a query at the exact upper bound of the window
    /// is served by the last sub-interval rather than read out of
    /// bounds).  Component `i`'s coefficient `k` is slot
    /// `i * coefficient_count + k` of the result.  `None` exactly when
    /// the descriptor does not address a block inside this table.
    pub fn coefficient_block(&self, desc: &TableDescriptor, ik: u32) -> (r: Option<(u32, Vec<u64>)>)
        ensures
            r is Some <==> self@.block_ok(*desc, ik),
            match r {
                Some((ikc, v)) => {
                    &&& ikc == clamp_sub_interval(ik, desc.sub_intervals)
                    &&& ikc < desc.sub_intervals
                    &&& v@.len() == 6 * desc.coefficient_count
                    &&& forall|j: int|
                        0 <= j < v@.len() ==> v@[j] == self@.data[block_start(*desc, ikc) + j]
                },
                None => true,
            },
    {
        if desc.offset < 1 || desc.sub_intervals < 1 || ik > desc.sub_intervals {
            return None;
        }
        let ikc: u32 = if ik == desc.sub_intervals {
            ik - 1
        } else {
            ik
        };
        let ncf6: u128 = 6u128 * (desc.coefficient_count as u128);
        proof {
            assert(ncf6 * (ikc as u128) <= 0x6_0000_0000u128 * 0x1_0000_0000u128)
                by (nonlinear_arith)
                requires
                    ncf6 <= 0x6_0000_0000u128,
                    ikc as u128 <= 0x1_0000_0000u128,
            ;
        }
        let lo128: u128 = (desc.offset as u128) - 1 + ncf6 * (ikc as u128);
        let hi128: u128 = lo128 + ncf6;
        if hi128 > (self.data.len() as u128) {
            return None;
        }
        let lo: usize = lo128 as usize;
        let hi: usize = hi128 as usize;
        let mut v: Vec<u64> = Vec::new();
        for j in lo..hi
            invariant
                lo == block_start(*desc, ikc),
                hi == lo + 6 * desc.coefficient_count,
                hi <= self.data@.len(),
                v@.len() == j - lo,
                forall|m: int| 0 <= m < v@.len() ==> v@[m] == self.data@[lo + m],
        {
            v.push(self.data[j]);
        }
        Some((ikc, v))
    }
}

/// What a value satisfying [`Table::coefficient_block`]'s contract
/// for `(t, desc, ik)` looks like, at the level of views.
pub open spec fn block_result_ok(
    t: TableView,
    desc: TableDescriptor,
    ik: u32,
    r: Option<(u32, Seq<u64>)>,
) -> bool {
    &&& (r is Some <==> t.block_ok(desc, ik))
    &&& match r {
        Some((ikc, v)) => {
            &&& ikc == clamp_sub_interval(ik, desc.sub_intervals)
            &&& v.len() == 6 * desc.coefficient_count
            &&& forall|j: int| 0 <= j < v.len() ==> v[j] == t.data[block_start(desc, ikc) + j]
        },
        None => true,
    }
}

/// Evaluation determinism: the block lookup's contract pins its
/// result completely, so any two results it allows for the same
/// table, descriptor and sub-interval are equal — and the Chebyshev
/// evaluation, a pure function of that block, the window and the
/// date, is determined with them.
pub proof fn lemma_block_deterministic(
    t: TableView,
    desc: TableDescriptor,
    ik: u32,
    r1: Option<(u32, Seq<u64>)>,
    r2: Option<(u32, Seq<u64>)>,
)
    requires
        block_result_ok(t, desc, ik, r1),
        block_result_ok(t, desc, ik, r2),
    ensures
        r1 == r2,
{
    if r1 is Some {
        let (k1, v1) = r1->Some_0;
        let (k2, v2) = r2->Some_0;
        assert(v1 =~= v2);
    }
}

} // verus!
