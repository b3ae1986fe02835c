use vstd::prelude::*;

use crate::planet::Planet;

verus! {

/// Layout of one planet's coefficients inside a table's flat buffer:
/// where the block begins (`offset`, 1-based), how many Chebyshev
/// terms per component (`coefficient_count`) and into how many equal
/// sub-intervals the table's window is split (`sub_intervals`).
#[derive(Copy, Clone, Debug, PartialEq, Eq, Structural)]
pub struct TableDescriptor {
    pub planet: u32,
    pub coefficient_count: u32,
    pub offset: u32,
    pub sub_intervals: u32,
}

impl TableDescriptor {
    /// Number of buffer slots one planet occupies in a table: six
    /// components times `coefficient_count` terms, for each of its
    /// `sub_intervals` sub-intervals.
    pub open spec fn width(self) -> int {
        6 * self.coefficient_count * self.sub_intervals
    }

    /// A zeroed descriptor, the fill value before a layout is known.
    pub fn empty() -> (r: Self)
        ensures
            r.planet == 0,
            r.coefficient_count == 0,
            r.offset == 0,
            r.sub_intervals == 0,
    {
        Self { planet: 0, coefficient_count: 0, offset: 0, sub_intervals: 0 }
    }
}

/// First descriptor in `s` whose planet id is `id`.
pub open spec fn find_desc(s: Seq<TableDescriptor>, id: u32) -> Option<TableDescriptor>
    decreases s.len(),
{
    if s.len() == 0 {
        None
    } else if s[0].planet == id {
        Some(s[0])
    } else {
        find_desc(s.skip(1), id)
    }
}

/// Mathematical image of a [`Header`].
#[verifier::ext_equal]
pub ghost struct HeaderView {
    pub version: i32,
    pub span_start: u64,
    pub span_end: u64,
    pub interval: u64,
    pub tables: u32,
    pub table_size: u32,
    pub structure: Seq<TableDescriptor>,
}

impl HeaderView {
    /// Planet ids strictly increase along the layout, so each id
    /// names at most one descriptor.
    pub open spec fn ids_increasing(self) -> bool {
        forall|i: int, j: int|
            0 <= i < j < self.structure.len() ==> self.structure[i].planet
                < self.structure[j].planet
    }

    /// The per-planet blocks tile the buffer: every count is
    /// positive, the first block starts at slot one, each next block
    /// starts where the previous ends, and `table_size` is the total
    /// width.
    pub open spec fn layout_dense(self) -> bool {
        &&& forall|i: int|
            0 <= i < self.structure.len() ==> (#[trigger] self.structure[i]).coefficient_count >= 1
        &&& forall|i: int|
            0 <= i < self.structure.len() ==> (#[trigger] self.structure[i]).sub_intervals >= 1
        &&& (self.structure.len() > 0 ==> self.structure[0].offset == 1)
        &&& forall|i: int|
            0 <= i < self.structure.len() - 1 ==> (#[trigger] self.structure[i + 1].offset)
                == self.structure[i].offset + self.structure[i].width()
        &&& self.table_size == if self.structure.len() == 0 {
            0int
        } else {
            self.structure.last().offset + self.structure.last().width() - 1
        }
    }

    /// A header fit for lookup and subsetting: unambiguous planet ids
    /// and a dense block layout.
    pub open spec fn wf(self) -> bool {
        self.ids_increasing() && self.layout_dense()
    }

    /// Identical archive shape: everything but the time span and the
    /// table count agrees.
    pub open spec fn compatible(self, other: HeaderView) -> bool {
        &&& self.version == other.version
        &&& self.interval == other.interval
        &&& self.table_size == other.table_size
        &&& self.structure == other.structure
    }
}

/// Global parameters of one archive: format version, the time span
/// `[span_start, span_end)` it covers, the nominal width `interval`
/// of one table's window, how many tables follow (`tables`), the flat
/// buffer length of each (`table_size`) and one layout descriptor per
/// planet.  Times are the 64-bit encodings described at the crate
/// root.
#[derive(Clone, Debug, PartialEq)]
pub struct Header {
    pub version: i32,
    pub span_start: u64,
    pub span_end: u64,
    pub interval: u64,
    pub tables: u32,
    pub table_size: u32,
    pub structure: Vec<TableDescriptor>,
}

impl View for Header {
    type V = HeaderView;

    open spec fn view(&self) -> HeaderView {
        HeaderView {
            version: self.version,
            span_start: self.span_start,
            span_end: self.span_end,
            interval: self.interval,
            tables: self.tables,
            table_size: self.table_size,
            structure: self.structure@,
        }
    }
}

impl Header {
    /// The descriptor of `planet`, if the layout has one.
    pub fn get_structure(&self, planet: Planet) -> (r: Option<&TableDescriptor>)
        ensures
            match r {
                Some(d) => find_desc(self@.structure, planet.index_spec()) == Some(*d),
                None => find_desc(self@.structure, planet.index_spec()) is None,
            },
    {
        let id = planet.index();
        let n = self.structure.len();
        proof {
            assert(self@.structure.skip(0) =~= self@.structure);
        }
        for i in 0..n
            invariant
                n == self@.structure.len(),
                id == planet.index_spec(),
                find_desc(self@.structure, id) == find_desc(self@.structure.skip(i as int), id),
                forall|j: int| 0 <= j < i ==> (#[trigger] self@.structure[j]).planet != id,
        {
            proof {
                assert(self@.structure.skip(i as int)[0] == self@.structure[i as int]);
                assert(self@.structure.skip(i as int).skip(1) =~= self@.structure.skip(
                    i as int + 1,
                ));
            }
            if self.structure[i].planet == id {
                return Some(&self.structure[i]);
            }
        }
        proof {
            assert(self@.structure.skip(n as int) =~= Seq::<TableDescriptor>::empty());
        }
        None
    }

    /// A structurally equal copy, produced without relying on any
    /// derived impl.
    pub fn duplicate(&self) -> (r: Self)
        ensures
            r@ == self@,
    {
        let r = Header {
            version: self.version,
            span_start: self.span_start,
            span_end: self.span_end,
            interval: self.interval,
            tables: self.tables,
            table_size: self.table_size,
            structure: copy_descriptors(&self.structure),
        };
        proof {
            assert(r@ =~= self@);
        }
        r
    }
}

/// Element-for-element copy of a descriptor list.
pub fn copy_descriptors(v: &Vec<TableDescriptor>) -> (r: Vec<TableDescriptor>)
    ensures
        r@ == v@,
{
    let mut r: Vec<TableDescriptor> = Vec::new();
    let n = v.len();
    for i in 0..n
        invariant
            n == v@.len(),
            r@ == v@.take(i as int),
    {
        r.push(v[i]);
        proof {
            assert(r@ =~= v@.take(i as int + 1));
        }
    }
    proof {
        assert(v@.take(n as int) =~= v@);
    }
    r
}

/// Under increasing ids, a matching descriptor at any position is the
/// one `find_desc` returns, and no other position matches.
pub proof fn lemma_find_desc_unique(s: Seq<TableDescriptor>, id: u32, i: int)
    requires
        forall|p: int, q: int| 0 <= p < q < s.len() ==> s[p].planet < s[q].planet,
        0 <= i < s.len(),
        s[i].planet == id,
    ensures
        find_desc(s, id) == Some(s[i]),
        forall|j: int| 0 <= j < s.len() && j != i ==> (#[trigger] s[j]).planet != id,
    decreases s.len(),
{
    if i == 0 {
    } else {
        assert(s[0].planet < s[i].planet);
        assert(s.skip(1)[i - 1] == s[i]);
        lemma_find_desc_unique(s.skip(1), id, i - 1);
        assert(forall|j: int| 1 <= j < s.len() ==> s.skip(1)[j - 1] == #[trigger] s[j]);
    }
}

/// When no position matches, `find_desc` finds nothing.
pub proof fn lemma_find_desc_none(s: Seq<TableDescriptor>, id: u32)
    requires
        forall|j: int| 0 <= j < s.len() ==> (#[trigger] s[j]).planet != id,
    ensures
        find_desc(s, id) is None,
    decreases s.len(),
{
    if s.len() > 0 {
        assert(forall|j: int| 0 <= j < s.skip(1).len() ==> s.skip(1)[j] == #[trigger] s[j + 1]);
        lemma_find_desc_none(s.skip(1), id);
    }
}

} // verus!
