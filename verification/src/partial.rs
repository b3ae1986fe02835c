use vstd::prelude::*;

use crate::header::{Header, HeaderView};
use crate::planet_data::{Table, TableView};

verus! {

/// Mathematical image of a [`PartialVsop2013`].
#[verifier::ext_equal]
pub ghost struct PartialView {
    pub header: HeaderView,
    pub tables: Seq<TableView>,
}

impl PartialView {
    /// `jd` lies in the span the header declares.
    pub open spec fn in_range(self, jd: u64) -> bool {
        self.header.span_start <= jd && jd < self.header.span_end
    }
}

/// First table in `tables` whose window contains `jd`.
pub open spec fn find_table_index(tables: Seq<TableView>, jd: u64) -> Option<int>
    decreases tables.len(),
{
    if tables.len() == 0 {
        None
    } else if tables[0].contains(jd) {
        Some(0int)
    } else {
        match find_table_index(tables.skip(1), jd) {
            Some(i) => Some(i + 1),
            None => None,
        }
    }
}

/// No two windows overlap: each date is served by at most one table.
pub open spec fn tables_disjoint(tables: Seq<TableView>) -> bool {
    forall|i: int, j: int, jd: u64|
        0 <= i < tables.len() && 0 <= j < tables.len() && i != j && #[trigger] tables[i].contains(
            jd,
        ) ==> !(#[trigger] tables[j].contains(jd))
}

/// One archive's worth of coverage: a header and the tables of its
/// time span, ordered by window.
#[derive(Clone, Debug, PartialEq)]
pub struct PartialVsop2013 {
    pub header: Header,
    pub tables: Vec<Table>,
}

impl View for PartialVsop2013 {
    type V = PartialView;

    open spec fn view(&self) -> PartialView {
        PartialView { header: self.header@, tables: self.tables@.map_values(|t: Table| t@) }
    }
}

impl PartialVsop2013 {
    /// Whether `jd` lies in the declared span `[span_start, span_end)`.
    pub fn is_in_range(&self, jd: u64) -> (r: bool)
        ensures
            r == self@.in_range(jd),
    {
        jd >= self.header.span_start && jd < self.header.span_end
    }

    /// Whether `jd` clears at least one of the two span bounds.
    pub fn is_in_range_partial(&self, jd: u64) -> (r: bool)
        ensures
            r == (self@.header.span_start <= jd || jd < self@.header.span_end),
    {
        jd >= self.header.span_start || jd < self.header.span_end
    }

    /// The first table whose window `[start, stop)` contains `jd`;
    /// `None` exactly when no table's window does.
    pub fn get_table(&self, jd: u64) -> (r: Option<&Table>)
        ensures
            match r {
                Some(t) => {
                    &&& find_table_index(self@.tables, jd) matches Some(i) && t@ == self@.tables[i]
                    &&& t@.contains(jd)
                },
                None => find_table_index(self@.tables, jd) is None,
            },
    {
        let n = self.tables.len();
        proof {
            assert(self@.tables.skip(0) =~= self@.tables);
        }
        for i in 0..n
            invariant
                n == self@.tables.len(),
                (find_table_index(self@.tables, jd) matches Some(k)) == (find_table_index(
                    self@.tables.skip(i as int),
                    jd,
                ) matches Some(m)),
                find_table_index(self@.tables, jd) matches Some(k) ==> find_table_index(
                    self@.tables.skip(i as int),
                    jd,
                ) == Some(k - i),
        {
            proof {
                assert(self@.tables.skip(i as int)[0] == self@.tables[i as int]);
                assert(self@.tables.skip(i as int).skip(1) =~= self@.tables.skip(i as int + 1));
            }
            if jd >= self.tables[i].start && jd < self.tables[i].stop {
                proof {
                    assert(self@.tables[i as int].contains(jd));
                }
                return Some(&self.tables[i]);
            }
        }
        proof {
            assert(self@.tables.skip(n as int) =~= Seq::<TableView>::empty());
        }
        None
    }

    /// A structurally equal copy, produced without relying on any
    /// derived impl.
    pub fn duplicate(&self) -> (r: Self)
        ensures
            r@ == self@,
    {
        let header = self.header.duplicate();
        let tables = copy_tables(&self.tables);
        let r = PartialVsop2013 { header, tables };
        proof {
            assert(r@.tables =~= self@.tables);
            assert(r@ =~= self@);
        }
        r
    }
}

/// Slot-for-slot copy of a coefficient buffer.
pub fn copy_words(v: &Vec<u64>) -> (r: Vec<u64>)
    ensures
        r@ == v@,
{
    let mut r: Vec<u64> = Vec::new();
    let n = v.len();
    for i in 0..n
        invariant
            n == v@.len(),
            r@ == v@.take(i as int),
    {
        r.push(v[i]);
        proof {
            assert(r@ =~= v@.take(i as int + 1));
        }
    }
    proof {
        assert(v@.take(n as int) =~= v@);
    }
    r
}

/// Copy of one table, equal in view.
pub fn copy_table(t: &Table) -> (r: Table)
    ensures
        r@ == t@,
{
    let r = Table { start: t.start, stop: t.stop, data: copy_words(&t.data) };
    proof {
        assert(r@ =~= t@);
    }
    r
}

/// Table-for-table copy of a table list, equal in view.
pub fn copy_tables(v: &Vec<Table>) -> (r: Vec<Table>)
    ensures
        r@.map_values(|t: Table| t@) == v@.map_values(|t: Table| t@),
{
    let mut r: Vec<Table> = Vec::new();
    let n = v.len();
    for i in 0..n
        invariant
            n == v@.len(),
            r@.len() == i,
            forall|j: int| 0 <= j < i ==> (#[trigger] r@[j])@ == v@[j]@,
    {
        let t = copy_table(&v[i]);
        r.push(t);
    }
    proof {
        assert(r@.map_values(|t: Table| t@) =~= v@.map_values(|t: Table| t@));
    }
    r
}

/// Containment: under disjoint windows, the table found for `jd` is
/// the one table whose window contains `jd` — any table containing
/// `jd` is the one `find_table_index` names, and no other does.
pub proof fn lemma_table_containment(tables: Seq<TableView>, jd: u64, i: int)
    requires
        tables_disjoint(tables),
        0 <= i < tables.len(),
        tables[i].contains(jd),
    ensures
        find_table_index(tables, jd) == Some(i),
        forall|j: int| 0 <= j < tables.len() && j != i ==> !(#[trigger] tables[j]).contains(jd),
    decreases tables.len(),
{
    if i == 0 {
    } else {
        assert(!tables[0].contains(jd));
        assert(tables.skip(1)[i - 1] == tables[i]);
        assert(tables_disjoint(tables.skip(1))) by {
            assert(forall|p: int|
                0 <= p < tables.skip(1).len() ==> tables.skip(1)[p] == #[trigger] tables[p + 1]);
        }
        lemma_table_containment(tables.skip(1), jd, i - 1);
        assert(forall|j: int|
            1 <= j < tables.len() ==> tables.skip(1)[j - 1] == #[trigger] tables[j]);
    }
}

} // verus!
