use vstd::prelude::*;

use crate::header::{find_desc, Header, HeaderView, TableDescriptor};
use crate::partial::{find_table_index, PartialView, PartialVsop2013};
use crate::planet::Planet;
use crate::planet_data::{Table, TableView};

verus! {

/// Version tag written into the header of every archive this engine
/// produces.
pub const FORMAT_VERSION: i32 = 2013;

/// Mathematical image of a [`Vsop2013`] store.
#[verifier::ext_equal]
pub ghost struct StoreView {
    pub files: Seq<PartialView>,
}

impl StoreView {
    /// Every archive shares the shape of the first one: same version,
    /// interval, table size and per-planet layout.  Lookup treats the
    /// archives as one timeline only under this invariant.
    pub open spec fn consistent(self) -> bool {
        forall|i: int|
            0 <= i < self.files.len() ==> self.files[0].header.compatible(
                (#[trigger] self.files[i]).header,
            )
    }

    /// `t` is one of the store's tables.
    pub open spec fn has_table(self, t: TableView) -> bool {
        exists|f: int, j: int|
            0 <= f < self.files.len() && 0 <= j < self.files[f].tables.len() && t == (
            #[trigger] self.files[f].tables[j])
    }

    /// Each date is served by at most one table value anywhere in the
    /// store.
    pub open spec fn unambiguous(self) -> bool {
        forall|t1: TableView, t2: TableView, jd: u64|
            self.has_table(t1) && self.has_table(t2) && #[trigger] t1.contains(jd)
                && #[trigger] t2.contains(jd) ==> t1 == t2
    }

    /// Fit for subsetting: consistent shape, a dense first layout and
    /// every table buffer of the declared size.
    pub open spec fn wf(self) -> bool {
        &&& self.consistent()
        &&& (self.files.len() > 0 ==> self.files[0].header.wf())
        &&& forall|f: int, j: int|
            0 <= f < self.files.len() && 0 <= j < self.files[f].tables.len() ==> (
            #[trigger] self.files[f].tables[j]).data.len() == self.files[0].header.table_size
    }
}

/// First archive in `files` whose declared span contains `jd`.
pub open spec fn find_partial_index(files: Seq<PartialView>, jd: u64) -> Option<int>
    decreases files.len(),
{
    if files.len() == 0 {
        None
    } else if files[0].in_range(jd) {
        Some(0int)
    } else {
        match find_partial_index(files.skip(1), jd) {
            Some(i) => Some(i + 1),
            None => None,
        }
    }
}

/// The ordered collection of partial archives that together cover the
/// supported time range.
#[derive(Clone, Debug, PartialEq)]
pub struct Vsop2013 {
    pub files: Vec<PartialVsop2013>,
}

impl View for Vsop2013 {
    type V = StoreView;

    open spec fn view(&self) -> StoreView {
        StoreView { files: self.files@.map_values(|f: PartialVsop2013| f@) }
    }
}

impl Vsop2013 {
    /// The first archive whose declared span contains `jd`; `None`
    /// exactly when no archive's span does.
    pub fn get_partial(&self, jd: u64) -> (r: Option<&PartialVsop2013>)
        ensures
            match r {
                Some(f) => {
                    &&& find_partial_index(self@.files, jd) matches Some(i) && f@ == self@.files[i]
                    &&& f@.in_range(jd)
                },
                None => find_partial_index(self@.files, jd) is None,
            },
    {
        let n = self.files.len();
        proof {
            assert(self@.files.skip(0) =~= self@.files);
        }
        for i in 0..n
            invariant
                n == self@.files.len(),
                (find_partial_index(self@.files, jd) matches Some(k)) == (find_partial_index(
                    self@.files.skip(i as int),
                    jd,
                ) matches Some(m)),
                find_partial_index(self@.files, jd) matches Some(k) ==> find_partial_index(
                    self@.files.skip(i as int),
                    jd,
                ) == Some(k - i),
        {
            proof {
                assert(self@.files.skip(i as int)[0] == self@.files[i as int]);
                assert(self@.files.skip(i as int).skip(1) =~= self@.files.skip(i as int + 1));
            }
            if jd >= self.files[i].header.span_start && jd < self.files[i].header.span_end {
                proof {
                    assert(self@.files[i as int].in_range(jd));
                }
                return Some(&self.files[i]);
            }
        }
        proof {
            assert(self@.files.skip(n as int) =~= Seq::<PartialView>::empty());
        }
        None
    }

    /// The table serving `jd` inside the archive whose span contains
    /// `jd`: the archive is located first, then the table within it.
    /// `None` when no span contains `jd`, or when `jd` falls into a
    /// gap of the archive found.
    pub fn get_table(&self, jd: u64) -> (r: Option<&Table>)
        ensures
            match r {
                Some(t) => {
                    &&& find_partial_index(self@.files, jd) matches Some(i) && find_table_index(
                        self@.files[i].tables,
                        jd,
                    ) matches Some(k) && t@ == self@.files[i].tables[k]
                    &&& t@.contains(jd)
                },
                None => match find_partial_index(self@.files, jd) {
                    Some(i) => find_table_index(self@.files[i].tables, jd) is None,
                    None => true,
                },
            },
    {
        match self.get_partial(jd) {
            Some(f) => f.get_table(jd),
            None => None,
        }
    }

    /// Every table of every archive, in store order, as one list.
    pub fn tables(&self) -> (r: Vec<&Table>)
        ensures
            r@.map_values(|t: &Table| t@) == all_tables(self@.files),
    {
        let mut r: Vec<&Table> = Vec::new();
        let nf = self.files.len();
        proof {
            assert(self@.files.skip(0) =~= self@.files);
            assert(all_tables(self@.files).take(0) =~= r@.map_values(|t: &Table| t@));
        }
        for i in 0..nf
            invariant
                nf == self@.files.len(),
                all_tables(self@.files) == r@.map_values(|t: &Table| t@) + all_tables(
                    self@.files.skip(i as int),
                ),
        {
            proof {
                assert(self@.files.skip(i as int)[0] == self@.files[i as int]);
                assert(self@.files.skip(i as int).skip(1) =~= self@.files.skip(i as int + 1));
            }
            let nt = self.files[i].tables.len();
            for j in 0..nt
                invariant
                    nf == self@.files.len(),
                    i < nf,
                    nt == self@.files[i as int].tables.len(),
                    all_tables(self@.files) == r@.map_values(|t: &Table| t@) + self@.files[
                        i as int
                    ].tables.skip(j as int) + all_tables(self@.files.skip(i as int + 1)),
            {
                proof {
                    assert(self@.files[i as int].tables.skip(j as int)[0] == self@.files[
                        i as int
                    ].tables[j as int]);
                    assert(self@.files[i as int].tables.skip(j as int).skip(1) =~= self@.files[
                        i as int
                    ].tables.skip(j as int + 1));
                }
                let t: &Table = &self.files[i].tables[j];
                let ghost prev = r@.map_values(|t: &Table| t@);
                r.push(t);
                proof {
                    assert(r@.map_values(|t: &Table| t@) =~= prev.push(t@));
                }
            }
            proof {
                assert(self@.files[i as int].tables.skip(nt as int) =~= Seq::<TableView>::empty());
            }
        }
        proof {
            assert(self@.files.skip(nf as int) =~= Seq::<PartialView>::empty());
        }
        r
    }

    /// Whether the store is fit for subsetting: consistent shape, a
    /// dense first layout with unambiguous planet ids, and every
    /// table buffer of the declared size.
    pub fn check_well_formed(&self) -> (r: bool)
        ensures
            r == self@.wf(),
    {
        if !self.check_consistency() {
            return false;
        }
        let nf = self.files.len();
        if nf == 0 {
            return true;
        }
        let ghost h0 = self@.files[0].header;
        let st = &self.files[0].header.structure;
        let ns = st.len();
        let table_size = self.files[0].header.table_size;
        let mut next_off: u64 = 1;
        for i in 0..ns
            invariant
                self@.consistent(),
                ns == st@.len(),
                st@ == h0.structure,
                h0 == self@.files[0].header,
                self@.files.len() > 0,
                self.files@.len() > 0,
                self.files@[0]@ == self@.files[0],
                table_size == h0.table_size,
                forall|k: int|
                    0 <= k < i ==> (#[trigger] h0.structure[k]).coefficient_count >= 1
                        && h0.structure[k].sub_intervals >= 1,
                forall|p: int, q: int| 0 <= p < q < i ==> h0.structure[p].planet
                    < h0.structure[q].planet,
                i > 0 ==> h0.structure[0].offset == 1,
                forall|k: int|
                    0 <= k < i - 1 ==> (#[trigger] h0.structure[k + 1].offset) == h0.structure[
                        k].offset + h0.structure[k].width(),
                i > 0 ==> next_off == h0.structure[i - 1].offset + h0.structure[i - 1].width(),
                i == 0 ==> next_off == 1,
                next_off <= 0x1_0000_0000u64,
        {
            let d = st[i];
            if d.coefficient_count < 1 || d.sub_intervals < 1 {
                return false;
            }
            if i > 0 && st[i - 1].planet >= d.planet {
                return false;
            }
            if (d.offset as u64) != next_off {
                proof {
                    if h0.layout_dense() && i > 0 {
                        assert(h0.structure[(i - 1) as int + 1].offset == h0.structure[(i
                            - 1) as int].offset + h0.structure[(i - 1) as int].width());
                    }
                }
                return false;
            }
            let ncf6: u128 = 6u128 * (d.coefficient_count as u128);
            proof {
                assert(ncf6 * (d.sub_intervals as u128) <= 0x6_0000_0000u128
                    * 0x1_0000_0000u128) by (nonlinear_arith)
                    requires
                        ncf6 <= 0x6_0000_0000u128,
                        d.sub_intervals as u128 <= 0x1_0000_0000u128,
                ;
            }
            let w128: u128 = ncf6 * (d.sub_intervals as u128);
            proof {
                assert(w128 == h0.structure[i as int].width());
            }
            let sum128: u128 = (next_off as u128) + w128;
            if sum128 > 0x1_0000_0000u128 {
                // The chain has left the 32-bit offset space: some
                // later offset or the buffer width cannot match.
                proof {
                    assert(h0.structure[i as int].offset + h0.structure[i as int].width()
                        > 0x1_0000_0000);
                    if h0.layout_dense() {
                        lemma_dense_block_bounds(h0, i as int);
                    }
                }
                return false;
            }
            next_off = sum128 as u64;
        }
        if ns == 0 {
            if table_size != 0 {
                return false;
            }
        } else {
            if (table_size as u64) + 1 != next_off {
                proof {
                    assert(h0.structure.last() == h0.structure[ns - 1]);
                }
                return false;
            }
        }
        proof {
            assert(h0.layout_dense());
            assert(h0.wf());
        }
        let mut f: usize = 0;
        while f < nf
            invariant
                nf == self.files@.len(),
                nf == self@.files.len(),
                self@.consistent(),
                h0 == self@.files[0].header,
                h0.wf(),
                table_size == h0.table_size,
                forall|a: int, b: int|
                    0 <= a < f && 0 <= b < self@.files[a].tables.len() ==> (
                    #[trigger] self@.files[a].tables[b]).data.len() == h0.table_size,
            decreases nf - f,
        {
            let nt = self.files[f].tables.len();
            let mut b: usize = 0;
            while b < nt
                invariant
                    nf == self.files@.len(),
                    nf == self@.files.len(),
                    f < nf,
                    nt == self@.files[f as int].tables.len(),
                    h0 == self@.files[0].header,
                    table_size == h0.table_size,
                    forall|k: int|
                        0 <= k < b ==> (#[trigger] self@.files[f as int].tables[k]).data.len()
                            == h0.table_size,
                decreases nt - b,
            {
                proof {
                    assert(self@.files[f as int] == self.files@[f as int]@);
                }
                if self.files[f].tables[b].data.len() as u64 != table_size as u64 {
                    proof {
                        assert(self@.files[f as int].tables[b as int] == self.files@[
                            f as int].tables@[b as int]@);
                        assert(self@.files[f as int].tables[b as int].data.len() != self@.files[
                            0].header.table_size);
                        assert(!self@.wf());
                    }
                    return false;
                }
                b = b + 1;
            }
            f = f + 1;
        }
        true
    }

    /// Restriction of the store to the time window `[start_low,
    /// end_high)`.  The caller supplies the window already widened by
    /// one table interval on each side, so that tables merely
    /// abutting the span of interest are still kept and evaluation
    /// reaches its exact boundaries.  The surviving tables — those
    /// with `start >= start_low` and `stop < end_high`, from every
    /// archive in store order — become one synthetic archive whose
    /// header copies the shared shape and whose span is the first
    /// kept window's start to the last kept window's stop.  `None`
    /// exactly when the store is empty, nothing survives, or the
    /// count of survivors exceeds the header's counter width.
    pub fn new_from_range(&self, start_low: u64, end_high: u64) -> (r: Option<Vsop2013>)
        requires
            self@.consistent(),
        ensures
            match r {
                Some(s) => {
                    let ks = kept_tables(self@.files, start_low, end_high);
                    &&& self@.files.len() > 0
                    &&& 1 <= ks.len() <= u32::MAX
                    &&& s@.files.len() == 1
                    &&& s@.files[0].tables == ks
                    &&& s@.files[0].header == (HeaderView {
                        version: FORMAT_VERSION,
                        span_start: ks[0].start,
                        span_end: ks.last().stop,
                        interval: self@.files[0].header.interval,
                        tables: ks.len() as u32,
                        table_size: self@.files[0].header.table_size,
                        structure: self@.files[0].header.structure,
                    })
                },
                None => self@.files.len() == 0 || kept_tables(
                    self@.files,
                    start_low,
                    end_high,
                ).len() == 0 || kept_tables(self@.files, start_low, end_high).len() > u32::MAX,
            },
    {
        let nf = self.files.len();
        if nf == 0 {
            return None;
        }
        let ghost ks = kept_tables(self@.files, start_low, end_high);
        let mut kept: Vec<Table> = Vec::new();
        proof {
            assert(self@.files.skip(0) =~= self@.files);
            assert(kept@.map_values(|t: Table| t@) =~= Seq::<TableView>::empty());
        }
        for i in 0..nf
            invariant
                nf == self@.files.len(),
                ks == kept_tables(self@.files, start_low, end_high),
                ks =~= kept@.map_values(|t: Table| t@) + kept_tables(
                    self@.files.skip(i as int),
                    start_low,
                    end_high,
                ),
        {
            proof {
                assert(self@.files.skip(i as int)[0] == self@.files[i as int]);
                assert(self@.files.skip(i as int).skip(1) =~= self@.files.skip(i as int + 1));
                assert(self@.files[i as int].tables.skip(0) =~= self@.files[i as int].tables);
            }
            let nt = self.files[i].tables.len();
            for j in 0..nt
                invariant
                    nf == self@.files.len(),
                    i < nf,
                    nt == self@.files[i as int].tables.len(),
                    ks == kept_tables(self@.files, start_low, end_high),
                    ks =~= kept@.map_values(|t: Table| t@) + filter_kept(
                        self@.files[i as int].tables.skip(j as int),
                        start_low,
                        end_high,
                    ) + kept_tables(self@.files.skip(i as int + 1), start_low, end_high),
            {
                proof {
                    assert(self@.files[i as int].tables.skip(j as int)[0] == self@.files[
                        i as int
                    ].tables[j as int]);
                    assert(self@.files[i as int].tables.skip(j as int).skip(1) =~= self@.files[
                        i as int
                    ].tables.skip(j as int + 1));
                }
                let t = &self.files[i].tables[j];
                if t.start >= start_low && t.stop < end_high {
                    let c = crate::partial::copy_table(t);
                    let ghost prev = kept@.map_values(|t: Table| t@);
                    kept.push(c);
                    proof {
                        assert(kept@.map_values(|t: Table| t@) =~= prev.push(c@));
                    }
                }
            }
            proof {
                assert(self@.files[i as int].tables.skip(nt as int) =~= Seq::<TableView>::empty());
            }
        }
        proof {
            assert(self@.files.skip(nf as int) =~= Seq::<PartialView>::empty());
            assert(ks =~= kept@.map_values(|t: Table| t@));
        }
        if kept.len() == 0 {
            return None;
        }
        if kept.len() as u64 > u32::MAX as u64 {
            return None;
        }
        let span_start = kept[0].start;
        let span_end = kept[kept.len() - 1].stop;
        proof {
            assert(ks[0] == kept@.map_values(|t: Table| t@)[0]);
            assert(ks.last() == kept@.map_values(|t: Table| t@)[ks.len() - 1]);
        }
        let header = Header {
            version: FORMAT_VERSION,
            span_start,
            span_end,
            interval: self.files[0].header.interval,
            tables: kept.len() as u32,
            table_size: self.files[0].header.table_size,
            structure: crate::header::copy_descriptors(&self.files[0].header.structure),
        };
        let partial = PartialVsop2013 { header, tables: kept };
        let files = vec![partial];
        let r = Vsop2013 { files };
        proof {
            assert(r@.files.len() == 1);
            assert(r@.files[0].tables =~= ks);
            assert(r@.files[0].header =~= (HeaderView {
                version: FORMAT_VERSION,
                span_start: ks[0].start,
                span_end: ks.last().stop,
                interval: self@.files[0].header.interval,
                tables: ks.len() as u32,
                table_size: self@.files[0].header.table_size,
                structure: self@.files[0].header.structure,
            }));
        }
        Some(r)
    }

    /// Restriction of the store to a time window and to the given
    /// planets.  The time restriction of [`Self::new_from_range`] is
    /// performed first; each surviving table's buffer is then
    /// recompacted to the kept planets' blocks (in their original
    /// planet order and relative slot order), and the layout is
    /// rewritten to the kept planets' descriptors, each offset
    /// reduced by the accumulated width of the removed blocks before
    /// it.  Every planet's block — the first one's included — is
    /// located by its own descriptor's offset and width, and
    /// requested planets are matched to descriptors by their ids
    /// directly.  `None` additionally when no planet is requested or
    /// a requested planet has no descriptor in the layout.
    pub fn new_from_range_planets(
        &self,
        start_low: u64,
        end_high: u64,
        planets: &[Planet],
    ) -> (r: Option<Vsop2013>)
        requires
            self@.wf(),
        ensures
            match r {
                Some(s2) => {
                    let ks = kept_tables(self@.files, start_low, end_high);
                    let st = self@.files[0].header.structure;
                    let keep = keep_set(planets@);
                    &&& self@.files.len() > 0
                    &&& 1 <= ks.len() <= u32::MAX
                    &&& planets@.len() > 0
                    &&& forall|k: int|
                        0 <= k < planets@.len() ==> find_desc(
                            st,
                            (#[trigger] planets@[k]).index_spec(),
                        ) is Some
                    &&& s2@.files.len() == 1
                    &&& s2@.files[0].header.version == FORMAT_VERSION
                    &&& s2@.files[0].header.span_start == ks[0].start
                    &&& s2@.files[0].header.span_end == ks.last().stop
                    &&& s2@.files[0].header.interval == self@.files[0].header.interval
                    &&& s2@.files[0].header.tables == ks.len() as u32
                    &&& s2@.files[0].header.table_size == kept_width(st, keep)
                    &&& s2@.files[0].header.structure == subset_structure(st, keep, 1)
                    &&& s2@.files[0].tables.len() == ks.len()
                    &&& forall|i: int|
                        0 <= i < ks.len() ==> {
                            &&& (#[trigger] s2@.files[0].tables[i]).start == ks[i].start
                            &&& s2@.files[0].tables[i].stop == ks[i].stop
                            &&& s2@.files[0].tables[i].data == subset_data(ks[i].data, st, keep)
                        }
                },
                None => {
                    ||| self@.files.len() == 0
                    ||| kept_tables(self@.files, start_low, end_high).len() == 0
                    ||| kept_tables(self@.files, start_low, end_high).len() > u32::MAX
                    ||| planets@.len() == 0
                    ||| exists|k: int|
                        0 <= k < planets@.len() && find_desc(
                            self@.files[0].header.structure,
                            (#[trigger] planets@[k]).index_spec(),
                        ) is None
                },
            },
    {
        let sub = match self.new_from_range(start_low, end_high) {
            Some(s) => s,
            None => {
                return None;
            },
        };
        if planets.len() == 0 {
            return None;
        }
        let ghost ks = kept_tables(self@.files, start_low, end_high);
        let ghost st = self@.files[0].header.structure;
        let ghost keep = keep_set(planets@);
        let ghost h0 = self@.files[0].header;
        proof {
            assert(self.files@.len() == self@.files.len());
            assert(self.files@[0]@ == self@.files[0]);
        }
        let np = planets.len();
        for pi in 0..np
            invariant
                np == planets@.len(),
                st == self@.files[0].header.structure,
                self@.files.len() > 0,
                self.files@.len() > 0,
                self.files@[0]@ == self@.files[0],
                forall|k: int|
                    0 <= k < pi ==> find_desc(st, (#[trigger] planets@[k]).index_spec()) is Some,
        {
            if self.files[0].header.get_structure(planets[pi]).is_none() {
                return None;
            }
        }
        // Rewrite the layout: kept descriptors, recompacted offsets.
        let ns = self.files[0].header.structure.len();
        let mut new_struct: Vec<TableDescriptor> = Vec::new();
        let mut cur_off: u64 = 1;
        proof {
            assert(st.skip(0) =~= st);
        }
        for i in 0..ns
            invariant
                self@.wf(),
                ns == st.len(),
                st == self@.files[0].header.structure,
                h0 == self@.files[0].header,
                self@.files.len() > 0,
                self.files@.len() > 0,
                self.files@[0]@ == self@.files[0],
                keep == keep_set(planets@),
                1 <= cur_off,
                cur_off <= h0.table_size + 1,
                i < ns ==> cur_off <= st[i as int].offset,
                subset_structure(st, keep, 1) =~= new_struct@ + subset_structure(
                    st.skip(i as int),
                    keep,
                    cur_off as int,
                ),
                kept_width(st, keep) == cur_off - 1 + kept_width(st.skip(i as int), keep),
        {
            proof {
                assert(st.skip(i as int)[0] == st[i as int]);
                assert(st.skip(i as int).skip(1) =~= st.skip(i as int + 1));
                lemma_dense_block_bounds(h0, i as int);
                if i + 1 < ns {
                    assert(st[i as int + 1].offset == st[i as int].offset + st[i as int].width());
                }
            }
            let d = self.files[0].header.structure[i];
            if contains_planet(planets, d.planet) {
                let ncf6: u128 = 6u128 * (d.coefficient_count as u128);
                proof {
                    assert(ncf6 * (d.sub_intervals as u128) <= 0x6_0000_0000u128
                        * 0x1_0000_0000u128) by (nonlinear_arith)
                        requires
                            ncf6 <= 0x6_0000_0000u128,
                            d.sub_intervals as u128 <= 0x1_0000_0000u128,
                    ;
                }
                let w128: u128 = ncf6 * (d.sub_intervals as u128);
                proof {
                    assert(w128 == st[i as int].width());
                }
                let w: u64 = w128 as u64;
                new_struct.push(
                    TableDescriptor {
                        planet: d.planet,
                        coefficient_count: d.coefficient_count,
                        offset: cur_off as u32,
                        sub_intervals: d.sub_intervals,
                    },
                );
                cur_off = cur_off + w;
            }
        }
        proof {
            assert(st.skip(ns as int) =~= Seq::<TableDescriptor>::empty());
            assert(subset_structure(st, keep, 1) =~= new_struct@);
            assert(kept_width(st, keep) == cur_off - 1);
        }
        // Rewrite each surviving table's buffer to the kept blocks.
        proof {
            lemma_kept_tables_elements(self@.files, start_low, end_high);
            assert(sub.files@.len() == sub@.files.len());
            assert(sub.files@[0]@ == sub@.files[0]);
        }
        let nt = sub.files[0].tables.len();
        proof {
            assert(sub.files@[0].tables@.len() == sub@.files[0].tables.len());
        }
        let mut new_tables: Vec<Table> = Vec::new();
        for ti in 0..nt
            invariant
                self@.wf(),
                ns == st.len(),
                st == self@.files[0].header.structure,
                h0 == self@.files[0].header,
                keep == keep_set(planets@),
                self@.files.len() > 0,
                self.files@.len() > 0,
                self.files@[0]@ == self@.files[0],
                ks == kept_tables(self@.files, start_low, end_high),
                sub@.files.len() == 1,
                sub@.files[0].tables == ks,
                sub.files@.len() > 0,
                sub.files@[0]@ == sub@.files[0],
                nt == ks.len(),
                forall|k: int|
                    0 <= k < ks.len() ==> (#[trigger] ks[k]).data.len() == h0.table_size,
                new_tables@.len() == ti,
                forall|i: int|
                    0 <= i < ti ==> {
                        &&& (#[trigger] new_tables@[i])@.start == ks[i].start
                        &&& new_tables@[i]@.stop == ks[i].stop
                        &&& new_tables@[i]@.data == subset_data(ks[i].data, st, keep)
                    },
        {
            let t = &sub.files[0].tables[ti];
            proof {
                assert(t@ == ks[ti as int]);
                assert(st.skip(0) =~= st);
            }
            let mut nd: Vec<u64> = Vec::new();
            for i in 0..ns
                invariant
                    self@.wf(),
                    ns == st.len(),
                    st == self@.files[0].header.structure,
                    h0 == self@.files[0].header,
                    keep == keep_set(planets@),
                    self@.files.len() > 0,
                    self.files@.len() > 0,
                    self.files@[0]@ == self@.files[0],
                    t@.data.len() == h0.table_size,
                    subset_data(t@.data, st, keep) =~= nd@ + subset_data(
                        t@.data,
                        st.skip(i as int),
                        keep,
                    ),
            {
                proof {
                    assert(st.skip(i as int)[0] == st[i as int]);
                    assert(st.skip(i as int).skip(1) =~= st.skip(i as int + 1));
                    lemma_dense_block_bounds(h0, i as int);
                }
                let d = self.files[0].header.structure[i];
                if contains_planet(planets, d.planet) {
                    let ncf6: u128 = 6u128 * (d.coefficient_count as u128);
                    proof {
                        assert(ncf6 * (d.sub_intervals as u128) <= 0x6_0000_0000u128
                            * 0x1_0000_0000u128) by (nonlinear_arith)
                            requires
                                ncf6 <= 0x6_0000_0000u128,
                                d.sub_intervals as u128 <= 0x1_0000_0000u128,
                        ;
                    }
                    let w128: u128 = ncf6 * (d.sub_intervals as u128);
                    proof {
                        assert(w128 == st[i as int].width());
                    }
                    let lo_idx: usize = (d.offset - 1) as usize;
                    let hi_idx: usize = lo_idx + (w128 as usize);
                    let ghost nd_snap = nd@;
                    proof {
                        assert(t@.data.subrange(lo_idx as int, lo_idx as int) =~= Seq::<
                            u64,
                        >::empty());
                    }
                    for idx in lo_idx..hi_idx
                        invariant
                            lo_idx == st[i as int].offset - 1,
                            hi_idx == lo_idx + st[i as int].width(),
                            hi_idx <= t@.data.len(),
                            nd@ =~= nd_snap + t@.data.subrange(lo_idx as int, idx as int),
                    {
                        nd.push(t.data[idx]);
                        proof {
                            assert(t@.data.subrange(lo_idx as int, idx as int + 1) =~= t@
                                .data.subrange(lo_idx as int, idx as int).push(
                                t@.data[idx as int],
                            ));
                        }
                    }
                }
            }
            proof {
                assert(st.skip(ns as int) =~= Seq::<TableDescriptor>::empty());
                assert(subset_data(t@.data, st, keep) =~= nd@);
            }
            let nt2 = Table { start: t.start, stop: t.stop, data: nd };
            new_tables.push(nt2);
        }
        let header = Header {
            version: sub.files[0].header.version,
            span_start: sub.files[0].header.span_start,
            span_end: sub.files[0].header.span_end,
            interval: sub.files[0].header.interval,
            tables: sub.files[0].header.tables,
            table_size: (cur_off - 1) as u32,
            structure: new_struct,
        };
        let partial = PartialVsop2013 { header, tables: new_tables };
        let files = vec![partial];
        let r = Vsop2013 { files };
        proof {
            assert(r@.files.len() == 1);
            assert(r@.files[0].header.structure == subset_structure(st, keep, 1));
            assert(r@.files[0].tables.len() == ks.len());
        }
        Some(r)
    }

    /// Whether all archives share the first one's shape: the
    /// validation pass run before any subsetting.
    pub fn check_consistency(&self) -> (r: bool)
        ensures
            r == self@.consistent(),
    {
        let n = self.files.len();
        if n == 0 {
            return true;
        }
        let first = &self.files[0];
        for i in 0..n
            invariant
                n == self@.files.len(),
                first@ == self@.files[0],
                forall|k: int|
                    0 <= k < i ==> self@.files[0].header.compatible(
                        (#[trigger] self@.files[k]).header,
                    ),
        {
            let h = &self.files[i].header;
            proof {
                assert(h@ == self@.files[i as int].header);
            }
            if h.version != first.header.version || h.interval != first.header.interval
                || h.table_size != first.header.table_size {
                proof {
                    assert(!self@.files[0].header.compatible(self@.files[i as int].header));
                }
                return false;
            }
            if !same_structure(&first.header.structure, &h.structure) {
                proof {
                    assert(!self@.files[0].header.compatible(self@.files[i as int].header));
                }
                return false;
            }
            proof {
                assert(self@.files[0].header.compatible(self@.files[i as int].header));
            }
        }
        true
    }
}

/// All tables of all archives, in order.
pub open spec fn all_tables(files: Seq<PartialView>) -> Seq<TableView>
    decreases files.len(),
{
    if files.len() == 0 {
        Seq::empty()
    } else {
        files[0].tables + all_tables(files.skip(1))
    }
}

/// A table survives the window restriction to `[lo, hi)`: its window
/// starts no earlier than `lo` and ends before `hi`.
pub open spec fn keeps(t: TableView, lo: u64, hi: u64) -> bool {
    t.start >= lo && t.stop < hi
}

/// The tables of `ts` surviving the window restriction, in order.
pub open spec fn filter_kept(ts: Seq<TableView>, lo: u64, hi: u64) -> Seq<TableView>
    decreases ts.len(),
{
    if ts.len() == 0 {
        Seq::empty()
    } else {
        (if keeps(ts[0], lo, hi) {
            seq![ts[0]]
        } else {
            Seq::empty()
        }) + filter_kept(ts.skip(1), lo, hi)
    }
}

/// All tables of all archives surviving the window restriction, in
/// store order.
pub open spec fn kept_tables(files: Seq<PartialView>, lo: u64, hi: u64) -> Seq<TableView>
    decreases files.len(),
{
    if files.len() == 0 {
        Seq::empty()
    } else {
        filter_kept(files[0].tables, lo, hi) + kept_tables(files.skip(1), lo, hi)
    }
}

/// The planet ids a subsetting request names.
pub open spec fn keep_set(planets: Seq<crate::planet::Planet>) -> Set<u32> {
    Set::new(
        |id: u32|
            exists|k: int|
                0 <= k < planets.len() && (#[trigger] planets[k]).index_spec() == id,
    )
}

/// Total buffer width of the kept planets' blocks.
pub open spec fn kept_width(s: Seq<TableDescriptor>, keep: Set<u32>) -> int
    decreases s.len(),
{
    if s.len() == 0 {
        0
    } else {
        (if keep.contains(s[0].planet) {
            s[0].width()
        } else {
            0
        }) + kept_width(s.skip(1), keep)
    }
}

/// The kept planets' descriptors with their offsets recompacted: the
/// first kept block begins at `off` and each next kept block begins
/// where the previous ends, which deducts from every original offset
/// the accumulated width of the removed blocks before it.
pub open spec fn subset_structure(s: Seq<TableDescriptor>, keep: Set<u32>, off: int) -> Seq<
    TableDescriptor,
>
    decreases s.len(),
{
    if s.len() == 0 {
        Seq::empty()
    } else if keep.contains(s[0].planet) {
        seq![
            TableDescriptor {
                planet: s[0].planet,
                coefficient_count: s[0].coefficient_count,
                offset: off as u32,
                sub_intervals: s[0].sub_intervals,
            },
        ] + subset_structure(s.skip(1), keep, off + s[0].width())
    } else {
        subset_structure(s.skip(1), keep, off)
    }
}

/// One table buffer with the removed planets' blocks deleted: the
/// kept blocks, in planet order, with their slots in their original
/// relative order.
pub open spec fn subset_data(data: Seq<u64>, s: Seq<TableDescriptor>, keep: Set<u32>) -> Seq<u64>
    decreases s.len(),
{
    if s.len() == 0 {
        Seq::empty()
    } else if keep.contains(s[0].planet) {
        data.subrange(s[0].offset - 1, s[0].offset - 1 + s[0].width()) + subset_data(
            data,
            s.skip(1),
            keep,
        )
    } else {
        subset_data(data, s.skip(1), keep)
    }
}

/// In a dense layout every block lies inside the declared buffer
/// width.
pub proof fn lemma_dense_block_bounds(h: HeaderView, i: int)
    requires
        h.layout_dense(),
        0 <= i < h.structure.len(),
    ensures
        h.structure[i].offset >= 1,
        h.structure[i].width() >= 6,
        h.structure[i].offset + h.structure[i].width() <= h.table_size + 1,
    decreases h.structure.len() - i,
{
    assert(h.structure[i].width() >= 6 * 1 * 1) by (nonlinear_arith)
        requires
            h.structure[i].coefficient_count >= 1,
            h.structure[i].sub_intervals >= 1,
            h.structure[i].width() == 6 * h.structure[i].coefficient_count
                * h.structure[i].sub_intervals,
    ;
    if i == h.structure.len() - 1 {
        lemma_dense_offset_ge_one(h, i);
    } else {
        lemma_dense_block_bounds(h, i + 1);
        lemma_dense_offset_ge_one(h, i);
        assert(h.structure[i + 1].offset == h.structure[i].offset + h.structure[i].width());
    }
}

/// In a dense layout offsets start at one and never decrease.
pub proof fn lemma_dense_offset_ge_one(h: HeaderView, i: int)
    requires
        h.layout_dense(),
        0 <= i < h.structure.len(),
    ensures
        h.structure[i].offset >= 1,
    decreases i,
{
    if i > 0 {
        lemma_dense_offset_ge_one(h, i - 1);
        assert(h.structure[(i - 1) + 1].offset == h.structure[i - 1].offset + h.structure[i
            - 1].width());
        assert(h.structure[i - 1].width() >= 0) by (nonlinear_arith)
            requires
                h.structure[i - 1].coefficient_count >= 0,
                h.structure[i - 1].sub_intervals >= 0,
                h.structure[i - 1].width() == 6 * h.structure[i - 1].coefficient_count
                    * h.structure[i - 1].sub_intervals,
        ;
    }
}

/// Whether one of the requested planets carries the id `id`.
pub fn contains_planet(planets: &[Planet], id: u32) -> (r: bool)
    ensures
        r == keep_set(planets@).contains(id),
{
    let n = planets.len();
    for k in 0..n
        invariant
            n == planets@.len(),
            forall|m: int| 0 <= m < k ==> (#[trigger] planets@[m]).index_spec() != id,
    {
        if planets[k].index() == id {
            return true;
        }
    }
    false
}

/// Bounds of [`lemma_dense_block_bounds`], stated for every block at
/// once.
pub proof fn lemma_dense_bounds_all(h: HeaderView)
    requires
        h.layout_dense(),
    ensures
        forall|i: int|
            0 <= i < h.structure.len() ==> (#[trigger] h.structure[i]).offset >= 1
                && h.structure[i].width() >= 6 && h.structure[i].offset + h.structure[i].width()
                <= h.table_size + 1,
{
    assert forall|i: int| 0 <= i < h.structure.len() implies (#[trigger] h.structure[i]).offset
        >= 1 && h.structure[i].width() >= 6 && h.structure[i].offset + h.structure[i].width()
        <= h.table_size + 1 by {
        lemma_dense_block_bounds(h, i);
    }
}

/// Workhorse of the planet-subset proof, by induction over the
/// layout suffix `s` with `off` the next recompacted offset: the
/// recompacted buffer has the total kept width, the kept planet
/// `s[i]` resolves in the recompacted layout to a descriptor with
/// its counts kept and its offset the prefix sum of kept widths, and
/// every slot of its block is the original slot.
pub proof fn lemma_subset_block_general(
    data: Seq<u64>,
    s: Seq<TableDescriptor>,
    keep: Set<u32>,
    off: int,
    i: int,
)
    requires
        forall|k: int|
            0 <= k < s.len() - 1 ==> (#[trigger] s[k + 1].offset) == s[k].offset + s[k].width(),
        forall|k: int| 0 <= k < s.len() ==> (#[trigger] s[k]).coefficient_count >= 1,
        forall|k: int| 0 <= k < s.len() ==> (#[trigger] s[k]).sub_intervals >= 1,
        forall|p: int, q: int| 0 <= p < q < s.len() ==> s[p].planet < s[q].planet,
        forall|k: int|
            0 <= k < s.len() ==> (#[trigger] s[k]).offset + s[k].width() <= data.len() + 1,
        forall|k: int| 0 <= k < s.len() ==> (#[trigger] s[k]).offset >= 1,
        s.len() > 0,
        1 <= off <= s[0].offset,
        0 <= i < s.len(),
        keep.contains(s[i].planet),
    ensures
        subset_data(data, s, keep).len() == kept_width(s, keep),
        kept_width(s.take(i), keep) + s[i].width() <= kept_width(s, keep),
        find_desc(subset_structure(s, keep, off), s[i].planet) == Some(
            TableDescriptor {
                planet: s[i].planet,
                coefficient_count: s[i].coefficient_count,
                offset: (off + kept_width(s.take(i), keep)) as u32,
                sub_intervals: s[i].sub_intervals,
            },
        ),
        off + kept_width(s.take(i), keep) <= s[i].offset,
        forall|m: int|
            0 <= m < s[i].width() ==> #[trigger] subset_data(data, s, keep)[kept_width(
                s.take(i),
                keep,
            ) + m] == data[s[i].offset - 1 + m],
    decreases s.len(),
{
    let sd = subset_data(data, s, keep);
    let ns = subset_structure(s, keep, off);
    let w0 = s[0].width();
    assert(w0 >= 6) by (nonlinear_arith)
        requires
            s[0].coefficient_count >= 1,
            s[0].sub_intervals >= 1,
            w0 == 6 * s[0].coefficient_count * s[0].sub_intervals,
    ;
    let s2 = s.skip(1);
    assert(forall|k: int| 0 <= k < s2.len() ==> s2[k] == #[trigger] s[k + 1]);
    if i == 0 {
        assert(s.take(0) =~= Seq::<TableDescriptor>::empty());
        assert(sd == data.subrange(s[0].offset - 1, s[0].offset - 1 + w0) + subset_data(
            data,
            s2,
            keep,
        ));
        assert(ns[0] == TableDescriptor {
            planet: s[0].planet,
            coefficient_count: s[0].coefficient_count,
            offset: off as u32,
            sub_intervals: s[0].sub_intervals,
        });
        lemma_subset_data_len(data, s2, keep);
        assert forall|m: int| 0 <= m < s[0].width() implies #[trigger] sd[kept_width(
            s.take(0),
            keep,
        ) + m] == data[s[0].offset - 1 + m] by {
            assert(sd[m] == data.subrange(s[0].offset - 1, s[0].offset - 1 + w0)[m]);
        }
    } else {
        if keep.contains(s[0].planet) {
            assert(off + w0 <= s2[0].offset);
            lemma_subset_block_general(data, s2, keep, off + w0, i - 1);
            assert(s.take(i).skip(1) =~= s2.take(i - 1));
            assert(kept_width(s.take(i), keep) == w0 + kept_width(s2.take(i - 1), keep)) by {
                assert(s.take(i)[0] == s[0]);
            }
            let head = data.subrange(s[0].offset - 1, s[0].offset - 1 + w0);
            assert(head.len() == w0);
            assert(sd == head + subset_data(data, s2, keep));
            assert(ns == seq![
                TableDescriptor {
                    planet: s[0].planet,
                    coefficient_count: s[0].coefficient_count,
                    offset: off as u32,
                    sub_intervals: s[0].sub_intervals,
                },
            ] + subset_structure(s2, keep, off + w0));
            assert(ns.skip(1) =~= subset_structure(s2, keep, off + w0));
            assert(s[0].planet < s[i].planet);
            assert(ns[0].planet != s[i].planet);
            assert(find_desc(ns, s[i].planet) == find_desc(ns.skip(1), s[i].planet));
            assert forall|m: int| 0 <= m < s[i].width() implies #[trigger] sd[kept_width(
                s.take(i),
                keep,
            ) + m] == data[s[i].offset - 1 + m] by {
                assert(s2[i - 1] == s[i]);
                lemma_kept_width_nonneg(s2.take(i - 1), keep);
                assert(subset_data(data, s2, keep)[kept_width(s2.take(i - 1), keep) + m] == data[
                    s2[i - 1].offset - 1 + m]);
                assert(sd[w0 + (kept_width(s2.take(i - 1), keep) + m)] == subset_data(
                    data,
                    s2,
                    keep,
                )[kept_width(s2.take(i - 1), keep) + m]);
            }
        } else {
            assert(off <= s2[0].offset);
            lemma_subset_block_general(data, s2, keep, off, i - 1);
            assert(s.take(i).skip(1) =~= s2.take(i - 1));
            assert(kept_width(s.take(i), keep) == kept_width(s2.take(i - 1), keep)) by {
                assert(s.take(i)[0] == s[0]);
            }
            assert(sd == subset_data(data, s2, keep));
            assert(ns == subset_structure(s2, keep, off));
            assert forall|m: int| 0 <= m < s[i].width() implies #[trigger] sd[kept_width(
                s.take(i),
                keep,
            ) + m] == data[s[i].offset - 1 + m] by {
                assert(s2[i - 1] == s[i]);
                assert(subset_data(data, s2, keep)[kept_width(s2.take(i - 1), keep) + m] == data[
                    s2[i - 1].offset - 1 + m]);
            }
        }
    }
}

/// A found table index is in range and its table contains the date.
pub proof fn lemma_find_table_found(ts: Seq<TableView>, jd: u64)
    requires
        find_table_index(ts, jd) is Some,
    ensures
        find_table_index(ts, jd) matches Some(k) && 0 <= k < ts.len() && ts[k].contains(jd),
    decreases ts.len(),
{
    if ts.len() > 0 && !ts[0].contains(jd) {
        lemma_find_table_found(ts.skip(1), jd);
        let k2 = find_table_index(ts.skip(1), jd)->Some_0;
        assert(ts.skip(1)[k2] == ts[k2 + 1]);
    }
}

/// When some table contains the date, one is found.
pub proof fn lemma_find_table_exists(ts: Seq<TableView>, jd: u64, i: int)
    requires
        0 <= i < ts.len(),
        ts[i].contains(jd),
    ensures
        find_table_index(ts, jd) is Some,
    decreases ts.len(),
{
    if !ts[0].contains(jd) {
        assert(ts.skip(1)[i - 1] == ts[i]);
        lemma_find_table_exists(ts.skip(1), jd, i - 1);
    }
}

/// A table of archive `f` that survives the window restriction
/// appears among the kept tables.
pub proof fn lemma_kept_tables_member(files: Seq<PartialView>, lo: u64, hi: u64, f: int, j: int)
    requires
        0 <= f < files.len(),
        0 <= j < files[f].tables.len(),
        keeps(files[f].tables[j], lo, hi),
    ensures
        exists|k: int|
            0 <= k < kept_tables(files, lo, hi).len() && kept_tables(files, lo, hi)[k] == files[
                f].tables[j],
    decreases files.len(),
{
    let ks = kept_tables(files, lo, hi);
    let head = filter_kept(files[0].tables, lo, hi);
    if f == 0 {
        lemma_filter_kept_member(files[0].tables, lo, hi, j);
        let k = choose|k: int| 0 <= k < head.len() && head[k] == files[0].tables[j];
        assert(ks[k] == files[0].tables[j]);
    } else {
        lemma_kept_tables_member(files.skip(1), lo, hi, f - 1, j);
        assert(files.skip(1)[f - 1] == files[f]);
        let k = choose|k: int|
            0 <= k < kept_tables(files.skip(1), lo, hi).len() && kept_tables(files.skip(1), lo, hi)[
                k] == files.skip(1)[f - 1].tables[j];
        assert(ks[head.len() + k] == kept_tables(files.skip(1), lo, hi)[k]);
    }
}

/// A surviving table of `ts` appears in `filter_kept(ts, ..)`.
pub proof fn lemma_filter_kept_member(ts: Seq<TableView>, lo: u64, hi: u64, j: int)
    requires
        0 <= j < ts.len(),
        keeps(ts[j], lo, hi),
    ensures
        exists|k: int|
            0 <= k < filter_kept(ts, lo, hi).len() && filter_kept(ts, lo, hi)[k] == ts[j],
    decreases ts.len(),
{
    let fk = filter_kept(ts, lo, hi);
    if j == 0 {
        assert(fk[0] == ts[0]);
    } else {
        assert(ts.skip(1)[j - 1] == ts[j]);
        lemma_filter_kept_member(ts.skip(1), lo, hi, j - 1);
        let head: Seq<TableView> = if keeps(ts[0], lo, hi) {
            seq![ts[0]]
        } else {
            Seq::empty()
        };
        let k = choose|k: int|
            0 <= k < filter_kept(ts.skip(1), lo, hi).len() && filter_kept(ts.skip(1), lo, hi)[k]
                == ts.skip(1)[j - 1];
        assert(fk[head.len() + k] == filter_kept(ts.skip(1), lo, hi)[k]);
    }
}

/// Time subsetting preserves every lookup inside the kept window:
/// for any date served by a surviving table of the original store,
/// the restricted store serves the same date with a table equal slot
/// for slot — and its header keeps the layout and interval, so
/// evaluation, a pure function of those, returns the identical
/// result.
pub proof fn lemma_time_subset_preserves(
    store: StoreView,
    sub: StoreView,
    lo: u64,
    hi: u64,
    jd: u64,
    f: int,
    j: int,
)
    requires
        store.unambiguous(),
        sub.files.len() == 1,
        sub.files[0].tables == kept_tables(store.files, lo, hi),
        0 <= f < store.files.len(),
        0 <= j < store.files[f].tables.len(),
        store.files[f].tables[j].contains(jd),
        keeps(store.files[f].tables[j], lo, hi),
    ensures
        find_table_index(sub.files[0].tables, jd) matches Some(k) && sub.files[0].tables[k]
            == store.files[f].tables[j],
{
    let t = store.files[f].tables[j];
    let ks = kept_tables(store.files, lo, hi);
    lemma_kept_tables_member(store.files, lo, hi, f, j);
    let k0 = choose|k: int| 0 <= k < ks.len() && ks[k] == t;
    lemma_find_table_exists(ks, jd, k0);
    lemma_find_table_found(ks, jd);
    let k = find_table_index(ks, jd)->Some_0;
    lemma_kept_tables_elements(store.files, lo, hi);
    assert(store.has_table(ks[k]));
    assert(store.has_table(t));
    assert(ks[k] == t);
}

/// The total kept width is never negative.
pub proof fn lemma_kept_width_nonneg(s: Seq<TableDescriptor>, keep: Set<u32>)
    ensures
        kept_width(s, keep) >= 0,
    decreases s.len(),
{
    if s.len() > 0 {
        lemma_kept_width_nonneg(s.skip(1), keep);
        assert(s[0].width() >= 0) by (nonlinear_arith)
            requires
                s[0].width() == 6 * s[0].coefficient_count * s[0].sub_intervals,
                s[0].coefficient_count >= 0,
                s[0].sub_intervals >= 0,
        ;
    }
}

/// The recompacted buffer always has the total kept width.
pub proof fn lemma_subset_data_len(data: Seq<u64>, s: Seq<TableDescriptor>, keep: Set<u32>)
    requires
        forall|k: int|
            0 <= k < s.len() ==> (#[trigger] s[k]).offset + s[k].width() <= data.len() + 1,
        forall|k: int| 0 <= k < s.len() ==> (#[trigger] s[k]).offset >= 1,
        forall|k: int| 0 <= k < s.len() ==> (#[trigger] s[k]).coefficient_count >= 1,
        forall|k: int| 0 <= k < s.len() ==> (#[trigger] s[k]).sub_intervals >= 1,
    ensures
        subset_data(data, s, keep).len() == kept_width(s, keep),
    decreases s.len(),
{
    if s.len() > 0 {
        let s2 = s.skip(1);
        assert(forall|k: int| 0 <= k < s2.len() ==> s2[k] == #[trigger] s[k + 1]);
        lemma_subset_data_len(data, s2, keep);
        if keep.contains(s[0].planet) {
            assert(s[0].width() >= 0) by (nonlinear_arith)
                requires
                    s[0].coefficient_count >= 1,
                    s[0].sub_intervals >= 1,
                    s[0].width() == 6 * s[0].coefficient_count * s[0].sub_intervals,
            ;
            assert(data.subrange(s[0].offset - 1, s[0].offset - 1 + s[0].width()).len() == s[
                0].width());
        }
    }
}

/// A planet left out of the request resolves to no descriptor in the
/// recompacted layout.
pub proof fn lemma_planet_subset_removes(
    s: Seq<TableDescriptor>,
    keep: Set<u32>,
    off: int,
    id: u32,
)
    requires
        !keep.contains(id),
    ensures
        find_desc(subset_structure(s, keep, off), id) is None,
    decreases s.len(),
{
    if s.len() > 0 {
        if keep.contains(s[0].planet) {
            lemma_planet_subset_removes(s.skip(1), keep, off + s[0].width(), id);
            let ns = subset_structure(s, keep, off);
            assert(ns.skip(1) =~= subset_structure(s.skip(1), keep, off + s[0].width()));
            assert(ns[0].planet == s[0].planet && s[0].planet != id);
        } else {
            lemma_planet_subset_removes(s.skip(1), keep, off, id);
        }
    }
}

/// Planet subsetting preserves a kept planet entirely: in the
/// recompacted layout its descriptor keeps its term and sub-interval
/// counts, and every slot of its block — hence every coefficient the
/// evaluator reads for any of its sub-intervals — is the original
/// slot of the original block.
pub proof fn lemma_planet_subset_preserves(h: HeaderView, data: Seq<u64>, keep: Set<u32>, i: int)
    requires
        h.wf(),
        data.len() == h.table_size,
        0 <= i < h.structure.len(),
        keep.contains(h.structure[i].planet),
    ensures
        subset_data(data, h.structure, keep).len() == kept_width(h.structure, keep),
        kept_width(h.structure.take(i), keep) + h.structure[i].width() <= kept_width(
            h.structure,
            keep,
        ),
        find_desc(subset_structure(h.structure, keep, 1), h.structure[i].planet) == Some(
            TableDescriptor {
                planet: h.structure[i].planet,
                coefficient_count: h.structure[i].coefficient_count,
                offset: (1 + kept_width(h.structure.take(i), keep)) as u32,
                sub_intervals: h.structure[i].sub_intervals,
            },
        ),
        1 + kept_width(h.structure.take(i), keep) <= h.structure[i].offset,
        forall|m: int|
            0 <= m < h.structure[i].width() ==> #[trigger] subset_data(data, h.structure, keep)[
                kept_width(h.structure.take(i), keep) + m] == data[h.structure[i].offset - 1 + m],
{
    lemma_dense_bounds_all(h);
    lemma_subset_block_general(data, h.structure, keep, 1, i);
}

/// Every surviving table is a table of `ts`, and survives.
pub proof fn lemma_filter_kept_elements(ts: Seq<TableView>, lo: u64, hi: u64)
    ensures
        forall|k: int|
            0 <= k < filter_kept(ts, lo, hi).len() ==> {
                &&& keeps(#[trigger] filter_kept(ts, lo, hi)[k], lo, hi)
                &&& exists|j: int| 0 <= j < ts.len() && filter_kept(ts, lo, hi)[k] == ts[j]
            },
    decreases ts.len(),
{
    if ts.len() > 0 {
        lemma_filter_kept_elements(ts.skip(1), lo, hi);
        assert forall|k: int| 0 <= k < filter_kept(ts, lo, hi).len() implies {
            &&& keeps(#[trigger] filter_kept(ts, lo, hi)[k], lo, hi)
            &&& exists|j: int| 0 <= j < ts.len() && filter_kept(ts, lo, hi)[k] == ts[j]
        } by {
            let head: Seq<TableView> = if keeps(ts[0], lo, hi) {
                seq![ts[0]]
            } else {
                Seq::empty()
            };
            if k < head.len() {
                assert(filter_kept(ts, lo, hi)[k] == ts[0]);
            } else {
                let k2 = k - head.len();
                assert(filter_kept(ts, lo, hi)[k] == filter_kept(ts.skip(1), lo, hi)[k2]);
                let j2 = choose|j2: int|
                    0 <= j2 < ts.skip(1).len() && filter_kept(ts.skip(1), lo, hi)[k2] == ts.skip(
                        1,
                    )[j2];
                assert(ts.skip(1)[j2] == ts[j2 + 1]);
            }
        }
    }
}

/// Every surviving table of the whole store is a table of one of its
/// archives, and survives the restriction.
pub proof fn lemma_kept_tables_elements(files: Seq<PartialView>, lo: u64, hi: u64)
    ensures
        forall|k: int|
            0 <= k < kept_tables(files, lo, hi).len() ==> {
                &&& keeps(#[trigger] kept_tables(files, lo, hi)[k], lo, hi)
                &&& exists|f: int, j: int|
                    0 <= f < files.len() && 0 <= j < files[f].tables.len() && kept_tables(
                        files,
                        lo,
                        hi,
                    )[k] == files[f].tables[j]
            },
    decreases files.len(),
{
    if files.len() > 0 {
        lemma_kept_tables_elements(files.skip(1), lo, hi);
        lemma_filter_kept_elements(files[0].tables, lo, hi);
        assert forall|k: int| 0 <= k < kept_tables(files, lo, hi).len() implies {
            &&& keeps(#[trigger] kept_tables(files, lo, hi)[k], lo, hi)
            &&& exists|f: int, j: int|
                0 <= f < files.len() && 0 <= j < files[f].tables.len() && kept_tables(
                    files,
                    lo,
                    hi,
                )[k] == files[f].tables[j]
        } by {
            let head = filter_kept(files[0].tables, lo, hi);
            if k < head.len() {
                assert(kept_tables(files, lo, hi)[k] == head[k]);
                let j = choose|j: int|
                    0 <= j < files[0].tables.len() && head[k] == files[0].tables[j];
                assert(0 <= 0 < files.len() && 0 <= j < files[0].tables.len() && kept_tables(
                    files,
                    lo,
                    hi,
                )[k] == files[0].tables[j]);
            } else {
                let k2 = k - head.len();
                assert(kept_tables(files, lo, hi)[k] == kept_tables(files.skip(1), lo, hi)[k2]);
                let (f2, j2) = choose|f2: int, j2: int|
                    0 <= f2 < files.skip(1).len() && 0 <= j2 < files.skip(1)[f2].tables.len()
                        && kept_tables(files.skip(1), lo, hi)[k2] == files.skip(1)[f2].tables[j2];
                assert(files.skip(1)[f2] == files[f2 + 1]);
            }
        }
    }
}

/// Element-for-element equality of two descriptor lists.
pub fn same_structure(a: &Vec<TableDescriptor>, b: &Vec<TableDescriptor>) -> (r: bool)
    ensures
        r == (a@ == b@),
{
    if a.len() != b.len() {
        proof {
            assert(a@.len() != b@.len());
        }
        return false;
    }
    let n = a.len();
    for i in 0..n
        invariant
            n == a@.len(),
            n == b@.len(),
            forall|k: int| 0 <= k < i ==> a@[k] == b@[k],
    {
        if !(a[i].planet == b[i].planet && a[i].coefficient_count == b[i].coefficient_count && a[i].offset
            == b[i].offset && a[i].sub_intervals == b[i].sub_intervals) {
            return false;
        }
    }
    proof {
        assert(a@ =~= b@);
    }
    true
}

} // verus!
