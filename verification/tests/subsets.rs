use vsop2013::{Header, PartialVsop2013, Planet, Table, TableDescriptor, Vsop2013};

fn jd(x: f64) -> u64 {
    x.to_bits()
}

fn header(span_start: f64, span_end: f64, tables: u32) -> Header {
    Header {
        version: 2013,
        span_start: jd(span_start),
        span_end: jd(span_end),
        interval: jd(10.0),
        tables,
        table_size: 36,
        structure: vec![
            TableDescriptor { planet: 0, coefficient_count: 2, offset: 1, sub_intervals: 1 },
            TableDescriptor { planet: 1, coefficient_count: 1, offset: 13, sub_intervals: 2 },
            TableDescriptor { planet: 2, coefficient_count: 2, offset: 25, sub_intervals: 1 },
        ],
    }
}

fn table(start: f64, stop: f64, seed: u64) -> Table {
    let data: Vec<u64> = (0..36).map(|i| ((seed * 1000 + i) as f64).to_bits()).collect();
    Table { start: jd(start), stop: jd(stop), data }
}

fn store() -> Vsop2013 {
    Vsop2013 {
        files: vec![
            PartialVsop2013 {
                header: header(100.0, 120.0, 2),
                tables: vec![table(100.0, 110.0, 1), table(110.0, 120.0, 2)],
            },
            PartialVsop2013 {
                header: header(120.0, 140.0, 2),
                tables: vec![table(120.0, 130.0, 3), table(130.0, 140.0, 4)],
            },
        ],
    }
}

#[test]
fn consistency_holds_and_breaks() {
    let s = store();
    assert!(s.check_consistency());
    let mut bad = store();
    bad.files[1].header.interval = jd(20.0);
    assert!(!bad.check_consistency());
    let mut bad2 = store();
    bad2.files[1].header.structure[1].offset = 14;
    assert!(!bad2.check_consistency());
}

#[test]
fn well_formedness_checks_layout_and_buffers() {
    let s = store();
    assert!(s.check_well_formed());
    // A gap in the offset chain.
    let mut bad = store();
    for f in bad.files.iter_mut() {
        f.header.structure[1].offset = 14;
    }
    assert!(!bad.check_well_formed());
    // A truncated coefficient buffer.
    let mut bad2 = store();
    bad2.files[1].tables[0].data.pop();
    assert!(!bad2.check_well_formed());
    // A buffer width that disagrees with the layout.
    let mut bad3 = store();
    for f in bad3.files.iter_mut() {
        f.header.table_size = 35;
    }
    assert!(!bad3.check_well_formed());
}

#[test]
fn time_subset_keeps_qualifying_tables() {
    let s = store();
    // Window of interest [115, 125), already widened by one interval
    // on each side: [105, 135).
    let sub = s.new_from_range(jd(105.0), jd(135.0)).expect("two tables qualify");
    assert_eq!(sub.files.len(), 1);
    let p = &sub.files[0];
    assert_eq!(p.tables.len(), 2);
    assert_eq!(p.tables[0].start, jd(110.0));
    assert_eq!(p.tables[1].start, jd(120.0));
    assert_eq!(p.header.version, 2013);
    assert_eq!(p.header.span_start, jd(110.0));
    assert_eq!(p.header.span_end, jd(130.0));
    assert_eq!(p.header.tables, 2);
    assert_eq!(p.header.table_size, 36);
    assert_eq!(p.header.structure, s.files[0].header.structure);
}

#[test]
fn time_subset_preserves_lookup_results() {
    let s = store();
    let sub = s.new_from_range(jd(105.0), jd(135.0)).expect("subset");
    for q in [110.0, 115.5, 120.0, 129.9] {
        let orig = s.get_table(jd(q)).expect("original serves the date");
        let kept = sub.get_table(jd(q)).expect("subset serves the date");
        assert_eq!(orig, kept);
    }
}

#[test]
fn time_subset_empty_window_fails() {
    let s = store();
    assert!(s.new_from_range(jd(500.0), jd(600.0)).is_none());
    let empty = Vsop2013 { files: vec![] };
    assert!(empty.new_from_range(jd(0.0), jd(1.0)).is_none());
}

#[test]
fn planet_subset_recompacts_layout_and_data() {
    let s = store();
    let sub = s
        .new_from_range_planets(jd(105.0), jd(135.0), &[Planet::Mercury, Planet::Earth])
        .expect("subset with two planets");
    let p = &sub.files[0];
    // Venus's twelve slots are gone; Earth's block moves down by
    // twelve.
    assert_eq!(p.header.table_size, 24);
    assert_eq!(
        p.header.structure,
        vec![
            TableDescriptor { planet: 0, coefficient_count: 2, offset: 1, sub_intervals: 1 },
            TableDescriptor { planet: 2, coefficient_count: 2, offset: 13, sub_intervals: 1 },
        ]
    );
    assert_eq!(p.tables.len(), 2);
    for (ti, seed) in [(0usize, 2u64), (1usize, 3u64)] {
        let t = &p.tables[ti];
        assert_eq!(t.data.len(), 24);
        for i in 0..12 {
            assert_eq!(t.data[i], ((seed * 1000 + i as u64) as f64).to_bits());
        }
        for i in 0..12 {
            assert_eq!(t.data[12 + i], ((seed * 1000 + 24 + i as u64) as f64).to_bits());
        }
    }
}

#[test]
fn planet_subset_preserves_kept_and_removes_rest() {
    let s = store();
    let sub = s
        .new_from_range_planets(jd(105.0), jd(135.0), &[Planet::Earth])
        .expect("subset with one planet");
    let p = &sub.files[0];
    let d = p.header.get_structure(Planet::Earth).expect("kept planet resolves");
    assert_eq!(d.coefficient_count, 2);
    assert_eq!(d.sub_intervals, 1);
    assert_eq!(d.offset, 1);
    assert!(p.header.get_structure(Planet::Mercury).is_none());
    assert!(p.header.get_structure(Planet::Venus).is_none());
    // The kept planet's coefficients are the original block, slot
    // for slot.
    let t = &p.tables[0];
    let orig = s.get_table(jd(115.0)).expect("original table");
    let (_, new_block) = t.coefficient_block(&d, 0).expect("new block");
    let d_old = s.files[0].header.get_structure(Planet::Earth).expect("old descriptor");
    let (_, old_block) = orig.coefficient_block(d_old, 0).expect("old block");
    assert_eq!(new_block, old_block);
}

#[test]
fn planet_subset_rejects_empty_and_unknown() {
    let s = store();
    assert!(s.new_from_range_planets(jd(105.0), jd(135.0), &[]).is_none());
    // Mars has no descriptor in this layout.
    assert!(s.new_from_range_planets(jd(105.0), jd(135.0), &[Planet::Mars]).is_none());
}
