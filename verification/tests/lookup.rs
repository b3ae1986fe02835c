use vsop2013::{Header, PartialVsop2013, Table, TableDescriptor, Planet, Vsop2013};

fn jd(x: f64) -> u64 {
    x.to_bits()
}

fn two_planet_header(span_start: f64, span_end: f64, tables: u32) -> Header {
    Header {
        version: 2013,
        span_start: jd(span_start),
        span_end: jd(span_end),
        interval: jd(10.0),
        tables,
        table_size: 24,
        structure: vec![
            TableDescriptor { planet: 0, coefficient_count: 2, offset: 1, sub_intervals: 1 },
            TableDescriptor { planet: 1, coefficient_count: 2, offset: 13, sub_intervals: 1 },
        ],
    }
}

fn table(start: f64, stop: f64) -> Table {
    let data: Vec<u64> = (0..24).map(|i| (i as f64).to_bits()).collect();
    Table { start: jd(start), stop: jd(stop), data }
}

#[test]
fn find_table_inside_window() {
    let p = PartialVsop2013 {
        header: two_planet_header(100.0, 130.0, 3),
        tables: vec![table(100.0, 110.0), table(110.0, 120.0), table(120.0, 130.0)],
    };
    let t = p.get_table(jd(105.0)).expect("date inside the first window");
    assert_eq!(t.start, jd(100.0));
    assert_eq!(t.stop, jd(110.0));
}

#[test]
fn find_table_at_boundary_uses_next_window() {
    let p = PartialVsop2013 {
        header: two_planet_header(100.0, 130.0, 3),
        tables: vec![table(100.0, 110.0), table(110.0, 120.0), table(120.0, 130.0)],
    };
    let t = p.get_table(jd(110.0)).expect("boundary belongs to the next window");
    assert_eq!(t.start, jd(110.0));
}

#[test]
fn find_table_outside_all_windows() {
    let p = PartialVsop2013 {
        header: two_planet_header(100.0, 130.0, 3),
        tables: vec![table(100.0, 110.0), table(110.0, 120.0), table(120.0, 130.0)],
    };
    assert!(p.get_table(jd(99.0)).is_none());
    assert!(p.get_table(jd(130.0)).is_none());
}

#[test]
fn find_table_in_gap() {
    let p = PartialVsop2013 {
        header: two_planet_header(100.0, 130.0, 2),
        tables: vec![table(100.0, 110.0), table(120.0, 130.0)],
    };
    assert!(p.get_table(jd(115.0)).is_none());
}

#[test]
fn get_partial_picks_archive_by_span() {
    let store = Vsop2013 {
        files: vec![
            PartialVsop2013 {
                header: two_planet_header(100.0, 120.0, 2),
                tables: vec![table(100.0, 110.0), table(110.0, 120.0)],
            },
            PartialVsop2013 {
                header: two_planet_header(120.0, 140.0, 2),
                tables: vec![table(120.0, 130.0), table(130.0, 140.0)],
            },
        ],
    };
    let f = store.get_partial(jd(125.0)).expect("second archive");
    assert_eq!(f.header.span_start, jd(120.0));
    assert!(store.get_partial(jd(140.0)).is_none());
    let t = store.get_table(jd(111.5)).expect("first archive, second table");
    assert_eq!(t.start, jd(110.0));
}

#[test]
fn is_in_range_matches_span() {
    let p = PartialVsop2013 {
        header: two_planet_header(100.0, 130.0, 0),
        tables: vec![],
    };
    assert!(p.is_in_range(jd(100.0)));
    assert!(p.is_in_range(jd(129.5)));
    assert!(!p.is_in_range(jd(130.0)));
    let t = table(100.0, 110.0);
    assert!(t.is_in_range(jd(100.0)));
    assert!(!t.is_in_range(jd(110.0)));
    assert!(t.is_in_range_partial(jd(110.0)));
}

#[test]
fn tables_enumerates_in_store_order() {
    let store = Vsop2013 {
        files: vec![
            PartialVsop2013 {
                header: two_planet_header(100.0, 110.0, 1),
                tables: vec![table(100.0, 110.0)],
            },
            PartialVsop2013 {
                header: two_planet_header(110.0, 120.0, 1),
                tables: vec![table(110.0, 120.0)],
            },
        ],
    };
    let all = store.tables();
    assert_eq!(all.len(), 2);
    assert_eq!(all[0].start, jd(100.0));
    assert_eq!(all[1].start, jd(110.0));
}

#[test]
fn get_structure_finds_planet() {
    let h = two_planet_header(100.0, 130.0, 0);
    let d = h.get_structure(Planet::Venus).expect("second descriptor");
    assert_eq!(d.offset, 13);
    assert!(h.get_structure(Planet::Earth).is_none());
}

#[test]
fn planet_iter_order_and_names() {
    let all = Planet::iter();
    assert_eq!(all.len(), 9);
    assert_eq!(all[0], Planet::Mercury);
    assert_eq!(all[8], Planet::Pluto);
    assert_eq!(all[2].index(), 2);
    assert_eq!(all[2].name(), "Earth-Moon");
    let e = TableDescriptor::empty();
    assert_eq!(e.planet, 0);
    assert_eq!(e.coefficient_count, 0);
}
