use vsop2013::codec::{deserialize_partial, serialize_partial};
use vsop2013::{Header, PartialVsop2013, Table, TableDescriptor};

fn jd(x: f64) -> u64 {
    x.to_bits()
}

fn sample() -> PartialVsop2013 {
    PartialVsop2013 {
        header: Header {
            version: 2013,
            span_start: jd(100.0),
            span_end: jd(120.0),
            interval: jd(10.0),
            tables: 2,
            table_size: 4,
            structure: vec![
                TableDescriptor { planet: 0, coefficient_count: 2, offset: 1, sub_intervals: 1 },
                TableDescriptor { planet: 1, coefficient_count: 3, offset: 13, sub_intervals: 4 },
            ],
        },
        tables: vec![
            Table {
                start: jd(100.0),
                stop: jd(110.0),
                data: vec![jd(1.5), jd(-2.25), jd(0.0), jd(3.0e8)],
            },
            Table {
                start: jd(110.0),
                stop: jd(120.0),
                data: vec![jd(-0.0), jd(7.125), jd(1.0e-300), jd(4.0)],
            },
        ],
    }
}

#[test]
fn round_trip_is_identity() {
    let p = sample();
    let words = serialize_partial(&p);
    let q = deserialize_partial(&words).expect("image reads back");
    assert_eq!(p, q);
}

#[test]
fn round_trip_keeps_float_bits() {
    let p = sample();
    let words = serialize_partial(&p);
    let q = deserialize_partial(&words).expect("image reads back");
    assert_eq!(f64::from_bits(q.tables[0].data[1]), -2.25);
    assert!(f64::from_bits(q.tables[1].data[0]).is_sign_negative());
    assert_eq!(q.tables[1].data[2], (1.0e-300f64).to_bits());
}

#[test]
fn empty_archive_round_trips() {
    let p = PartialVsop2013 {
        header: Header {
            version: -1,
            span_start: 0,
            span_end: 0,
            interval: 0,
            tables: 0,
            table_size: 0,
            structure: vec![],
        },
        tables: vec![],
    };
    let words = serialize_partial(&p);
    let q = deserialize_partial(&words).expect("image reads back");
    assert_eq!(p, q);
}

#[test]
fn truncated_image_is_refused() {
    let p = sample();
    let mut words = serialize_partial(&p);
    words.pop();
    assert!(deserialize_partial(&words).is_none());
    assert!(deserialize_partial(&vec![1, 2, 3]).is_none());
}

#[test]
fn trailing_words_are_refused() {
    let p = sample();
    let mut words = serialize_partial(&p);
    words.push(0);
    assert!(deserialize_partial(&words).is_none());
}

#[test]
fn oversized_field_is_refused() {
    let p = sample();
    let mut words = serialize_partial(&p);
    // The fifth word is the table counter, a 32-bit field.
    words[4] = u64::MAX;
    assert!(deserialize_partial(&words).is_none());
}

#[test]
fn duplicate_unchanged() {
    let p = sample();
    let q = p.duplicate();
    assert_eq!(p, q);
    let h = p.header.duplicate();
    assert_eq!(p.header, h);
}
