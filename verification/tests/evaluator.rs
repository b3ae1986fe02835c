use vsop2013::{Table, TableDescriptor};

fn jd(x: f64) -> u64 {
    x.to_bits()
}

#[test]
fn scenario_two_planets_one_sub_interval() {
    // Two planets, one sub-interval, two Chebyshev terms each and a
    // ten-day window: at jd == start the normalized argument is
    // x == -1, the basis is T = [1, -1], so each component evaluates
    // to its first coefficient minus its second.  With every second
    // coefficient zero the result is the block's first coefficient,
    // hand-checkable component by component.
    let ncf = 2usize;
    let mut data: Vec<u64> = Vec::new();
    for planet in 0..2 {
        for comp in 0..6 {
            let c0 = (10 * planet + comp) as f64;
            data.push(c0.to_bits());
            data.push(0.0f64.to_bits());
        }
    }
    let t = Table { start: jd(100.0), stop: jd(110.0), data };
    let d1 = TableDescriptor { planet: 1, coefficient_count: 2, offset: 13, sub_intervals: 1 };

    // jd == start lands in sub-interval 0.
    let (ik, block) = t.coefficient_block(&d1, 0).expect("block inside the buffer");
    assert_eq!(ik, 0);
    assert_eq!(block.len(), 12);

    let x: f64 = -1.0;
    let tn = [1.0, x];
    for comp in 0..6 {
        let mut r: f64 = 0.0;
        for k in 0..ncf {
            r += tn[k] * f64::from_bits(block[comp * ncf + k]);
        }
        assert_eq!(r, (10 + comp) as f64);
    }
}

#[test]
fn block_of_first_planet() {
    let data: Vec<u64> = (0..24).map(|i| (i as f64).to_bits()).collect();
    let t = Table { start: jd(100.0), stop: jd(110.0), data };
    let d0 = TableDescriptor { planet: 0, coefficient_count: 2, offset: 1, sub_intervals: 1 };
    let (ik, block) = t.coefficient_block(&d0, 0).expect("block inside the buffer");
    assert_eq!(ik, 0);
    let got: Vec<f64> = block.iter().map(|w| f64::from_bits(*w)).collect();
    let want: Vec<f64> = (0..12).map(|i| i as f64).collect();
    assert_eq!(got, want);
}

#[test]
fn boundary_query_clamps_to_last_sub_interval() {
    // Four sub-intervals of one planet with three terms: a query at
    // the exact upper bound of the window computes sub-interval 4 and
    // must be served by sub-interval 3, not read out of bounds.
    let nsi = 4u32;
    let ncf = 3u32;
    let width = (6 * ncf * nsi) as usize;
    let data: Vec<u64> = (0..width).map(|i| (i as f64).to_bits()).collect();
    let t = Table { start: jd(100.0), stop: jd(110.0), data };
    let d = TableDescriptor { planet: 0, coefficient_count: ncf, offset: 1, sub_intervals: nsi };
    let (ik, block) = t.coefficient_block(&d, nsi).expect("clamped to the last sub-interval");
    assert_eq!(ik, nsi - 1);
    assert_eq!(block.len(), (6 * ncf) as usize);
    assert_eq!(f64::from_bits(block[0]), (6 * ncf * (nsi - 1)) as f64);
}

#[test]
fn block_out_of_bounds_is_refused() {
    let data: Vec<u64> = (0..24).map(|i| (i as f64).to_bits()).collect();
    let t = Table { start: jd(100.0), stop: jd(110.0), data };
    // Offset points past the buffer.
    let d = TableDescriptor { planet: 0, coefficient_count: 2, offset: 14, sub_intervals: 1 };
    assert!(t.coefficient_block(&d, 0).is_none());
    // Sub-interval index past the clamp.
    let d0 = TableDescriptor { planet: 0, coefficient_count: 2, offset: 1, sub_intervals: 1 };
    assert!(t.coefficient_block(&d0, 2).is_none());
    // A zero offset is not a block address.
    let dz = TableDescriptor { planet: 0, coefficient_count: 2, offset: 0, sub_intervals: 1 };
    assert!(t.coefficient_block(&dz, 0).is_none());
}

#[test]
fn evaluation_is_deterministic() {
    let data: Vec<u64> = (0..24).map(|i| ((i * 7) as f64).to_bits()).collect();
    let t = Table { start: jd(100.0), stop: jd(110.0), data };
    let d = TableDescriptor { planet: 1, coefficient_count: 2, offset: 13, sub_intervals: 1 };
    let a = t.coefficient_block(&d, 0).expect("block");
    let b = t.coefficient_block(&d, 0).expect("block");
    assert_eq!(a.0, b.0);
    assert_eq!(a.1, b.1);
}
