use vstd::prelude::*;

use crate::header::{Header, HeaderView, TableDescriptor};
use crate::partial::{PartialView, PartialVsop2013};
use crate::planet_data::{Table, TableView};

verus! {

/// Binary image of one archive, as a sequence of 64-bit words: the
/// six header scalars, the descriptor count, four words per
/// descriptor, the table count, and per table its two window bounds,
/// its buffer length and its buffer.
pub open spec fn encode_partial(p: PartialView) -> Seq<u64> {
    seq![
        p.header.version as u64,
        p.header.span_start,
        p.header.span_end,
        p.header.interval,
        p.header.tables as u64,
        p.header.table_size as u64,
        p.header.structure.len() as u64,
    ] + encode_descs(p.header.structure) + seq![p.tables.len() as u64] + encode_tables(p.tables)
}

/// Four words per descriptor.
pub open spec fn encode_descs(s: Seq<TableDescriptor>) -> Seq<u64>
    decreases s.len(),
{
    if s.len() == 0 {
        Seq::empty()
    } else {
        seq![
            s[0].planet as u64,
            s[0].coefficient_count as u64,
            s[0].offset as u64,
            s[0].sub_intervals as u64,
        ] + encode_descs(s.skip(1))
    }
}

/// Window bounds, buffer length and buffer, table after table.
pub open spec fn encode_tables(ts: Seq<TableView>) -> Seq<u64>
    decreases ts.len(),
{
    if ts.len() == 0 {
        Seq::empty()
    } else {
        seq![ts[0].start, ts[0].stop, ts[0].data.len() as u64] + ts[0].data + encode_tables(
            ts.skip(1),
        )
    }
}

/// A word that fits a descriptor field.
pub open spec fn dec_u32(w: u64) -> Option<u32> {
    if w <= u32::MAX {
        Some(w as u32)
    } else {
        None
    }
}

/// `n` descriptors starting at word `i`, with the next cursor.
pub open spec fn parse_descs(w: Seq<u64>, i: int, n: nat) -> Option<(Seq<TableDescriptor>, int)>
    decreases n,
{
    if n == 0 {
        Some((Seq::empty(), i))
    } else if i + 4 > w.len() {
        None
    } else if w[i] > u32::MAX || w[i + 1] > u32::MAX || w[i + 2] > u32::MAX || w[i + 3]
        > u32::MAX {
        None
    } else {
        let d = TableDescriptor {
            planet: w[i] as u32,
            coefficient_count: w[i + 1] as u32,
            offset: w[i + 2] as u32,
            sub_intervals: w[i + 3] as u32,
        };
        match parse_descs(w, i + 4, (n - 1) as nat) {
            Some((s, e)) => Some((seq![d] + s, e)),
            None => None,
        }
    }
}

/// `n` tables starting at word `i`, with the next cursor.
pub open spec fn parse_tables(w: Seq<u64>, i: int, n: nat) -> Option<(Seq<TableView>, int)>
    decreases n,
{
    if n == 0 {
        Some((Seq::empty(), i))
    } else if i + 3 > w.len() {
        None
    } else if i + 3 + w[i + 2] > w.len() {
        None
    } else {
        let dl = w[i + 2] as int;
        let t = TableView { start: w[i], stop: w[i + 1], data: w.subrange(i + 3, i + 3 + dl) };
        match parse_tables(w, i + 3 + dl, (n - 1) as nat) {
            Some((ts, e)) => Some((seq![t] + ts, e)),
            None => None,
        }
    }
}

/// The archive a word sequence holds, if it is a complete image:
/// scalars, descriptors and tables read back in order, with nothing
/// left over.
pub open spec fn decode_partial(w: Seq<u64>) -> Option<PartialView> {
    if w.len() < 7 {
        None
    } else {
        match (dec_u32(w[4]), dec_u32(w[5])) {
            (Some(tables), Some(table_size)) => match parse_descs(w, 7, w[6] as nat) {
                Some((structure, e1)) => {
                    if e1 + 1 > w.len() {
                        None
                    } else {
                        match parse_tables(w, e1 + 1, w[e1] as nat) {
                            Some((ts, e2)) => {
                                if e2 == w.len() {
                                    Some(
                                        PartialView {
                                            header: HeaderView {
                                                version: w[0] as i32,
                                                span_start: w[1],
                                                span_end: w[2],
                                                interval: w[3],
                                                tables: tables,
                                                table_size: table_size,
                                                structure: structure,
                                            },
                                            tables: ts,
                                        },
                                    )
                                } else {
                                    None
                                }
                            },
                            None => None,
                        }
                    }
                },
                None => None,
            },
            _ => None,
        }
    }
}

/// The binary image of `p`, word for word.
pub fn serialize_partial(p: &PartialVsop2013) -> (r: Vec<u64>)
    ensures
        r@ == encode_partial(p@),
{
    let mut r: Vec<u64> = Vec::new();
    r.push(#[verifier::truncate] (p.header.version as u64));
    r.push(p.header.span_start);
    r.push(p.header.span_end);
    r.push(p.header.interval);
    r.push(p.header.tables as u64);
    r.push(p.header.table_size as u64);
    r.push(p.header.structure.len() as u64);
    let ghost head = r@;
    let ghost st = p@.header.structure;
    let ns = p.header.structure.len();
    proof {
        assert(st.skip(0) =~= st);
    }
    for i in 0..ns
        invariant
            ns == st.len(),
            st == p@.header.structure,
            head + encode_descs(st) =~= r@ + encode_descs(st.skip(i as int)),
    {
        proof {
            assert(st.skip(i as int)[0] == st[i as int]);
            assert(st.skip(i as int).skip(1) =~= st.skip(i as int + 1));
        }
        let d = p.header.structure[i];
        r.push(d.planet as u64);
        r.push(d.coefficient_count as u64);
        r.push(d.offset as u64);
        r.push(d.sub_intervals as u64);
    }
    proof {
        assert(st.skip(ns as int) =~= Seq::<TableDescriptor>::empty());
        assert(r@ =~= head + encode_descs(st));
    }
    r.push(p.tables.len() as u64);
    let ghost mid = r@;
    let ghost ts = p@.tables;
    let nt = p.tables.len();
    proof {
        assert(ts.skip(0) =~= ts);
        assert(p.tables@.len() == ts.len());
    }
    for ti in 0..nt
        invariant
            nt == ts.len(),
            ts == p@.tables,
            p.tables@.len() == ts.len(),
            forall|k: int| 0 <= k < ts.len() ==> (#[trigger] p.tables@[k])@ == ts[k],
            mid + encode_tables(ts) =~= r@ + encode_tables(ts.skip(ti as int)),
    {
        proof {
            assert(ts.skip(ti as int)[0] == ts[ti as int]);
            assert(ts.skip(ti as int).skip(1) =~= ts.skip(ti as int + 1));
        }
        let t = &p.tables[ti];
        proof {
            assert(t@ == ts[ti as int]);
        }
        r.push(t.start);
        r.push(t.stop);
        r.push(t.data.len() as u64);
        let ghost snap = r@;
        let nd = t.data.len();
        proof {
            assert(t@.data.take(0) =~= Seq::<u64>::empty());
        }
        for k in 0..nd
            invariant
                nd == t@.data.len(),
                r@ =~= snap + t@.data.take(k as int),
        {
            r.push(t.data[k]);
            proof {
                assert(t@.data.take(k as int + 1) =~= t@.data.take(k as int).push(
                    t@.data[k as int],
                ));
            }
        }
        proof {
            assert(t@.data.take(nd as int) =~= t@.data);
            assert(r@ =~= snap + t@.data);
        }
    }
    proof {
        assert(ts.skip(nt as int) =~= Seq::<TableView>::empty());
        assert(r@ =~= mid + encode_tables(ts));
        assert(r@ =~= encode_partial(p@));
    }
    r
}

/// The archive a word sequence holds, if it is a complete image;
/// `None` exactly when [`decode_partial`] reads none.
pub fn deserialize_partial(w: &Vec<u64>) -> (r: Option<PartialVsop2013>)
    ensures
        match r {
            Some(p) => decode_partial(w@) == Some(p@),
            None => decode_partial(w@) is None,
        },
{
    if w.len() < 7 {
        return None;
    }
    let version: i32 = #[verifier::truncate] (w[0] as i32);
    if w[4] > 0xffff_ffffu64 || w[5] > 0xffff_ffffu64 {
        return None;
    }
    let tables_field: u32 = w[4] as u32;
    let table_size: u32 = w[5] as u32;
    let slen: u64 = w[6];
    let mut cur: usize = 7;
    let mut structure: Vec<TableDescriptor> = Vec::new();
    let mut k: u64 = 0;
    while k < slen
        invariant
            w@.len() >= 7,
            7 <= cur <= w@.len(),
            k <= slen,
            slen == w@[6],
            parse_descs(w@, 7, slen as nat) == (match parse_descs(
                w@,
                cur as int,
                (slen - k) as nat,
            ) {
                Some((s, e)) => Some((structure@ + s, e)),
                None => None::<(Seq<TableDescriptor>, int)>,
            }),
        decreases slen - k,
    {
        if w.len() - cur < 4 {
            return None;
        }
        if w[cur] > 0xffff_ffffu64 || w[cur + 1] > 0xffff_ffffu64 || w[cur + 2] > 0xffff_ffffu64
            || w[cur + 3] > 0xffff_ffffu64 {
            return None;
        }
        let d = TableDescriptor {
            planet: w[cur] as u32,
            coefficient_count: w[cur + 1] as u32,
            offset: w[cur + 2] as u32,
            sub_intervals: w[cur + 3] as u32,
        };
        let ghost old_structure = structure@;
        structure.push(d);
        proof {
            assert(forall|s: Seq<TableDescriptor>|
                old_structure + (seq![d] + s) =~= #[trigger] (structure@ + s));
        }
        cur = cur + 4;
        k = k + 1;
    }
    proof {
        assert(parse_descs(w@, 7, slen as nat) == Some((structure@, cur as int))) by {
            assert(structure@ + Seq::<TableDescriptor>::empty() =~= structure@);
        }
    }
    if cur >= w.len() {
        return None;
    }
    let tlen: u64 = w[cur];
    let ghost e1 = cur as int;
    cur = cur + 1;
    let mut tables: Vec<Table> = Vec::new();
    let mut t_done: u64 = 0;
    while t_done < tlen
        invariant
            w@.len() >= 7,
            w@[4] <= u32::MAX,
            w@[5] <= u32::MAX,
            slen == w@[6],
            parse_descs(w@, 7, slen as nat) == Some((structure@, e1)),
            7 <= e1,
            e1 + 1 <= cur <= w@.len(),
            t_done <= tlen,
            tlen == w@[e1],
            parse_tables(w@, e1 + 1, tlen as nat) == (match parse_tables(
                w@,
                cur as int,
                (tlen - t_done) as nat,
            ) {
                Some((ts, e)) => Some((tables@.map_values(|t: Table| t@) + ts, e)),
                None => None::<(Seq<TableView>, int)>,
            }),
        decreases tlen - t_done,
    {
        if w.len() - cur < 3 {
            proof {
                assert(parse_tables(w@, cur as int, (tlen - t_done) as nat) is None);
            }
            return None;
        }
        if w[cur + 2] > ((w.len() - cur - 3) as u64) {
            proof {
                assert(parse_tables(w@, cur as int, (tlen - t_done) as nat) is None);
            }
            return None;
        }
        let dl: usize = w[cur + 2] as usize;
        let start = w[cur];
        let stop = w[cur + 1];
        let base = cur + 3;
        let mut data: Vec<u64> = Vec::new();
        proof {
            assert(w@.subrange(base as int, base as int) =~= Seq::<u64>::empty());
        }
        let wl: usize = w.len();
        for di in 0..dl
            invariant
                wl == w@.len(),
                base + dl <= wl,
                data@ =~= w@.subrange(base as int, base as int + di as int),
        {
            data.push(w[base + di]);
            proof {
                assert(w@.subrange(base as int, base as int + di as int + 1) =~= w@.subrange(
                    base as int,
                    base as int + di as int,
                ).push(w@[base as int + di as int]));
            }
        }
        proof {
            assert(data@ =~= w@.subrange(base as int, base as int + dl as int));
        }
        let t = Table { start, stop, data };
        let ghost old_tables = tables@.map_values(|t: Table| t@);
        tables.push(t);
        let ghost new_tables = tables@.map_values(|t: Table| t@);
        proof {
            assert(new_tables =~= old_tables.push(t@));
            assert(forall|s: Seq<TableView>|
                #[trigger] (old_tables + (seq![t@] + s)) =~= new_tables + s);
        }
        cur = base + dl;
        t_done = t_done + 1;
    }
    proof {
        assert(parse_tables(w@, e1 + 1, tlen as nat) == Some(
            (tables@.map_values(|t: Table| t@), cur as int),
        )) by {
            assert(tables@.map_values(|t: Table| t@) + Seq::<TableView>::empty() =~= tables@
                .map_values(|t: Table| t@));
        }
    }
    if cur != w.len() {
        return None;
    }
    let header = Header {
        version,
        span_start: w[1],
        span_end: w[2],
        interval: w[3],
        tables: tables_field,
        table_size,
        structure,
    };
    let p = PartialVsop2013 { header, tables };
    proof {
        assert(decode_partial(w@) matches Some(q) && q =~= p@);
    }
    Some(p)
}

/// The archive is small enough for its counts to be written as
/// words; every archive held in memory is.
pub open spec fn encodable(p: PartialView) -> bool {
    &&& p.header.structure.len() <= u32::MAX
    &&& p.tables.len() <= u32::MAX
    &&& forall|i: int| 0 <= i < p.tables.len() ==> (#[trigger] p.tables[i]).data.len() <= u32::MAX
}

/// Round trip: reading an archive's binary image back yields the
/// archive, structurally equal field for field, slot for slot.
pub proof fn lemma_codec_round_trip(p: PartialView)
    requires
        encodable(p),
    ensures
        decode_partial(encode_partial(p)) == Some(p),
{
    let w = encode_partial(p);
    let head = seq![
        p.header.version as u64,
        p.header.span_start,
        p.header.span_end,
        p.header.interval,
        p.header.tables as u64,
        p.header.table_size as u64,
        p.header.structure.len() as u64,
    ];
    let ed = encode_descs(p.header.structure);
    let et = encode_tables(p.tables);
    lemma_encode_descs_len(p.header.structure);
    lemma_encode_tables_len(p.tables);
    assert(w =~= head + ed + seq![p.tables.len() as u64] + et);
    assert(w.subrange(7, 7 + ed.len() as int) =~= ed);
    lemma_parse_descs_round_trip(w, p.header.structure, 7);
    let e1 = 7 + ed.len() as int;
    assert(w[e1] == p.tables.len() as u64);
    assert(w.subrange(e1 + 1, e1 + 1 + et.len() as int) =~= et);
    lemma_parse_tables_round_trip(w, p.tables, e1 + 1);
    let v = p.header.version;
    assert((v as u64) as i32 == v) by (bit_vector);
    let q = decode_partial(w)->Some_0;
    assert(q.header =~= p.header);
    assert(q =~= p);
}

/// Length of the descriptor image.
pub proof fn lemma_encode_descs_len(s: Seq<TableDescriptor>)
    ensures
        encode_descs(s).len() == 4 * s.len(),
    decreases s.len(),
{
    if s.len() > 0 {
        lemma_encode_descs_len(s.skip(1));
    }
}

/// Length of the table image.
pub proof fn lemma_encode_tables_len(ts: Seq<TableView>)
    ensures
        encode_tables(ts).len() >= 3 * ts.len(),
    decreases ts.len(),
{
    if ts.len() > 0 {
        lemma_encode_tables_len(ts.skip(1));
    }
}

/// Descriptors written at cursor `i` read back unchanged, leaving
/// the cursor after their image.
pub proof fn lemma_parse_descs_round_trip(w: Seq<u64>, s: Seq<TableDescriptor>, i: int)
    requires
        s.len() <= u32::MAX,
        0 <= i,
        i + encode_descs(s).len() <= w.len(),
        w.subrange(i, i + encode_descs(s).len()) == encode_descs(s),
    ensures
        parse_descs(w, i, s.len() as nat) == Some((s, i + encode_descs(s).len())),
    decreases s.len(),
{
    lemma_encode_descs_len(s);
    if s.len() > 0 {
        lemma_encode_descs_len(s.skip(1));
        assert(w[i] == encode_descs(s)[0]);
        assert(w[i + 1] == encode_descs(s)[1]);
        assert(w[i + 2] == encode_descs(s)[2]);
        assert(w[i + 3] == encode_descs(s)[3]);
        assert(w.subrange(i + 4, i + 4 + encode_descs(s.skip(1)).len()) =~= encode_descs(
            s.skip(1),
        )) by {
            assert(forall|k: int|
                0 <= k < encode_descs(s.skip(1)).len() ==> encode_descs(s)[4 + k]
                    == #[trigger] encode_descs(s.skip(1))[k]);
            assert(forall|k: int|
                0 <= k < encode_descs(s).len() ==> #[trigger] w[i + k] == encode_descs(s)[k]) by {
                assert(forall|k: int|
                    0 <= k < encode_descs(s).len() ==> #[trigger] w.subrange(
                        i,
                        i + encode_descs(s).len(),
                    )[k] == w[i + k]);
            }
        }
        lemma_parse_descs_round_trip(w, s.skip(1), i + 4);
        let d = TableDescriptor {
            planet: w[i] as u32,
            coefficient_count: w[i + 1] as u32,
            offset: w[i + 2] as u32,
            sub_intervals: w[i + 3] as u32,
        };
        assert(d == s[0]);
        assert(seq![d] + s.skip(1) =~= s);
    }
}

/// Tables written at cursor `i` read back unchanged, consuming the
/// whole image.
pub proof fn lemma_parse_tables_round_trip(w: Seq<u64>, ts: Seq<TableView>, i: int)
    requires
        ts.len() <= u32::MAX,
        forall|k: int| 0 <= k < ts.len() ==> (#[trigger] ts[k]).data.len() <= u32::MAX,
        0 <= i,
        i + encode_tables(ts).len() <= w.len(),
        w.subrange(i, i + encode_tables(ts).len()) == encode_tables(ts),
    ensures
        parse_tables(w, i, ts.len() as nat) == Some((ts, i + encode_tables(ts).len())),
    decreases ts.len(),
{
    if ts.len() > 0 {
        let et = encode_tables(ts);
        let dl = ts[0].data.len() as int;
        let rest = encode_tables(ts.skip(1));
        assert(et =~= seq![ts[0].start, ts[0].stop, ts[0].data.len() as u64] + ts[0].data + rest);
        assert(forall|k: int|
            0 <= k < et.len() ==> #[trigger] w[i + k] == et[k]) by {
            assert(forall|k: int|
                0 <= k < et.len() ==> #[trigger] w.subrange(i, i + et.len())[k] == w[i + k]);
        }
        assert(w[i + 0] == et[0]);
        assert(w[i + 1] == et[1]);
        assert(w[i + 2] == et[2]);
        assert(w[i] == ts[0].start);
        assert(w[i + 1] == ts[0].stop);
        assert(w[i + 2] == ts[0].data.len() as u64);
        assert(w.subrange(i + 3, i + 3 + dl) =~= ts[0].data) by {
            assert(forall|k: int| 0 <= k < dl ==> et[3 + k] == #[trigger] ts[0].data[k]);
        }
        assert(w.subrange(i + 3 + dl, i + 3 + dl + rest.len()) =~= rest) by {
            assert(forall|k: int| 0 <= k < rest.len() ==> et[3 + dl + k] == #[trigger] rest[k]);
        }
        lemma_parse_tables_round_trip(w, ts.skip(1), i + 3 + dl);
        let t = TableView { start: w[i], stop: w[i + 1], data: w.subrange(i + 3, i + 3 + dl) };
        assert(t =~= ts[0]);
        assert(seq![t] + ts.skip(1) =~= ts);
    }
}

} // verus!
