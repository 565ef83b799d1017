//! Stroke records as the device writes them, and the law that parsing a
//! written record gives back what was written.
use vstd::prelude::*;

use crate::bytes::{
    as_i16, as_i32, bits16, bits32, le_bytes, le_bytes16, le_u16, le_u32, lemma_bits16, lemma_bits32,
    lemma_le16_read, lemma_le_read,
};
use crate::error::Error;
use crate::format::stroke::{
    arrays_end, c_string, coord_at, field_end, field_offsets, layout_at, stroke_spec, Field, ScreenCoord,
    StrokeModel, TiltVector,
};

verus! {

/// The parts of a record one after another.
pub open spec fn join(parts: Seq<Seq<u8>>) -> Seq<u8>
    decreases parts.len(),
{
    if parts.len() == 0 {
        Seq::empty()
    } else {
        join(parts.drop_last()) + parts.last()
    }
}

/// Where part `j` of the joined parts starts.
pub open spec fn part_start(parts: Seq<Seq<u8>>, j: int) -> int {
    join(parts.take(j)).len() as int
}

proof fn lemma_part_start_step(parts: Seq<Seq<u8>>, j: int)
    requires
        0 <= j < parts.len(),
    ensures
        part_start(parts, j + 1) == part_start(parts, j) + parts[j].len(),
{
    assert(parts.take(j + 1).drop_last() =~= parts.take(j));
}

/// Each part stands in the joined parts where the parts before it end.
proof fn lemma_join_part(parts: Seq<Seq<u8>>, j: int)
    requires
        0 <= j < parts.len(),
    ensures
        part_start(parts, j) + parts[j].len() <= join(parts).len(),
        join(parts).subrange(part_start(parts, j), part_start(parts, j) + parts[j].len()) == parts[j],
    decreases parts.len(),
{
    let a = part_start(parts, j);
    let b = a + parts[j].len();
    if j == parts.len() - 1 {
        assert(parts.take(j) =~= parts.drop_last());
        assert(join(parts).subrange(a, b) =~= parts[j]);
    } else {
        let d = parts.drop_last();
        lemma_join_part(d, j);
        assert(d.take(j) =~= parts.take(j));
        assert(d[j] == parts[j]);
        assert(join(parts).subrange(a, b) =~= join(d).subrange(a, b));
    }
}

/// The eight bytes of a point: `y`, then `x`.
pub open spec fn coord_bytes(p: ScreenCoord) -> Seq<u8> {
    le_bytes(bits32(p.y as int)) + le_bytes(bits32(p.x as int))
}

/// The four bytes of a tilt: `y`, then `x`.
pub open spec fn tilt_bytes(t: TiltVector) -> Seq<u8> {
    le_bytes16(bits16(t.y as int)) + le_bytes16(bits16(t.x as int))
}

/// The points written one after another.
pub open spec fn coords_bytes(ps: Seq<ScreenCoord>) -> Seq<u8>
    decreases ps.len(),
{
    if ps.len() == 0 {
        Seq::empty()
    } else {
        coords_bytes(ps.drop_last()) + coord_bytes(ps.last())
    }
}

/// The pressures written one after another.
pub open spec fn u16s_bytes(vs: Seq<u16>) -> Seq<u8>
    decreases vs.len(),
{
    if vs.len() == 0 {
        Seq::empty()
    } else {
        u16s_bytes(vs.drop_last()) + le_bytes16(vs.last() as nat)
    }
}

/// The tilts written one after another.
pub open spec fn tilts_bytes(ts: Seq<TiltVector>) -> Seq<u8>
    decreases ts.len(),
{
    if ts.len() == 0 {
        Seq::empty()
    } else {
        tilts_bytes(ts.drop_last()) + tilt_bytes(ts.last())
    }
}

proof fn lemma_coords_bytes(ps: Seq<ScreenCoord>, i: int)
    requires
        0 <= i < ps.len(),
    ensures
        coords_bytes(ps).len() == 8 * ps.len(),
        coords_bytes(ps).subrange(8 * i, 8 * i + 8) == coord_bytes(ps[i]),
    decreases ps.len(),
{
    let d = ps.drop_last();
    if d.len() > 0 {
        lemma_coords_bytes(d, if i < d.len() { i } else { 0 });
    } else {
        assert(coords_bytes(d) =~= Seq::<u8>::empty());
    }
    if i < d.len() {
        assert(coords_bytes(ps).subrange(8 * i, 8 * i + 8) =~= coords_bytes(d).subrange(8 * i, 8 * i + 8));
    } else {
        assert(coords_bytes(ps).subrange(8 * i, 8 * i + 8) =~= coord_bytes(ps[i]));
    }
}

proof fn lemma_u16s_bytes(vs: Seq<u16>, i: int)
    requires
        0 <= i < vs.len(),
    ensures
        u16s_bytes(vs).len() == 2 * vs.len(),
        u16s_bytes(vs).subrange(2 * i, 2 * i + 2) == le_bytes16(vs[i] as nat),
    decreases vs.len(),
{
    let d = vs.drop_last();
    if d.len() > 0 {
        lemma_u16s_bytes(d, if i < d.len() { i } else { 0 });
    } else {
        assert(u16s_bytes(d) =~= Seq::<u8>::empty());
    }
    if i < d.len() {
        assert(u16s_bytes(vs).subrange(2 * i, 2 * i + 2) =~= u16s_bytes(d).subrange(2 * i, 2 * i + 2));
    } else {
        assert(u16s_bytes(vs).subrange(2 * i, 2 * i + 2) =~= le_bytes16(vs[i] as nat));
    }
}

proof fn lemma_tilts_bytes(ts: Seq<TiltVector>, i: int)
    requires
        0 <= i < ts.len(),
    ensures
        tilts_bytes(ts).len() == 4 * ts.len(),
        tilts_bytes(ts).subrange(4 * i, 4 * i + 4) == tilt_bytes(ts[i]),
    decreases ts.len(),
{
    let d = ts.drop_last();
    if d.len() > 0 {
        lemma_tilts_bytes(d, if i < d.len() { i } else { 0 });
    } else {
        assert(tilts_bytes(d) =~= Seq::<u8>::empty());
    }
    if i < d.len() {
        assert(tilts_bytes(ts).subrange(4 * i, 4 * i + 4) =~= tilts_bytes(d).subrange(4 * i, 4 * i + 4));
    } else {
        assert(tilts_bytes(ts).subrange(4 * i, 4 * i + 4) =~= tilt_bytes(ts[i]));
    }
}

proof fn lemma_coord_read(d: Seq<u8>, q: int, ps: Seq<ScreenCoord>, i: int)
    requires
        0 <= q,
        0 <= i < ps.len(),
        q + 8 * ps.len() <= d.len(),
        d.subrange(q, q + 8 * ps.len()) == coords_bytes(ps),
    ensures
        coord_at(d, q + 8 * i) == ps[i],
{
    lemma_coords_bytes(ps, i);
    let at = q + 8 * i;
    let p = ps[i];
    assert(d.subrange(at, at + 8) =~= coord_bytes(p)) by {
        assert(d.subrange(at, at + 8) =~= d.subrange(q, q + 8 * ps.len()).subrange(8 * i, 8 * i + 8));
    }
    assert(d.subrange(at, at + 4) =~= le_bytes(bits32(p.y as int))) by {
        assert(d.subrange(at, at + 4) =~= d.subrange(at, at + 8).subrange(0, 4));
    }
    assert(d.subrange(at + 4, at + 8) =~= le_bytes(bits32(p.x as int))) by {
        assert(d.subrange(at + 4, at + 8) =~= d.subrange(at, at + 8).subrange(4, 8));
    }
    lemma_bits32(p.y);
    lemma_bits32(p.x);
    lemma_le_read(d, at, bits32(p.y as int));
    lemma_le_read(d, at + 4, bits32(p.x as int));
}

proof fn lemma_u16_read(d: Seq<u8>, q: int, vs: Seq<u16>, i: int)
    requires
        0 <= q,
        0 <= i < vs.len(),
        q + 2 * vs.len() <= d.len(),
        d.subrange(q, q + 2 * vs.len()) == u16s_bytes(vs),
    ensures
        le_u16(d, q + 2 * i) == vs[i],
{
    lemma_u16s_bytes(vs, i);
    let at = q + 2 * i;
    assert(d.subrange(at, at + 2) =~= le_bytes16(vs[i] as nat)) by {
        assert(d.subrange(at, at + 2) =~= d.subrange(q, q + 2 * vs.len()).subrange(2 * i, 2 * i + 2));
    }
    lemma_le16_read(d, at, vs[i] as nat);
}

proof fn lemma_tilt_read(d: Seq<u8>, q: int, ts: Seq<TiltVector>, i: int)
    requires
        0 <= q,
        0 <= i < ts.len(),
        q + 4 * ts.len() <= d.len(),
        d.subrange(q, q + 4 * ts.len()) == tilts_bytes(ts),
    ensures
        as_i16(le_u16(d, q + 4 * i)) == ts[i].y,
        as_i16(le_u16(d, q + 4 * i + 2)) == ts[i].x,
{
    lemma_tilts_bytes(ts, i);
    let at = q + 4 * i;
    let t = ts[i];
    assert(d.subrange(at, at + 4) =~= tilt_bytes(t)) by {
        assert(d.subrange(at, at + 4) =~= d.subrange(q, q + 4 * ts.len()).subrange(4 * i, 4 * i + 4));
    }
    assert(d.subrange(at, at + 2) =~= le_bytes16(bits16(t.y as int))) by {
        assert(d.subrange(at, at + 2) =~= d.subrange(at, at + 4).subrange(0, 2));
    }
    assert(d.subrange(at + 2, at + 4) =~= le_bytes16(bits16(t.x as int))) by {
        assert(d.subrange(at + 2, at + 4) =~= d.subrange(at, at + 4).subrange(2, 4));
    }
    lemma_bits16(t.y);
    lemma_bits16(t.x);
    lemma_le16_read(d, at, bits16(t.y as int));
    lemma_le16_read(d, at + 2, bits16(t.x as int));
}

proof fn lemma_starts(parts: Seq<Seq<u8>>, o: Seq<int>, j: int)
    requires
        0 <= j <= parts.len(),
        o.len() == parts.len() + 1,
        o[0] == 0,
        forall|k: int| 0 <= k < parts.len() ==> #[trigger] parts[k].len() == o[k + 1] - o[k],
    ensures
        part_start(parts, j) == o[j],
    decreases j,
{
    if j == 0 {
        assert(parts.take(0) =~= Seq::<Seq<u8>>::empty());
    } else {
        lemma_starts(parts, o, j - 1);
        lemma_part_start_step(parts, j - 1);
    }
}

/// The parts of a stroke record written from its fields: the 208-byte
/// header, an empty disable-area list, the points, pressures and tilts,
/// the draw flags (one byte each), empty EPA lists, section 1, no control numbers,
/// section 2, no point contours or 16-byte chunks, section 3, an empty
/// `i32` array, section 4, the text payload, two empty strings, a zero
/// `u32` and no marker fill directions.
pub open spec fn record_parts(
    header: Seq<u8>,
    points: Seq<ScreenCoord>,
    pressures: Seq<u16>,
    tilts: Seq<TiltVector>,
    flags: Seq<u8>,
    s1: Seq<u8>,
    s2: Seq<u8>,
    s3: Seq<u8>,
    s4: Seq<u8>,
    text: Seq<u8>,
) -> Seq<Seq<u8>> {
    seq![
        header,
        le_bytes(0),
        le_bytes(points.len()),
        coords_bytes(points),
        le_bytes(pressures.len()),
        u16s_bytes(pressures),
        le_bytes(tilts.len()),
        tilts_bytes(tilts),
        le_bytes(flags.len()) + flags,
        le_bytes(0),
        le_bytes(0),
        s1,
        le_bytes(0),
        s2,
        le_bytes(0),
        le_bytes(0),
        s3,
        le_bytes(0),
        s4,
        le_bytes(text.len()),
        text,
        le_bytes(0),
        le_bytes(0),
        le_bytes(0),
        le_bytes(0),
    ]
}

/// Where each part of a written record starts, and where the record ends.
pub open spec fn part_offsets(n: int, m: int, t: int, f: int, l: int) -> Seq<int> {
    seq![
        0,
        208,
        212,
        216,
        216 + 8 * n,
        220 + 8 * n,
        220 + 8 * n + 2 * m,
        224 + 8 * n + 2 * m,
        224 + 8 * n + 2 * m + 4 * t,
        228 + 8 * n + 2 * m + 4 * t + f,
        232 + 8 * n + 2 * m + 4 * t + f,
        236 + 8 * n + 2 * m + 4 * t + f,
        288 + 8 * n + 2 * m + 4 * t + f,
        292 + 8 * n + 2 * m + 4 * t + f,
        302 + 8 * n + 2 * m + 4 * t + f,
        306 + 8 * n + 2 * m + 4 * t + f,
        310 + 8 * n + 2 * m + 4 * t + f,
        327 + 8 * n + 2 * m + 4 * t + f,
        331 + 8 * n + 2 * m + 4 * t + f,
        344 + 8 * n + 2 * m + 4 * t + f,
        348 + 8 * n + 2 * m + 4 * t + f,
        348 + 8 * n + 2 * m + 4 * t + f + l,
        352 + 8 * n + 2 * m + 4 * t + f + l,
        356 + 8 * n + 2 * m + 4 * t + f + l,
        360 + 8 * n + 2 * m + 4 * t + f + l,
        364 + 8 * n + 2 * m + 4 * t + f + l,
    ]
}

proof fn lemma_record_parts(
    header: Seq<u8>,
    points: Seq<ScreenCoord>,
    pressures: Seq<u16>,
    tilts: Seq<TiltVector>,
    flags: Seq<u8>,
    s1: Seq<u8>,
    s2: Seq<u8>,
    s3: Seq<u8>,
    s4: Seq<u8>,
    text: Seq<u8>,
)
    requires
        header.len() == 208,
        s1.len() == 52,
        s2.len() == 10,
        s3.len() == 17,
        s4.len() == 13,
    ensures
        ({
            let parts = record_parts(header, points, pressures, tilts, flags, s1, s2, s3, s4, text);
            let o = part_offsets(points.len() as int, pressures.len() as int, tilts.len() as int, flags.len() as int, text.len() as int);
            &&& parts.len() == 25
            &&& forall|j: int| 0 <= j <= 25 ==> #[trigger] part_start(parts, j) == o[j]
            &&& join(parts).len() == o[25]
        }),
{
    let parts = record_parts(header, points, pressures, tilts, flags, s1, s2, s3, s4, text);
    let o = part_offsets(points.len() as int, pressures.len() as int, tilts.len() as int, flags.len() as int, text.len() as int);
    if points.len() > 0 {
        lemma_coords_bytes(points, 0);
    } else {
        assert(coords_bytes(points) =~= Seq::<u8>::empty());
    }
    if pressures.len() > 0 {
        lemma_u16s_bytes(pressures, 0);
    } else {
        assert(u16s_bytes(pressures) =~= Seq::<u8>::empty());
    }
    if tilts.len() > 0 {
        lemma_tilts_bytes(tilts, 0);
    } else {
        assert(tilts_bytes(tilts) =~= Seq::<u8>::empty());
    }
    assert forall|k: int| 0 <= k < 25 implies #[trigger] parts[k].len() == o[k + 1] - o[k] by {
        if k == 0 {
            assert(parts[0].len() == o[1] - o[0]);
        } else if k == 1 {
            assert(parts[1].len() == o[2] - o[1]);
        } else if k == 2 {
            assert(parts[2].len() == o[3] - o[2]);
        } else if k == 3 {
            assert(parts[3].len() == o[4] - o[3]);
        } else if k == 4 {
            assert(parts[4].len() == o[5] - o[4]);
        } else if k == 5 {
            assert(parts[5].len() == o[6] - o[5]);
        } else if k == 6 {
            assert(parts[6].len() == o[7] - o[6]);
        } else if k == 7 {
            assert(parts[7].len() == o[8] - o[7]);
        } else if k == 8 {
            assert(parts[8].len() == o[9] - o[8]);
        } else if k == 9 {
            assert(parts[9].len() == o[10] - o[9]);
        } else if k == 10 {
            assert(parts[10].len() == o[11] - o[10]);
        } else if k == 11 {
            assert(parts[11].len() == o[12] - o[11]);
        } else if k == 12 {
            assert(parts[12].len() == o[13] - o[12]);
        } else if k == 13 {
            assert(parts[13].len() == o[14] - o[13]);
        } else if k == 14 {
            assert(parts[14].len() == o[15] - o[14]);
        } else if k == 15 {
            assert(parts[15].len() == o[16] - o[15]);
        } else if k == 16 {
            assert(parts[16].len() == o[17] - o[16]);
        } else if k == 17 {
            assert(parts[17].len() == o[18] - o[17]);
        } else if k == 18 {
            assert(parts[18].len() == o[19] - o[18]);
        } else if k == 19 {
            assert(parts[19].len() == o[20] - o[19]);
        } else if k == 20 {
            assert(parts[20].len() == o[21] - o[20]);
        } else if k == 21 {
            assert(parts[21].len() == o[22] - o[21]);
        } else if k == 22 {
            assert(parts[22].len() == o[23] - o[22]);
        } else if k == 23 {
            assert(parts[23].len() == o[24] - o[23]);
        } else {
            assert(parts[24].len() == o[25] - o[24]);
        }
    }
    assert forall|j: int| 0 <= j <= 25 implies #[trigger] part_start(parts, j) == o[j] by {
        lemma_starts(parts, o, j);
    }
    assert(parts.take(25) =~= parts);
    assert(part_start(parts, 25) == o[25]);
}

/// Where the fields of a written record start, and where it ends, for
/// `n` points, `m` pressures, `t` tilts and `l` bytes of text.
pub open spec fn field_starts(n: int, m: int, t: int, f: int, l: int) -> Seq<int> {
    seq![
        0,
        208,
        212,
        216 + 8 * n,
        220 + 8 * n + 2 * m,
        224 + 8 * n + 2 * m + 4 * t,
        228 + 8 * n + 2 * m + 4 * t + f,
        232 + 8 * n + 2 * m + 4 * t + f,
        236 + 8 * n + 2 * m + 4 * t + f,
        288 + 8 * n + 2 * m + 4 * t + f,
        292 + 8 * n + 2 * m + 4 * t + f,
        302 + 8 * n + 2 * m + 4 * t + f,
        306 + 8 * n + 2 * m + 4 * t + f,
        310 + 8 * n + 2 * m + 4 * t + f,
        327 + 8 * n + 2 * m + 4 * t + f,
        331 + 8 * n + 2 * m + 4 * t + f,
        344 + 8 * n + 2 * m + 4 * t + f,
        348 + 8 * n + 2 * m + 4 * t + f + l,
        352 + 8 * n + 2 * m + 4 * t + f + l,
        356 + 8 * n + 2 * m + 4 * t + f + l,
        360 + 8 * n + 2 * m + 4 * t + f + l,
        364 + 8 * n + 2 * m + 4 * t + f + l,
    ]
}

proof fn lemma_fields_a(d: Seq<u8>, n: int, m: int, t: int, f: int, l: int)
    requires
        0 <= n && 0 <= m && 0 <= t && 0 <= f && 0 <= l,
        d.len() == 364 + 8 * n + 2 * m + 4 * t + f + l,
        le_u32(d, 208) == 0,
        le_u32(d, 212) == n,
        le_u32(d, 216 + 8 * n) == m,
        le_u32(d, 220 + 8 * n + 2 * m) == t,
        le_u32(d, 224 + 8 * n + 2 * m + 4 * t) == f,
        le_u32(d, 228 + 8 * n + 2 * m + 4 * t + f) == 0,
        le_u32(d, 232 + 8 * n + 2 * m + 4 * t + f) == 0,
        le_u32(d, 288 + 8 * n + 2 * m + 4 * t + f) == 0,
        le_u32(d, 302 + 8 * n + 2 * m + 4 * t + f) == 0,
        le_u32(d, 306 + 8 * n + 2 * m + 4 * t + f) == 0,
        le_u32(d, 327 + 8 * n + 2 * m + 4 * t + f) == 0,
        le_u32(d, 344 + 8 * n + 2 * m + 4 * t + f) == l,
        le_u32(d, 348 + 8 * n + 2 * m + 4 * t + f + l) == 0,
        le_u32(d, 352 + 8 * n + 2 * m + 4 * t + f + l) == 0,
        le_u32(d, 360 + 8 * n + 2 * m + 4 * t + f + l) == 0,
    ensures
        field_end(d, 0, layout_at(0)) == Ok::<int, Error>(208),
        field_end(d, 208, layout_at(1)) == Ok::<int, Error>(212),
        field_end(d, 212, layout_at(2)) == Ok::<int, Error>(216 + 8 * n),
        field_end(d, 216 + 8 * n, layout_at(3)) == Ok::<int, Error>(220 + 8 * n + 2 * m),
        field_end(d, 220 + 8 * n + 2 * m, layout_at(4)) == Ok::<int, Error>(224 + 8 * n + 2 * m + 4 * t),
        field_end(d, 224 + 8 * n + 2 * m + 4 * t, layout_at(5)) == Ok::<int, Error>(228 + 8 * n + 2 * m + 4 * t + f),
        field_end(d, 228 + 8 * n + 2 * m + 4 * t + f, layout_at(6)) == Ok::<int, Error>(232 + 8 * n + 2 * m + 4 * t + f),
{
}

proof fn lemma_fields_b(d: Seq<u8>, n: int, m: int, t: int, f: int, l: int)
    requires
        0 <= n && 0 <= m && 0 <= t && 0 <= f && 0 <= l,
        d.len() == 364 + 8 * n + 2 * m + 4 * t + f + l,
        le_u32(d, 208) == 0,
        le_u32(d, 212) == n,
        le_u32(d, 216 + 8 * n) == m,
        le_u32(d, 220 + 8 * n + 2 * m) == t,
        le_u32(d, 224 + 8 * n + 2 * m + 4 * t) == f,
        le_u32(d, 228 + 8 * n + 2 * m + 4 * t + f) == 0,
        le_u32(d, 232 + 8 * n + 2 * m + 4 * t + f) == 0,
        le_u32(d, 288 + 8 * n + 2 * m + 4 * t + f) == 0,
        le_u32(d, 302 + 8 * n + 2 * m + 4 * t + f) == 0,
        le_u32(d, 306 + 8 * n + 2 * m + 4 * t + f) == 0,
        le_u32(d, 327 + 8 * n + 2 * m + 4 * t + f) == 0,
        le_u32(d, 344 + 8 * n + 2 * m + 4 * t + f) == l,
        le_u32(d, 348 + 8 * n + 2 * m + 4 * t + f + l) == 0,
        le_u32(d, 352 + 8 * n + 2 * m + 4 * t + f + l) == 0,
        le_u32(d, 360 + 8 * n + 2 * m + 4 * t + f + l) == 0,
    ensures
        field_end(d, 232 + 8 * n + 2 * m + 4 * t + f, layout_at(7)) == Ok::<int, Error>(236 + 8 * n + 2 * m + 4 * t + f),
        field_end(d, 236 + 8 * n + 2 * m + 4 * t + f, layout_at(8)) == Ok::<int, Error>(288 + 8 * n + 2 * m + 4 * t + f),
        field_end(d, 288 + 8 * n + 2 * m + 4 * t + f, layout_at(9)) == Ok::<int, Error>(292 + 8 * n + 2 * m + 4 * t + f),
        field_end(d, 292 + 8 * n + 2 * m + 4 * t + f, layout_at(10)) == Ok::<int, Error>(302 + 8 * n + 2 * m + 4 * t + f),
        field_end(d, 302 + 8 * n + 2 * m + 4 * t + f, layout_at(11)) == Ok::<int, Error>(306 + 8 * n + 2 * m + 4 * t + f),
        field_end(d, 306 + 8 * n + 2 * m + 4 * t + f, layout_at(12)) == Ok::<int, Error>(310 + 8 * n + 2 * m + 4 * t + f),
        field_end(d, 310 + 8 * n + 2 * m + 4 * t + f, layout_at(13)) == Ok::<int, Error>(327 + 8 * n + 2 * m + 4 * t + f),
{
}

proof fn lemma_fields_c(d: Seq<u8>, n: int, m: int, t: int, f: int, l: int)
    requires
        0 <= n && 0 <= m && 0 <= t && 0 <= f && 0 <= l,
        d.len() == 364 + 8 * n + 2 * m + 4 * t + f + l,
        le_u32(d, 208) == 0,
        le_u32(d, 212) == n,
        le_u32(d, 216 + 8 * n) == m,
        le_u32(d, 220 + 8 * n + 2 * m) == t,
        le_u32(d, 224 + 8 * n + 2 * m + 4 * t) == f,
        le_u32(d, 228 + 8 * n + 2 * m + 4 * t + f) == 0,
        le_u32(d, 232 + 8 * n + 2 * m + 4 * t + f) == 0,
        le_u32(d, 288 + 8 * n + 2 * m + 4 * t + f) == 0,
        le_u32(d, 302 + 8 * n + 2 * m + 4 * t + f) == 0,
        le_u32(d, 306 + 8 * n + 2 * m + 4 * t + f) == 0,
        le_u32(d, 327 + 8 * n + 2 * m + 4 * t + f) == 0,
        le_u32(d, 344 + 8 * n + 2 * m + 4 * t + f) == l,
        le_u32(d, 348 + 8 * n + 2 * m + 4 * t + f + l) == 0,
        le_u32(d, 352 + 8 * n + 2 * m + 4 * t + f + l) == 0,
        le_u32(d, 360 + 8 * n + 2 * m + 4 * t + f + l) == 0,
    ensures
        field_end(d, 327 + 8 * n + 2 * m + 4 * t + f, layout_at(14)) == Ok::<int, Error>(331 + 8 * n + 2 * m + 4 * t + f),
        field_end(d, 331 + 8 * n + 2 * m + 4 * t + f, layout_at(15)) == Ok::<int, Error>(344 + 8 * n + 2 * m + 4 * t + f),
        field_end(d, 344 + 8 * n + 2 * m + 4 * t + f, layout_at(16)) == Ok::<int, Error>(348 + 8 * n + 2 * m + 4 * t + f + l),
        field_end(d, 348 + 8 * n + 2 * m + 4 * t + f + l, layout_at(17)) == Ok::<int, Error>(352 + 8 * n + 2 * m + 4 * t + f + l),
        field_end(d, 352 + 8 * n + 2 * m + 4 * t + f + l, layout_at(18)) == Ok::<int, Error>(356 + 8 * n + 2 * m + 4 * t + f + l),
        field_end(d, 356 + 8 * n + 2 * m + 4 * t + f + l, layout_at(19)) == Ok::<int, Error>(360 + 8 * n + 2 * m + 4 * t + f + l),
        field_end(d, 360 + 8 * n + 2 * m + 4 * t + f + l, layout_at(20)) == Ok::<int, Error>(364 + 8 * n + 2 * m + 4 * t + f + l),
{
}

proof fn lemma_walk(d: Seq<u8>, ps: Seq<int>, k: nat)
    requires
        k < ps.len(),
        ps[0] == 0,
        forall|i: int| 0 <= i < k ==> #[trigger] field_end(d, ps[i], layout_at(i)) == Ok::<int, Error>(ps[i + 1]),
    ensures
        field_offsets(d, k) == Ok::<Seq<int>, Error>(ps.take(k + 1int)),
    decreases k,
{
    if k == 0 {
        assert(ps.take(1) =~= seq![ps[0]]);
    } else {
        lemma_walk(d, ps, (k - 1) as nat);
        assert(ps.take(k + 1int) =~= ps.take(k as int).push(ps[k as int]));
        assert(ps.take(k as int).last() == ps[k - 1]);
    }
}

/// Walking the fields of a record whose counts are where the layout puts
/// them finds each field where the layout says it starts.
proof fn lemma_field_walk(d: Seq<u8>, n: int, m: int, t: int, f: int, l: int)
    requires
        0 <= n && 0 <= m && 0 <= t && 0 <= f && 0 <= l,
        d.len() == 364 + 8 * n + 2 * m + 4 * t + f + l,
        le_u32(d, 208) == 0,
        le_u32(d, 212) == n,
        le_u32(d, 216 + 8 * n) == m,
        le_u32(d, 220 + 8 * n + 2 * m) == t,
        le_u32(d, 224 + 8 * n + 2 * m + 4 * t) == f,
        le_u32(d, 228 + 8 * n + 2 * m + 4 * t + f) == 0,
        le_u32(d, 232 + 8 * n + 2 * m + 4 * t + f) == 0,
        le_u32(d, 288 + 8 * n + 2 * m + 4 * t + f) == 0,
        le_u32(d, 302 + 8 * n + 2 * m + 4 * t + f) == 0,
        le_u32(d, 306 + 8 * n + 2 * m + 4 * t + f) == 0,
        le_u32(d, 327 + 8 * n + 2 * m + 4 * t + f) == 0,
        le_u32(d, 344 + 8 * n + 2 * m + 4 * t + f) == l,
        le_u32(d, 348 + 8 * n + 2 * m + 4 * t + f + l) == 0,
        le_u32(d, 352 + 8 * n + 2 * m + 4 * t + f + l) == 0,
        le_u32(d, 360 + 8 * n + 2 * m + 4 * t + f + l) == 0,
    ensures
        field_offsets(d, 21) == Ok::<Seq<int>, Error>(field_starts(n, m, t, f, l)),
{
    let fs = field_starts(n, m, t, f, l);
    lemma_fields_a(d, n, m, t, f, l);
    lemma_fields_b(d, n, m, t, f, l);
    lemma_fields_c(d, n, m, t, f, l);
    assert(fs[0] == 0);
    assert(fs[1] == 208);
    assert(fs[2] == 212);
    assert(fs[3] == 216 + 8 * n);
    assert(fs[4] == 220 + 8 * n + 2 * m);
    assert(fs[5] == 224 + 8 * n + 2 * m + 4 * t);
    assert(fs[6] == 228 + 8 * n + 2 * m + 4 * t + f);
    assert(fs[7] == 232 + 8 * n + 2 * m + 4 * t + f);
    assert(fs[8] == 236 + 8 * n + 2 * m + 4 * t + f);
    assert(fs[9] == 288 + 8 * n + 2 * m + 4 * t + f);
    assert(fs[10] == 292 + 8 * n + 2 * m + 4 * t + f);
    assert(fs[11] == 302 + 8 * n + 2 * m + 4 * t + f);
    assert(fs[12] == 306 + 8 * n + 2 * m + 4 * t + f);
    assert(fs[13] == 310 + 8 * n + 2 * m + 4 * t + f);
    assert(fs[14] == 327 + 8 * n + 2 * m + 4 * t + f);
    assert(fs[15] == 331 + 8 * n + 2 * m + 4 * t + f);
    assert(fs[16] == 344 + 8 * n + 2 * m + 4 * t + f);
    assert(fs[17] == 348 + 8 * n + 2 * m + 4 * t + f + l);
    assert(fs[18] == 352 + 8 * n + 2 * m + 4 * t + f + l);
    assert(fs[19] == 356 + 8 * n + 2 * m + 4 * t + f + l);
    assert(fs[20] == 360 + 8 * n + 2 * m + 4 * t + f + l);
    assert(fs[21] == 364 + 8 * n + 2 * m + 4 * t + f + l);
    assert forall|i: int| 0 <= i < 21 implies #[trigger] field_end(d, fs[i], layout_at(i)) == Ok::<int, Error>(fs[i + 1]) by {
        if i == 0 {
        } else if i == 1 {
        } else if i == 2 {
        } else if i == 3 {
        } else if i == 4 {
        } else if i == 5 {
        } else if i == 6 {
        } else if i == 7 {
        } else if i == 8 {
        } else if i == 9 {
        } else if i == 10 {
        } else if i == 11 {
        } else if i == 12 {
        } else if i == 13 {
        } else if i == 14 {
        } else if i == 15 {
        } else if i == 16 {
        } else if i == 17 {
        } else if i == 18 {
        } else if i == 19 {
        } else {
        }
    }
    lemma_walk(d, fs, 21);
    assert(fs.take(22) =~= fs);
}

proof fn lemma_count_at(parts: Seq<Seq<u8>>, j: int, c: nat)
    requires
        0 <= j < parts.len(),
        c <= u32::MAX,
        parts[j] == le_bytes(c),
    ensures
        le_u32(join(parts), part_start(parts, j)) == c,
{
    lemma_join_part(parts, j);
    lemma_le_read(join(parts), part_start(parts, j), c);
}

proof fn lemma_count_prefix_at(parts: Seq<Seq<u8>>, j: int, c: nat, rest: Seq<u8>)
    requires
        0 <= j < parts.len(),
        c <= u32::MAX,
        parts[j] == le_bytes(c) + rest,
    ensures
        le_u32(join(parts), part_start(parts, j)) == c,
{
    lemma_join_part(parts, j);
    let d = join(parts);
    let a = part_start(parts, j);
    assert(d.subrange(a, a + 4) =~= le_bytes(c)) by {
        assert(d.subrange(a, a + 4) =~= d.subrange(a, a + parts[j].len()).subrange(0, 4));
    }
    lemma_le_read(d, a, c);
}

proof fn lemma_record_counts(
    header: Seq<u8>,
    points: Seq<ScreenCoord>,
    pressures: Seq<u16>,
    tilts: Seq<TiltVector>,
    flags: Seq<u8>,
    s1: Seq<u8>,
    s2: Seq<u8>,
    s3: Seq<u8>,
    s4: Seq<u8>,
    text: Seq<u8>,
)
    requires
        header.len() == 208,
        s1.len() == 52,
        s2.len() == 10,
        s3.len() == 17,
        s4.len() == 13,
        points.len() <= u32::MAX,
        pressures.len() <= u32::MAX,
        tilts.len() <= u32::MAX,
        flags.len() <= u32::MAX,
        text.len() <= u32::MAX,
    ensures
        ({
            let d = join(record_parts(header, points, pressures, tilts, flags, s1, s2, s3, s4, text));
            let n = points.len();
            let m = pressures.len();
            let t = tilts.len();
            let f = flags.len();
            let l = text.len();
            let o = part_offsets(n as int, m as int, t as int, f as int, l as int);
            &&& d.len() == o[25]
            &&& le_u32(d, o[1]) == 0
            &&& le_u32(d, o[2]) == n
            &&& le_u32(d, o[4]) == m
            &&& le_u32(d, o[6]) == t
            &&& le_u32(d, o[8]) == flags.len()
            &&& le_u32(d, o[9]) == 0
            &&& le_u32(d, o[10]) == 0
            &&& le_u32(d, o[12]) == 0
            &&& le_u32(d, o[14]) == 0
            &&& le_u32(d, o[15]) == 0
            &&& le_u32(d, o[17]) == 0
            &&& le_u32(d, o[19]) == l
            &&& le_u32(d, o[21]) == 0
            &&& le_u32(d, o[22]) == 0
            &&& le_u32(d, o[24]) == 0
        }),
{
    let parts = record_parts(header, points, pressures, tilts, flags, s1, s2, s3, s4, text);
    lemma_record_parts(header, points, pressures, tilts, flags, s1, s2, s3, s4, text);
    lemma_count_at(parts, 1, 0);
    lemma_count_at(parts, 2, points.len());
    lemma_count_at(parts, 4, pressures.len());
    lemma_count_at(parts, 6, tilts.len());
    lemma_count_prefix_at(parts, 8, flags.len(), flags);
    lemma_count_at(parts, 9, 0);
    lemma_count_at(parts, 10, 0);
    lemma_count_at(parts, 12, 0);
    lemma_count_at(parts, 14, 0);
    lemma_count_at(parts, 15, 0);
    lemma_count_at(parts, 17, 0);
    lemma_count_at(parts, 19, text.len());
    lemma_count_at(parts, 21, 0);
    lemma_count_at(parts, 22, 0);
    lemma_count_at(parts, 24, 0);
}

/// A stroke record written from its fields.
pub open spec fn record_bytes(
    header: Seq<u8>,
    points: Seq<ScreenCoord>,
    pressures: Seq<u16>,
    tilts: Seq<TiltVector>,
    flags: Seq<u8>,
    s1: Seq<u8>,
    s2: Seq<u8>,
    s3: Seq<u8>,
    s4: Seq<u8>,
    text: Seq<u8>,
) -> Seq<u8> {
    join(record_parts(header, points, pressures, tilts, flags, s1, s2, s3, s4, text))
}

/// The stroke that a record written from these fields describes: the
/// header fields as the header holds them, the points, pressures and
/// tilts as written, and the fields of sections 1, 3 and 4.
pub open spec fn written_stroke(
    header: Seq<u8>,
    points: Seq<ScreenCoord>,
    pressures: Seq<u16>,
    tilts: Seq<TiltVector>,
    s1: Seq<u8>,
    s3: Seq<u8>,
    s4: Seq<u8>,
) -> StrokeModel {
    StrokeModel {
        pen: le_u32(header, 0) as u32,
        color: le_u32(header, 4) as u32,
        thickness: le_u32(header, 8) as u32,
        page_num: le_u32(header, 28) as u32,
        stroke_layer: le_u32(header, 44) as u32,
        stroke_kind: c_string(header.subrange(48, 100)),
        bounding_tl: coord_at(header, 100),
        bounding_mid: coord_at(header, 108),
        bounding_br: coord_at(header, 116),
        screen_width: le_u32(header, 132) as u32,
        screen_height: le_u32(header, 128) as u32,
        points,
        pressures,
        tilts,
        stroke_uid: le_u32(s1, 8) as u32,
        rotation_degrees: as_i32(le_u32(s3, 13)) as i32,
        pixel_width: le_u32(s4, 0) as u32,
        pixel_height: le_u32(s4, 4) as u32,
    }
}

/// `d` holds `part` at `at`, so a `u32` read inside the part reads the
/// same four bytes.
proof fn lemma_read_inside(d: Seq<u8>, at: int, part: Seq<u8>, k: int)
    requires
        0 <= at,
        at + part.len() <= d.len(),
        d.subrange(at, at + part.len()) == part,
        0 <= k,
        k + 4 <= part.len(),
    ensures
        le_u32(d, at + k) == le_u32(part, k),
{
    assert(d[at + k] == part[k]);
    assert(d[at + k + 1] == part[k + 1]);
    assert(d[at + k + 2] == part[k + 2]);
    assert(d[at + k + 3] == part[k + 3]);
}

/// Where the counts and parts of a written record stand in its bytes.
#[verifier::rlimit(50)]
proof fn lemma_record_placement(
    header: Seq<u8>,
    points: Seq<ScreenCoord>,
    pressures: Seq<u16>,
    tilts: Seq<TiltVector>,
    flags: Seq<u8>,
    s1: Seq<u8>,
    s2: Seq<u8>,
    s3: Seq<u8>,
    s4: Seq<u8>,
    text: Seq<u8>,
    d: Seq<u8>,
    n: int,
    m: int,
    t: int,
    f: int,
    l: int,
)
    requires
        header.len() == 208,
        s1.len() == 52,
        s2.len() == 10,
        s3.len() == 17,
        s4.len() == 13,
        points.len() <= u32::MAX,
        pressures.len() <= u32::MAX,
        tilts.len() <= u32::MAX,
        flags.len() <= u32::MAX,
        text.len() <= u32::MAX,
        d == join(record_parts(header, points, pressures, tilts, flags, s1, s2, s3, s4, text)),
        n == points.len() && m == pressures.len() && t == tilts.len() && l == text.len() && f == flags.len(),
    ensures
        d.len() == 364 + 8 * n + 2 * m + 4 * t + f + l,
        le_u32(d, 208) == 0,
        le_u32(d, 212) == n,
        le_u32(d, 216 + 8 * n) == m,
        le_u32(d, 220 + 8 * n + 2 * m) == t,
        le_u32(d, 224 + 8 * n + 2 * m + 4 * t) == f,
        le_u32(d, 228 + 8 * n + 2 * m + 4 * t + f) == 0,
        le_u32(d, 232 + 8 * n + 2 * m + 4 * t + f) == 0,
        le_u32(d, 288 + 8 * n + 2 * m + 4 * t + f) == 0,
        le_u32(d, 302 + 8 * n + 2 * m + 4 * t + f) == 0,
        le_u32(d, 306 + 8 * n + 2 * m + 4 * t + f) == 0,
        le_u32(d, 327 + 8 * n + 2 * m + 4 * t + f) == 0,
        le_u32(d, 344 + 8 * n + 2 * m + 4 * t + f) == l,
        le_u32(d, 348 + 8 * n + 2 * m + 4 * t + f + l) == 0,
        le_u32(d, 352 + 8 * n + 2 * m + 4 * t + f + l) == 0,
        le_u32(d, 360 + 8 * n + 2 * m + 4 * t + f + l) == 0,
        d.subrange(0, 208) == header,
        d.subrange(216, 216 + 8 * n) == coords_bytes(points),
        d.subrange(220 + 8 * n, 220 + 8 * n + 2 * m) == u16s_bytes(pressures),
        d.subrange(224 + 8 * n + 2 * m, 224 + 8 * n + 2 * m + 4 * t) == tilts_bytes(tilts),
        d.subrange(236 + 8 * n + 2 * m + 4 * t + f, 288 + 8 * n + 2 * m + 4 * t + f) == s1,
        d.subrange(310 + 8 * n + 2 * m + 4 * t + f, 327 + 8 * n + 2 * m + 4 * t + f) == s3,
        d.subrange(331 + 8 * n + 2 * m + 4 * t + f, 344 + 8 * n + 2 * m + 4 * t + f) == s4,
        d.subrange(348 + 8 * n + 2 * m + 4 * t + f, 348 + 8 * n + 2 * m + 4 * t + f + l) == text,
{
    let parts = record_parts(header, points, pressures, tilts, flags, s1, s2, s3, s4, text);
    let o = part_offsets(n, m, t, f, l);
    lemma_record_parts(header, points, pressures, tilts, flags, s1, s2, s3, s4, text);
    lemma_record_counts(header, points, pressures, tilts, flags, s1, s2, s3, s4, text);
    assert(o[0] == 0);
    assert(o[1] == 208);
    assert(o[2] == 212);
    assert(o[3] == 216);
    assert(o[4] == 216 + 8 * n);
    assert(o[5] == 220 + 8 * n);
    assert(o[6] == 220 + 8 * n + 2 * m);
    assert(o[7] == 224 + 8 * n + 2 * m);
    assert(o[8] == 224 + 8 * n + 2 * m + 4 * t);
    assert(o[9] == 228 + 8 * n + 2 * m + 4 * t + f);
    assert(o[10] == 232 + 8 * n + 2 * m + 4 * t + f);
    assert(o[11] == 236 + 8 * n + 2 * m + 4 * t + f);
    assert(o[12] == 288 + 8 * n + 2 * m + 4 * t + f);
    assert(o[13] == 292 + 8 * n + 2 * m + 4 * t + f);
    assert(o[14] == 302 + 8 * n + 2 * m + 4 * t + f);
    assert(o[15] == 306 + 8 * n + 2 * m + 4 * t + f);
    assert(o[16] == 310 + 8 * n + 2 * m + 4 * t + f);
    assert(o[17] == 327 + 8 * n + 2 * m + 4 * t + f);
    assert(o[18] == 331 + 8 * n + 2 * m + 4 * t + f);
    assert(o[19] == 344 + 8 * n + 2 * m + 4 * t + f);
    assert(o[20] == 348 + 8 * n + 2 * m + 4 * t + f);
    assert(o[21] == 348 + 8 * n + 2 * m + 4 * t + f + l);
    assert(o[22] == 352 + 8 * n + 2 * m + 4 * t + f + l);
    assert(o[23] == 356 + 8 * n + 2 * m + 4 * t + f + l);
    assert(o[24] == 360 + 8 * n + 2 * m + 4 * t + f + l);
    assert(o[25] == 364 + 8 * n + 2 * m + 4 * t + f + l);
    if n > 0 {
        lemma_coords_bytes(points, 0);
    } else {
        assert(coords_bytes(points) =~= Seq::<u8>::empty());
    }
    if m > 0 {
        lemma_u16s_bytes(pressures, 0);
    } else {
        assert(u16s_bytes(pressures) =~= Seq::<u8>::empty());
    }
    if t > 0 {
        lemma_tilts_bytes(tilts, 0);
    } else {
        assert(tilts_bytes(tilts) =~= Seq::<u8>::empty());
    }
    lemma_join_part(parts, 0);
    lemma_join_part(parts, 3);
    lemma_join_part(parts, 5);
    lemma_join_part(parts, 7);
    lemma_join_part(parts, 11);
    lemma_join_part(parts, 16);
    lemma_join_part(parts, 18);
    lemma_join_part(parts, 20);
}

/// Reading a record whose parts stand where the layout puts them gives
/// the written fields.
#[verifier::rlimit(50)]
proof fn lemma_read_fields(
    header: Seq<u8>,
    points: Seq<ScreenCoord>,
    pressures: Seq<u16>,
    tilts: Seq<TiltVector>,
    s1: Seq<u8>,
    s3: Seq<u8>,
    s4: Seq<u8>,
    text: Seq<u8>,
    d: Seq<u8>,
    n: int,
    m: int,
    t: int,
    f: int,
    l: int,
)
    requires
        header.len() == 208,
        s1.len() == 52,
        s3.len() == 17,
        s4.len() == 13,
        n == points.len() && m == pressures.len() && t == tilts.len() && l == text.len() && 0 <= f,
        d.len() == 364 + 8 * n + 2 * m + 4 * t + f + l,
        le_u32(d, 208) == 0,
        le_u32(d, 212) == n,
        le_u32(d, 216 + 8 * n) == m,
        le_u32(d, 220 + 8 * n + 2 * m) == t,
        le_u32(d, 224 + 8 * n + 2 * m + 4 * t) == f,
        le_u32(d, 228 + 8 * n + 2 * m + 4 * t + f) == 0,
        le_u32(d, 232 + 8 * n + 2 * m + 4 * t + f) == 0,
        le_u32(d, 288 + 8 * n + 2 * m + 4 * t + f) == 0,
        le_u32(d, 302 + 8 * n + 2 * m + 4 * t + f) == 0,
        le_u32(d, 306 + 8 * n + 2 * m + 4 * t + f) == 0,
        le_u32(d, 327 + 8 * n + 2 * m + 4 * t + f) == 0,
        le_u32(d, 344 + 8 * n + 2 * m + 4 * t + f) == l,
        le_u32(d, 348 + 8 * n + 2 * m + 4 * t + f + l) == 0,
        le_u32(d, 352 + 8 * n + 2 * m + 4 * t + f + l) == 0,
        le_u32(d, 360 + 8 * n + 2 * m + 4 * t + f + l) == 0,
        d.subrange(0, 208) == header,
        d.subrange(216, 216 + 8 * n) == coords_bytes(points),
        d.subrange(220 + 8 * n, 220 + 8 * n + 2 * m) == u16s_bytes(pressures),
        d.subrange(224 + 8 * n + 2 * m, 224 + 8 * n + 2 * m + 4 * t) == tilts_bytes(tilts),
        d.subrange(236 + 8 * n + 2 * m + 4 * t + f, 288 + 8 * n + 2 * m + 4 * t + f) == s1,
        d.subrange(310 + 8 * n + 2 * m + 4 * t + f, 327 + 8 * n + 2 * m + 4 * t + f) == s3,
        d.subrange(331 + 8 * n + 2 * m + 4 * t + f, 344 + 8 * n + 2 * m + 4 * t + f) == s4,
        d.subrange(348 + 8 * n + 2 * m + 4 * t + f, 348 + 8 * n + 2 * m + 4 * t + f + l) == text,
    ensures
        crate::format::stroke::stroke_at(d, field_starts(n, m, t, f, l)) == written_stroke(
            header,
            points,
            pressures,
            tilts,
            s1,
            s3,
            s4,
        ),
        d.subrange(field_starts(n, m, t, f, l)[16] + 4, field_starts(n, m, t, f, l)[17]) == text,
{
    let fs = field_starts(n, m, t, f, l);
    assert(fs[2] == 212 && fs[3] == 216 + 8 * n && fs[4] == 220 + 8 * n + 2 * m);
    assert(fs[8] == 236 + 8 * n + 2 * m + 4 * t + f && fs[13] == 310 + 8 * n + 2 * m + 4 * t + f && fs[15] == 331 + 8 * n + 2 * m + 4 * t + f);
    assert(fs[16] == 344 + 8 * n + 2 * m + 4 * t + f && fs[17] == 348 + 8 * n + 2 * m + 4 * t + f + l);
    if n > 0 {
        lemma_coords_bytes(points, 0);
    } else {
        assert(coords_bytes(points) =~= Seq::<u8>::empty());
    }
    if m > 0 {
        lemma_u16s_bytes(pressures, 0);
    } else {
        assert(u16s_bytes(pressures) =~= Seq::<u8>::empty());
    }
    if t > 0 {
        lemma_tilts_bytes(tilts, 0);
    } else {
        assert(tilts_bytes(tilts) =~= Seq::<u8>::empty());
    }
    lemma_read_inside(d, 0, header, 0);
    lemma_read_inside(d, 0, header, 4);
    lemma_read_inside(d, 0, header, 8);
    lemma_read_inside(d, 0, header, 28);
    lemma_read_inside(d, 0, header, 44);
    lemma_read_inside(d, 0, header, 100);
    lemma_read_inside(d, 0, header, 104);
    lemma_read_inside(d, 0, header, 108);
    lemma_read_inside(d, 0, header, 112);
    lemma_read_inside(d, 0, header, 116);
    lemma_read_inside(d, 0, header, 120);
    lemma_read_inside(d, 0, header, 128);
    lemma_read_inside(d, 0, header, 132);
    assert(d.subrange(48, 100) =~= header.subrange(48, 100)) by {
        assert(d.subrange(48, 100) =~= d.subrange(0, 208).subrange(48, 100));
    }
    lemma_read_inside(d, 236 + 8 * n + 2 * m + 4 * t + f, s1, 8);
    lemma_read_inside(d, 310 + 8 * n + 2 * m + 4 * t + f, s3, 13);
    lemma_read_inside(d, 331 + 8 * n + 2 * m + 4 * t + f, s4, 0);
    lemma_read_inside(d, 331 + 8 * n + 2 * m + 4 * t + f, s4, 4);
    let st = crate::format::stroke::stroke_at(d, fs);
    assert forall|i: int| 0 <= i < n implies #[trigger] st.points[i] == points[i] by {
        lemma_coord_read(d, 216, points, i);
    }
    assert(st.points =~= points);
    assert forall|i: int| 0 <= i < m implies #[trigger] st.pressures[i] == pressures[i] by {
        lemma_u16_read(d, 220 + 8 * n, pressures, i);
    }
    assert(st.pressures =~= pressures);
    assert forall|i: int| 0 <= i < t implies #[trigger] st.tilts[i] == tilts[i] by {
        lemma_tilt_read(d, 224 + 8 * n + 2 * m, tilts, i);
    }
    assert(st.tilts =~= tilts);
}

/// A stroke record written from its fields (the header, the points,
/// pressures and tilts, any number of one-byte draw flags, the fixed
/// sections and the text payload) parses back to exactly those fields and
/// that payload: the draw-flag list takes its four-byte count and one
/// byte per flag, and every later field is read where it was written.
pub proof fn law_stroke_record_read_back(
    header: Seq<u8>,
    points: Seq<ScreenCoord>,
    pressures: Seq<u16>,
    tilts: Seq<TiltVector>,
    flags: Seq<u8>,
    s1: Seq<u8>,
    s2: Seq<u8>,
    s3: Seq<u8>,
    s4: Seq<u8>,
    text: Seq<u8>,
)
    requires
        header.len() == 208,
        s1.len() == 52,
        s2.len() == 10,
        s3.len() == 17,
        s4.len() == 13,
        points.len() <= u32::MAX,
        pressures.len() <= u32::MAX,
        tilts.len() <= u32::MAX,
        flags.len() <= u32::MAX,
        text.len() <= u32::MAX,
    ensures
        stroke_spec(record_bytes(header, points, pressures, tilts, flags, s1, s2, s3, s4, text)) == Ok::<
            (StrokeModel, Seq<u8>),
            Error,
        >((written_stroke(header, points, pressures, tilts, s1, s3, s4), text)),
{
    let d = record_bytes(header, points, pressures, tilts, flags, s1, s2, s3, s4, text);
    let n = points.len() as int;
    let m = pressures.len() as int;
    let t = tilts.len() as int;
    let f = flags.len() as int;
    let l = text.len() as int;
    lemma_record_placement(header, points, pressures, tilts, flags, s1, s2, s3, s4, text, d, n, m, t, f, l);
    lemma_field_walk(d, n, m, t, f, l);
    lemma_read_fields(header, points, pressures, tilts, s1, s3, s4, text, d, n, m, t, f, l);
}

/// The contents of a stroke record, field by field, as the device writes
/// them. Counted lists of opaque elements are given as their bytes and
/// their number of elements.
pub struct RecordContent {
    pub header: Seq<u8>,
    pub areas: Seq<u8>,
    pub area_count: nat,
    pub points: Seq<ScreenCoord>,
    pub pressures: Seq<u16>,
    pub tilts: Seq<TiltVector>,
    pub flags: Seq<u8>,
    pub epa_points: Seq<u8>,
    pub epa_point_count: nat,
    pub epa_grays: Seq<u8>,
    pub epa_gray_count: nat,
    pub s1: Seq<u8>,
    pub controls: Seq<u8>,
    pub control_count: nat,
    pub s2: Seq<u8>,
    pub contours: Seq<Seq<u8>>,
    pub contour_counts: Seq<nat>,
    pub chunks: Seq<u8>,
    pub chunk_count: nat,
    pub s3: Seq<u8>,
    pub ints: Seq<u8>,
    pub int_count: nat,
    pub s4: Seq<u8>,
    pub text: Seq<u8>,
    pub name1: Seq<u8>,
    pub name2: Seq<u8>,
    pub s5: Seq<u8>,
    pub fills: Seq<u8>,
    pub fill_count: nat,
}

/// A `u32` count followed by the elements' bytes.
pub open spec fn counted(count: nat, items: Seq<u8>) -> Seq<u8> {
    le_bytes(count) + items
}

/// The fields of a stroke record as the device writes them: the header,
/// the disable areas (24 bytes each), the points, pressures and tilts,
/// the draw flags (one byte each), the EPA points (8 bytes each) and grays
/// (4 bytes each), section 1, the control numbers (4 bytes each), section
/// 2, the point contours (lists of 8-byte elements), the 16-byte chunks, section 3, the `i32` array,
/// section 4, the text and two more sized strings, a 4-byte section and
/// the marker fill directions (8 bytes each).
pub open spec fn content_parts(r: RecordContent) -> Seq<Seq<u8>> {
    seq![
        r.header,
        counted(r.area_count, r.areas),
        counted(r.points.len(), coords_bytes(r.points)),
        counted(r.pressures.len(), u16s_bytes(r.pressures)),
        counted(r.tilts.len(), tilts_bytes(r.tilts)),
        counted(r.flags.len(), r.flags),
        counted(r.epa_point_count, r.epa_points),
        counted(r.epa_gray_count, r.epa_grays),
        r.s1,
        counted(r.control_count, r.controls),
        r.s2,
        join(contour_parts(r)),
        counted(r.chunk_count, r.chunks),
        r.s3,
        counted(r.int_count, r.ints),
        r.s4,
        counted(r.text.len(), r.text),
        counted(r.name1.len(), r.name1),
        counted(r.name2.len(), r.name2),
        r.s5,
        counted(r.fill_count, r.fills),
    ]
}

/// The point contours: their number, then each contour's count and its
/// 8-byte elements.
pub open spec fn contour_parts(r: RecordContent) -> Seq<Seq<u8>> {
    seq![le_bytes(r.contours.len())] + Seq::new(
        r.contours.len(),
        |i: int| counted(r.contour_counts[i], r.contours[i]),
    )
}

/// The record bytes written from the contents.
pub open spec fn content_bytes(r: RecordContent) -> Seq<u8> {
    join(content_parts(r))
}

/// The contents have the sizes the format gives: fixed sections of 208,
/// 52, 10, 17, 13 and 4 bytes, each counted list holding its number of
/// elements of its element size, and every count fitting in a `u32`.
pub open spec fn content_sized(r: RecordContent) -> bool {
    &&& r.header.len() == 208
    &&& r.areas.len() == 24 * r.area_count
    &&& r.epa_points.len() == 8 * r.epa_point_count
    &&& r.epa_grays.len() == 4 * r.epa_gray_count
    &&& r.s1.len() == 52
    &&& r.controls.len() == 4 * r.control_count
    &&& r.s2.len() == 10
    &&& r.contours.len() == r.contour_counts.len()
    &&& r.contours.len() <= u32::MAX
    &&& forall|i: int| 0 <= i < r.contours.len() ==> #[trigger] r.contours[i].len() == 8 * r.contour_counts[i]
        && r.contour_counts[i] <= u32::MAX
    &&& r.chunks.len() == 16 * r.chunk_count
    &&& r.s3.len() == 17
    &&& r.ints.len() == 4 * r.int_count
    &&& r.s4.len() == 13
    &&& r.s5.len() == 4
    &&& r.fills.len() == 8 * r.fill_count
    &&& r.area_count <= u32::MAX
    &&& r.points.len() <= u32::MAX
    &&& r.pressures.len() <= u32::MAX
    &&& r.tilts.len() <= u32::MAX
    &&& r.flags.len() <= u32::MAX
    &&& r.epa_point_count <= u32::MAX
    &&& r.epa_gray_count <= u32::MAX
    &&& r.control_count <= u32::MAX
    &&& r.chunk_count <= u32::MAX
    &&& r.int_count <= u32::MAX
    &&& r.text.len() <= u32::MAX
    &&& r.name1.len() <= u32::MAX
    &&& r.name2.len() <= u32::MAX
    &&& r.fill_count <= u32::MAX
}

/// Whether `part` is one field of kind `f`: a section of its size, or a
/// `u32` count followed by that many elements (or lists of elements).
spec fn encodes(f: Field, part: Seq<u8>) -> bool {
    match f {
        Field::Section(s) => part.len() == s,
        Field::Array(s) => part.len() >= 4 && part.len() == 4 + le_u32(part, 0) * s,
        Field::Arrays(s) => part.len() >= 4 && arrays_end(part, 4, le_u32(part, 0), s as int) == Ok::<int, Error>(
            part.len() as int,
        ),
        Field::Chunks(s) => part.len() >= 4 && part.len() == 4 + le_u32(part, 0) * s,
    }
}

proof fn lemma_counted(count: nat, items: Seq<u8>)
    requires
        count <= u32::MAX,
    ensures
        counted(count, items).len() == 4 + items.len(),
        le_u32(counted(count, items), 0) == count,
{
    let c = counted(count, items);
    assert(c.subrange(0, 4) =~= le_bytes(count));
    lemma_le_read(c, 0, count);
}

/// A field that stands in the joined parts as its own part ends where the
/// next part starts.
proof fn lemma_field_at(parts: Seq<Seq<u8>>, i: int)
    requires
        0 <= i < parts.len(),
        encodes(layout_at(i), parts[i]),
    ensures
        field_end(join(parts), part_start(parts, i), layout_at(i)) == Ok::<int, Error>(part_start(parts, i + 1)),
{
    lemma_join_part(parts, i);
    lemma_part_start_step(parts, i);
    let d = join(parts);
    let a = part_start(parts, i);
    let p = parts[i];
    match layout_at(i) {
        Field::Section(s) => {},
        Field::Array(s) => {
            lemma_read_inside(d, a, p, 0);
        },
        Field::Arrays(s) => {
            lemma_read_inside(d, a, p, 0);
            lemma_arrays_shift(d, a, p, 4, le_u32(p, 0), s as int);
        },
        Field::Chunks(s) => {
            lemma_read_inside(d, a, p, 0);
        },
    }
}

/// Lists of lists read inside a part read the same inside the whole.
proof fn lemma_arrays_shift(d: Seq<u8>, a: int, p: Seq<u8>, q: int, n: nat, s: int)
    requires
        0 <= a,
        a + p.len() <= d.len(),
        d.subrange(a, a + p.len()) == p,
        0 <= q,
        0 <= s,
        arrays_end(p, q, n, s) is Ok,
    ensures
        arrays_end(p, q, n, s)->Ok_0 >= q,
        arrays_end(d, a + q, n, s) == Ok::<int, Error>(a + arrays_end(p, q, n, s)->Ok_0),
    decreases n,
{
    if n > 0 {
        assert(arrays_end(p, q, (n - 1) as nat, s) is Ok);
        lemma_arrays_shift(d, a, p, q, (n - 1) as nat, s);
        let e = arrays_end(p, q, (n - 1) as nat, s)->Ok_0;
        assert(e + 4 <= p.len());
        lemma_read_inside(d, a, p, e);
        assert(le_u32(p, e) * s >= 0) by (nonlinear_arith)
            requires
                s >= 0,
        ;
    }
}

/// The point contours, written as their number and then each contour's
/// count and elements, are one field of lists of 8-byte elements.
proof fn lemma_contours_encode(r: RecordContent)
    requires
        content_sized(r),
    ensures
        encodes(Field::Arrays(8), join(contour_parts(r))),
{
    let cp = contour_parts(r);
    let p = join(cp);
    let k = r.contours.len();
    lemma_join_part(cp, 0);
    assert(cp.take(0) =~= Seq::<Seq<u8>>::empty());
    assert(cp[0] == le_bytes(k));
    lemma_le_read(p, 0, k);
    lemma_part_start_step(cp, 0);
    lemma_contours_walk(r, k);
    assert(cp.take(k + 1int) =~= cp);
}

proof fn lemma_contours_walk(r: RecordContent, j: nat)
    requires
        content_sized(r),
        j <= r.contours.len(),
    ensures
        arrays_end(join(contour_parts(r)), 4, j, 8) == Ok::<int, Error>(part_start(contour_parts(r), j + 1int)),
    decreases j,
{
    let cp = contour_parts(r);
    let p = join(cp);
    if j == 0 {
        assert(cp.take(0) =~= Seq::<Seq<u8>>::empty());
        lemma_part_start_step(cp, 0);
    } else {
        lemma_contours_walk(r, (j - 1) as nat);
        let i = j - 1;
        assert(cp[i + 1] == counted(r.contour_counts[i], r.contours[i]));
        assert(r.contours[i].len() == 8 * r.contour_counts[i] && r.contour_counts[i] <= u32::MAX);
        lemma_counted_inside(cp, i + 1, r.contour_counts[i], r.contours[i]);
        lemma_counted(r.contour_counts[i], r.contours[i]);
        lemma_part_start_step(cp, i + 1);
    }
}

proof fn lemma_counted_encodes(count: nat, items: Seq<u8>, s: usize)
    requires
        count <= u32::MAX,
        items.len() == count * s,
    ensures
        encodes(Field::Array(s), counted(count, items)),
        encodes(Field::Chunks(s), counted(count, items)),
{
    lemma_counted(count, items);
}

proof fn lemma_list_lengths(points: Seq<ScreenCoord>, pressures: Seq<u16>, tilts: Seq<TiltVector>)
    ensures
        coords_bytes(points).len() == 8 * points.len(),
        u16s_bytes(pressures).len() == 2 * pressures.len(),
        tilts_bytes(tilts).len() == 4 * tilts.len(),
{
    if points.len() > 0 {
        lemma_coords_bytes(points, 0);
    } else {
        assert(coords_bytes(points) =~= Seq::<u8>::empty());
    }
    if pressures.len() > 0 {
        lemma_u16s_bytes(pressures, 0);
    } else {
        assert(u16s_bytes(pressures) =~= Seq::<u8>::empty());
    }
    if tilts.len() > 0 {
        lemma_tilts_bytes(tilts, 0);
    } else {
        assert(tilts_bytes(tilts) =~= Seq::<u8>::empty());
    }
}

proof fn lemma_content_field(r: RecordContent, i: int)
    requires
        content_sized(r),
        0 <= i < 21,
    ensures
        encodes(layout_at(i), content_parts(r)[i]),
{
    let parts = content_parts(r);
    lemma_list_lengths(r.points, r.pressures, r.tilts);
    if i == 0 {
        assert(parts[0] == r.header);
    } else if i == 1 {
        assert(parts[1] == counted(r.area_count, r.areas));
        lemma_counted_encodes(r.area_count, r.areas, 24);
    } else if i == 2 {
        assert(parts[2] == counted(r.points.len(), coords_bytes(r.points)));
        lemma_counted_encodes(r.points.len(), coords_bytes(r.points), 8);
    } else if i == 3 {
        assert(parts[3] == counted(r.pressures.len(), u16s_bytes(r.pressures)));
        lemma_counted_encodes(r.pressures.len(), u16s_bytes(r.pressures), 2);
    } else if i == 4 {
        assert(parts[4] == counted(r.tilts.len(), tilts_bytes(r.tilts)));
        lemma_counted_encodes(r.tilts.len(), tilts_bytes(r.tilts), 4);
    } else if i == 5 {
        assert(parts[5] == counted(r.flags.len(), r.flags));
        lemma_counted_encodes(r.flags.len(), r.flags, 1);
    } else if i == 6 {
        assert(parts[6] == counted(r.epa_point_count, r.epa_points));
        lemma_counted_encodes(r.epa_point_count, r.epa_points, 8);
    } else if i == 7 {
        assert(parts[7] == counted(r.epa_gray_count, r.epa_grays));
        lemma_counted_encodes(r.epa_gray_count, r.epa_grays, 4);
    } else if i == 8 {
        assert(parts[8] == r.s1);
    } else if i == 9 {
        assert(parts[9] == counted(r.control_count, r.controls));
        lemma_counted_encodes(r.control_count, r.controls, 4);
    } else if i == 10 {
        assert(parts[10] == r.s2);
    } else if i == 11 {
        assert(parts[11] == join(contour_parts(r)));
        lemma_contours_encode(r);
    } else if i == 12 {
        assert(parts[12] == counted(r.chunk_count, r.chunks));
        lemma_counted_encodes(r.chunk_count, r.chunks, 16);
    } else if i == 13 {
        assert(parts[13] == r.s3);
    } else if i == 14 {
        assert(parts[14] == counted(r.int_count, r.ints));
        lemma_counted_encodes(r.int_count, r.ints, 4);
    } else if i == 15 {
        assert(parts[15] == r.s4);
    } else if i == 16 {
        assert(parts[16] == counted(r.text.len(), r.text));
        lemma_counted_encodes(r.text.len(), r.text, 1);
    } else if i == 17 {
        assert(parts[17] == counted(r.name1.len(), r.name1));
        lemma_counted_encodes(r.name1.len(), r.name1, 1);
    } else if i == 18 {
        assert(parts[18] == counted(r.name2.len(), r.name2));
        lemma_counted_encodes(r.name2.len(), r.name2, 1);
    } else if i == 19 {
        assert(parts[19] == r.s5);
    } else {
        assert(parts[20] == counted(r.fill_count, r.fills));
        lemma_counted_encodes(r.fill_count, r.fills, 8);
    }
}

/// Where each field of a written record starts, and where the record ends.
pub open spec fn content_starts(r: RecordContent) -> Seq<int> {
    Seq::new(22, |j: int| part_start(content_parts(r), j))
}

proof fn lemma_content_walk(r: RecordContent)
    requires
        content_sized(r),
    ensures
        field_offsets(content_bytes(r), 21) == Ok::<Seq<int>, Error>(content_starts(r)),
{
    let parts = content_parts(r);
    let d = content_bytes(r);
    let ps = content_starts(r);
    assert(parts.len() == 21);
    assert(parts.take(0) =~= Seq::<Seq<u8>>::empty());
    assert(ps[0] == 0);
    assert forall|i: int| 0 <= i < 21 implies #[trigger] field_end(d, ps[i], layout_at(i)) == Ok::<int, Error>(ps[i + 1]) by {
        lemma_content_field(r, i);
        lemma_field_at(parts, i);
    }
    lemma_walk(d, ps, 21);
    assert(ps.take(22) =~= ps);
}

/// A counted part of the joined parts holds its count, then its items.
proof fn lemma_counted_inside(parts: Seq<Seq<u8>>, j: int, count: nat, items: Seq<u8>)
    requires
        0 <= j < parts.len(),
        count <= u32::MAX,
        parts[j] == counted(count, items),
    ensures
        le_u32(join(parts), part_start(parts, j)) == count,
        part_start(parts, j) + 4 + items.len() <= join(parts).len(),
        join(parts).subrange(part_start(parts, j) + 4, part_start(parts, j) + 4 + items.len()) == items,
{
    lemma_join_part(parts, j);
    lemma_counted(count, items);
    let d = join(parts);
    let a = part_start(parts, j);
    lemma_read_inside(d, a, parts[j], 0);
    assert(d.subrange(a + 4, a + 4 + items.len()) =~= d.subrange(a, a + parts[j].len()).subrange(4, 4 + items.len() as int));
}

/// A stroke record written field by field, with any contents of the sizes
/// the format gives (lists of disable areas, points, pressures, tilts,
/// one-byte draw flags, EPA points and grays, control numbers, point
/// contours, 16-byte chunks, `i32`s, sized strings and fill directions of
/// any length), parses back to the written stroke and text: each field takes its count
/// and that many elements of its element size, so every later field is
/// read where it was written.
pub proof fn law_stroke_record_contents_read_back(r: RecordContent)
    requires
        content_sized(r),
    ensures
        stroke_spec(content_bytes(r)) == Ok::<(StrokeModel, Seq<u8>), Error>(
            (written_stroke(r.header, r.points, r.pressures, r.tilts, r.s1, r.s3, r.s4), r.text),
        ),
{
    let d = content_bytes(r);
    let ps = content_starts(r);
    lemma_content_walk(r);
    lemma_header_read(r);
    lemma_sections_read(r);
    lemma_lists_read(r);
    let st = crate::format::stroke::stroke_at(d, ps);
    assert(st == written_stroke(r.header, r.points, r.pressures, r.tilts, r.s1, r.s3, r.s4));
}

proof fn lemma_header_read(r: RecordContent)
    requires
        content_sized(r),
    ensures
        ({
            let d = content_bytes(r);
            let h = r.header;
            &&& le_u32(d, 0) == le_u32(h, 0)
            &&& le_u32(d, 4) == le_u32(h, 4)
            &&& le_u32(d, 8) == le_u32(h, 8)
            &&& le_u32(d, 28) == le_u32(h, 28)
            &&& le_u32(d, 44) == le_u32(h, 44)
            &&& d.subrange(48, 100) == h.subrange(48, 100)
            &&& coord_at(d, 100) == coord_at(h, 100)
            &&& coord_at(d, 108) == coord_at(h, 108)
            &&& coord_at(d, 116) == coord_at(h, 116)
            &&& le_u32(d, 128) == le_u32(h, 128)
            &&& le_u32(d, 132) == le_u32(h, 132)
        }),
{
    let parts = content_parts(r);
    let d = content_bytes(r);
    let header = r.header;
    assert(parts.len() == 21);
    assert(parts.take(0) =~= Seq::<Seq<u8>>::empty());
    lemma_join_part(parts, 0);
    assert(parts[0] == header);
    assert(d.subrange(0, 208) == header);
    lemma_read_inside(d, 0, header, 0);
    lemma_read_inside(d, 0, header, 4);
    lemma_read_inside(d, 0, header, 8);
    lemma_read_inside(d, 0, header, 28);
    lemma_read_inside(d, 0, header, 44);
    lemma_read_inside(d, 0, header, 100);
    lemma_read_inside(d, 0, header, 104);
    lemma_read_inside(d, 0, header, 108);
    lemma_read_inside(d, 0, header, 112);
    lemma_read_inside(d, 0, header, 116);
    lemma_read_inside(d, 0, header, 120);
    lemma_read_inside(d, 0, header, 128);
    lemma_read_inside(d, 0, header, 132);
    assert(d.subrange(48, 100) =~= header.subrange(48, 100)) by {
        assert(d.subrange(48, 100) =~= d.subrange(0, 208).subrange(48, 100));
    }
}

proof fn lemma_sections_read(r: RecordContent)
    requires
        content_sized(r),
    ensures
        ({
            let d = content_bytes(r);
            let ps = content_starts(r);
            &&& le_u32(d, ps[8] + 8) == le_u32(r.s1, 8)
            &&& le_u32(d, ps[13] + 13) == le_u32(r.s3, 13)
            &&& le_u32(d, ps[15]) == le_u32(r.s4, 0)
            &&& le_u32(d, ps[15] + 4) == le_u32(r.s4, 4)
            &&& d.subrange(ps[16] + 4, ps[17]) == r.text
        }),
{
    let parts = content_parts(r);
    let d = content_bytes(r);
    let ps = content_starts(r);
    assert(parts.len() == 21);
    assert(parts[8] == r.s1 && parts[13] == r.s3 && parts[15] == r.s4);
    assert(parts[16] == counted(r.text.len(), r.text));
    lemma_join_part(parts, 8);
    lemma_join_part(parts, 13);
    lemma_join_part(parts, 15);
    lemma_read_inside(d, ps[8], r.s1, 8);
    lemma_read_inside(d, ps[13], r.s3, 13);
    lemma_read_inside(d, ps[15], r.s4, 0);
    lemma_read_inside(d, ps[15], r.s4, 4);
    lemma_counted_inside(parts, 16, r.text.len(), r.text);
    lemma_part_start_step(parts, 16);
    lemma_counted(r.text.len(), r.text);
}

proof fn lemma_lists_read(r: RecordContent)
    requires
        content_sized(r),
    ensures
        ({
            let d = content_bytes(r);
            let ps = content_starts(r);
            &&& crate::format::stroke::coords_at(d, ps[2]) == r.points
            &&& crate::format::stroke::u16s_at(d, ps[3]) == r.pressures
            &&& crate::format::stroke::tilts_at(d, ps[4]) == r.tilts
        }),
{
    let parts = content_parts(r);
    let d = content_bytes(r);
    let ps = content_starts(r);
    let points = r.points;
    let pressures = r.pressures;
    let tilts = r.tilts;
    assert(parts.len() == 21);
    lemma_list_lengths(points, pressures, tilts);
    assert(parts[2] == counted(points.len(), coords_bytes(points)));
    assert(parts[3] == counted(pressures.len(), u16s_bytes(pressures)));
    assert(parts[4] == counted(tilts.len(), tilts_bytes(tilts)));
    lemma_counted_inside(parts, 2, points.len(), coords_bytes(points));
    lemma_counted_inside(parts, 3, pressures.len(), u16s_bytes(pressures));
    lemma_counted_inside(parts, 4, tilts.len(), tilts_bytes(tilts));
    let cs = crate::format::stroke::coords_at(d, ps[2]);
    assert forall|i: int| 0 <= i < points.len() implies #[trigger] cs[i] == points[i] by {
        lemma_coord_read(d, ps[2] + 4, points, i);
    }
    assert(cs =~= points);
    let us = crate::format::stroke::u16s_at(d, ps[3]);
    assert forall|i: int| 0 <= i < pressures.len() implies #[trigger] us[i] == pressures[i] by {
        lemma_u16_read(d, ps[3] + 4, pressures, i);
    }
    assert(us =~= pressures);
    let ts = crate::format::stroke::tilts_at(d, ps[4]);
    assert forall|i: int| 0 <= i < tilts.len() implies #[trigger] ts[i] == tilts[i] by {
        lemma_tilt_read(d, ps[4] + 4, tilts, i);
    }
    assert(ts =~= tilts);
}

} // verus!
