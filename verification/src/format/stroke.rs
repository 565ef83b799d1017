use base64::Engine;
use vstd::prelude::*;
use vstd::utf8::*;

use crate::bytes::{
    as_i16, as_i32, law_block_frame_read_back, le_bytes, le_u16, le_u32, lemma_le_bytes_read_back,
    read_le_i16, read_le_i32, read_le_u16, read_le_u32,
};
use crate::error::Error;
use crate::text::{parse_uint, split_on, split_str, str_eq, str_from_utf8, trim, trim_str};

verus! {

/// Pen type of the ink pen.
pub const PEN_INK_PEN: u32 = 1;

/// Pen type of the needle-point pen.
pub const PEN_NEEDLE_POINT: u32 = 10;

/// Pen type of the marker.
pub const PEN_MARKER: u32 = 11;

/// Special color value indicating an eraser stroke.
pub const COLOR_ERASER: u32 = 255;

/// A point in physical screen units.
#[derive(Debug, Clone, Copy, PartialEq, Eq, Structural)]
pub struct ScreenCoord {
    pub y: i32,
    pub x: i32,
}

/// A pen tilt sample.
#[derive(Debug, Clone, Copy, PartialEq, Eq, Structural)]
pub struct TiltVector {
    pub y: i16,
    pub x: i16,
}

/// One pen stroke of a page.
#[derive(Debug, Clone, PartialEq)]
pub struct Stroke {
    pub pen: u32,
    pub color: u32,
    pub thickness: u32,
    pub page_num: u32,
    pub stroke_layer: u32,
    pub stroke_kind: String,
    pub bounding_tl: ScreenCoord,
    pub bounding_mid: ScreenCoord,
    pub bounding_br: ScreenCoord,
    pub screen_width: u32,
    pub screen_height: u32,
    pub points: Vec<ScreenCoord>,
    pub pressures: Vec<u16>,
    pub tilts: Vec<TiltVector>,
    pub stroke_uid: u32,
    pub rotation_degrees: i32,
    pub pixel_width: u32,
    pub pixel_height: u32,
}

/// What a stroke holds, over plain values.
pub struct StrokeModel {
    pub pen: u32,
    pub color: u32,
    pub thickness: u32,
    pub page_num: u32,
    pub stroke_layer: u32,
    pub stroke_kind: Seq<char>,
    pub bounding_tl: ScreenCoord,
    pub bounding_mid: ScreenCoord,
    pub bounding_br: ScreenCoord,
    pub screen_width: u32,
    pub screen_height: u32,
    pub points: Seq<ScreenCoord>,
    pub pressures: Seq<u16>,
    pub tilts: Seq<TiltVector>,
    pub stroke_uid: u32,
    pub rotation_degrees: i32,
    pub pixel_width: u32,
    pub pixel_height: u32,
}

impl View for Stroke {
    type V = StrokeModel;

    open spec fn view(&self) -> StrokeModel {
        StrokeModel {
            pen: self.pen,
            color: self.color,
            thickness: self.thickness,
            page_num: self.page_num,
            stroke_layer: self.stroke_layer,
            stroke_kind: self.stroke_kind@,
            bounding_tl: self.bounding_tl,
            bounding_mid: self.bounding_mid,
            bounding_br: self.bounding_br,
            screen_width: self.screen_width,
            screen_height: self.screen_height,
            points: self.points@,
            pressures: self.pressures@,
            tilts: self.tilts@,
            stroke_uid: self.stroke_uid,
            rotation_degrees: self.rotation_degrees,
            pixel_width: self.pixel_width,
            pixel_height: self.pixel_height,
        }
    }
}

/// Names what `String::from_utf8_lossy` makes of a byte sequence.
pub uninterp spec fn lossy_decode(b: Seq<u8>) -> Seq<char>;

/// Calls `String::from_utf8_lossy`.  Its result is named [`lossy_decode`];
/// its documentation promises that valid UTF-8 is decoded unchanged.  What
/// it makes of invalid sequences (U+FFFD replacements) is not stated here.
#[verifier::external_body]
fn from_utf8_lossy(b: &[u8]) -> (s: String)
    ensures
        s@ == lossy_decode(b@),
        valid_utf8(b@) ==> s@ == decode_utf8(b@),
{
    String::from_utf8_lossy(b).into_owned()
}

/// Length of the prefix of `b` before its first zero byte (all of `b` if none).
pub open spec fn c_string_len(b: Seq<u8>) -> int
    decreases b.len(),
{
    if b.len() == 0 {
        0
    } else if b[0] == 0 {
        0
    } else {
        1 + c_string_len(b.drop_first())
    }
}

/// The text of a zero-terminated byte buffer.
pub open spec fn c_string(b: Seq<u8>) -> Seq<char> {
    lossy_decode(b.take(c_string_len(b)))
}

proof fn lemma_c_string_len(b: Seq<u8>, i: int)
    requires
        0 <= i <= b.len(),
        forall|j: int| 0 <= j < i ==> b[j] != 0,
    ensures
        i < b.len() && b[i] == 0 ==> c_string_len(b) == i,
        i == b.len() ==> c_string_len(b) == i,
    decreases i,
{
    if i > 0 {
        lemma_c_string_len(b.drop_first(), i - 1);
    }
}

/// The text of a zero-terminated byte buffer, decoded leniently.
pub fn extract_c_string(buf: &[u8]) -> (s: String)
    ensures
        s@ == c_string(buf@),
        valid_utf8(buf@.take(c_string_len(buf@))) ==> s@ == decode_utf8(buf@.take(c_string_len(buf@))),
        forall|i: int| 0 <= i < c_string_len(buf@) ==> #[trigger] buf@[i] != 0,
        c_string_len(buf@) == buf@.len() || buf@[c_string_len(buf@)] == 0,
{
    let mut end: usize = 0;
    while end < buf.len() && buf[end] != 0
        invariant
            end <= buf@.len(),
            forall|j: int| 0 <= j < end ==> buf@[j] != 0,
        decreases buf@.len() - end,
    {
        end += 1;
    }
    proof {
        lemma_c_string_len(buf@, end as int);
    }
    let head = vstd::slice::slice_subrange(buf, 0, end);
    assert(head@ =~= buf@.take(end as int));
    from_utf8_lossy(head)
}

/// One field of a stroke record.
#[derive(Clone, Copy)]
pub enum Field {
    /// A fixed-size block of this many bytes.
    Section(usize),
    /// A `u32` count, then that many elements of this size.
    Array(usize),
    /// A `u32` count, then that many arrays of elements of this size.
    Arrays(usize),
    /// A `u32` count, then that many opaque chunks of this size.
    Chunks(usize),
}

/// The fields of a stroke record, in order: the 208-byte header, the
/// disable areas, points, pressures, tilts, draw flags, EPA points, EPA
/// grays, section 1, control numbers, section 2, point contours, 16-byte
/// chunks, section 3, an `i32` array, section 4, three sized strings, a
/// `u32` and the marker fill directions.
pub open spec fn layout_at(i: int) -> Field {
    if i == 0 { Field::Section(208) }
    else if i == 1 { Field::Array(24) }
    else if i == 2 { Field::Array(8) }
    else if i == 3 { Field::Array(2) }
    else if i == 4 { Field::Array(4) }
    else if i == 5 { Field::Array(1) }
    else if i == 6 { Field::Array(8) }
    else if i == 7 { Field::Array(4) }
    else if i == 8 { Field::Section(52) }
    else if i == 9 { Field::Array(4) }
    else if i == 10 { Field::Section(10) }
    else if i == 11 { Field::Arrays(8) }
    else if i == 12 { Field::Chunks(16) }
    else if i == 13 { Field::Section(17) }
    else if i == 14 { Field::Array(4) }
    else if i == 15 { Field::Section(13) }
    else if i == 16 { Field::Array(1) }
    else if i == 17 { Field::Array(1) }
    else if i == 18 { Field::Array(1) }
    else if i == 19 { Field::Section(4) }
    else { Field::Array(8) }
}

/// The element sizes of the layout are small enough to skip safely.
pub open spec fn small_field(f: Field) -> bool {
    match f {
        Field::Section(s) => s <= 208,
        Field::Array(s) => 1 <= s <= 24,
        Field::Arrays(s) => 1 <= s <= 24,
        Field::Chunks(s) => 1 <= s <= 24,
    }
}

fn layout_field(i: usize) -> (f: Field)
    requires
        i < 21,
    ensures
        f == layout_at(i as int),
        small_field(f),
{
    match i {
        0 => Field::Section(208),
        1 => Field::Array(24),
        2 => Field::Array(8),
        3 => Field::Array(2),
        4 => Field::Array(4),
        5 => Field::Array(1),
        6 => Field::Array(8),
        7 => Field::Array(4),
        8 => Field::Section(52),
        9 => Field::Array(4),
        10 => Field::Section(10),
        11 => Field::Arrays(8),
        12 => Field::Chunks(16),
        13 => Field::Section(17),
        14 => Field::Array(4),
        15 => Field::Section(13),
        16 => Field::Array(1),
        17 => Field::Array(1),
        18 => Field::Array(1),
        19 => Field::Section(4),
        _ => Field::Array(8),
    }
}

/// Where a counted array of `size`-byte elements at `pos` ends.
pub open spec fn array_end(d: Seq<u8>, pos: int, size: int) -> Result<int, Error> {
    if pos + 4 > d.len() {
        Err(Error::UnexpectedEnd { offset: pos as usize })
    } else if pos + 4 + le_u32(d, pos) * size > d.len() {
        Err(Error::UnexpectedEnd { offset: (pos + 4) as usize })
    } else {
        Ok(pos + 4 + le_u32(d, pos) * size)
    }
}

/// Where `n` consecutive counted arrays at `pos` end.
pub open spec fn arrays_end(d: Seq<u8>, pos: int, n: nat, size: int) -> Result<int, Error>
    decreases n,
{
    if n == 0 {
        Ok(pos)
    } else {
        match arrays_end(d, pos, (n - 1) as nat, size) {
            Err(e) => Err(e),
            Ok(p) => array_end(d, p, size),
        }
    }
}

/// Where the field `f` at `pos` ends.
pub open spec fn field_end(d: Seq<u8>, pos: int, f: Field) -> Result<int, Error> {
    match f {
        Field::Section(size) => if pos + size > d.len() {
            Err(Error::UnexpectedEnd { offset: pos as usize })
        } else {
            Ok(pos + size)
        },
        Field::Array(size) => array_end(d, pos, size as int),
        Field::Arrays(size) => if pos + 4 > d.len() {
            Err(Error::UnexpectedEnd { offset: pos as usize })
        } else {
            arrays_end(d, pos + 4, le_u32(d, pos), size as int)
        },
        Field::Chunks(size) => if pos + 4 > d.len() {
            Err(Error::UnexpectedEnd { offset: pos as usize })
        } else if pos + 4 + le_u32(d, pos) * size > d.len() {
            Err(Error::UnexpectedEnd { offset: (pos + 4) as usize })
        } else {
            Ok(pos + 4 + le_u32(d, pos) * size)
        },
    }
}

/// The start offsets of the first `n` fields of a stroke record and the
/// end of the last, or the first field that does not fit.
pub open spec fn field_offsets(d: Seq<u8>, n: nat) -> Result<Seq<int>, Error>
    decreases n,
{
    if n == 0 {
        Ok(seq![0])
    } else {
        match field_offsets(d, (n - 1) as nat) {
            Err(e) => Err(e),
            Ok(ps) => match field_end(d, ps.last(), layout_at(n - 1)) {
                Err(e) => Err(e),
                Ok(end) => Ok(ps.push(end)),
            },
        }
    }
}

/// The point at `at`: `y` then `x`, little-endian `i32`s.
pub open spec fn coord_at(d: Seq<u8>, at: int) -> ScreenCoord {
    ScreenCoord { y: as_i32(le_u32(d, at)) as i32, x: as_i32(le_u32(d, at + 4)) as i32 }
}

/// The elements of the counted array of points at `pos`.
pub open spec fn coords_at(d: Seq<u8>, pos: int) -> Seq<ScreenCoord> {
    Seq::new(le_u32(d, pos), |i: int| coord_at(d, pos + 4 + 8 * i))
}

/// The elements of the counted array of `u16`s at `pos`.
pub open spec fn u16s_at(d: Seq<u8>, pos: int) -> Seq<u16> {
    Seq::new(le_u32(d, pos), |i: int| le_u16(d, pos + 4 + 2 * i) as u16)
}

/// The elements of the counted array of tilts at `pos`.
pub open spec fn tilts_at(d: Seq<u8>, pos: int) -> Seq<TiltVector> {
    Seq::new(
        le_u32(d, pos),
        |i: int|
            TiltVector {
                y: as_i16(le_u16(d, pos + 4 + 4 * i)) as i16,
                x: as_i16(le_u16(d, pos + 6 + 4 * i)) as i16,
            },
    )
}

/// The stroke that a record describes, given where its fields start.
pub open spec fn stroke_at(d: Seq<u8>, ps: Seq<int>) -> StrokeModel {
    StrokeModel {
        pen: le_u32(d, 0) as u32,
        color: le_u32(d, 4) as u32,
        thickness: le_u32(d, 8) as u32,
        page_num: le_u32(d, 28) as u32,
        stroke_layer: le_u32(d, 44) as u32,
        stroke_kind: c_string(d.subrange(48, 100)),
        bounding_tl: coord_at(d, 100),
        bounding_mid: coord_at(d, 108),
        bounding_br: coord_at(d, 116),
        screen_width: le_u32(d, 132) as u32,
        screen_height: le_u32(d, 128) as u32,
        points: coords_at(d, ps[2]),
        pressures: u16s_at(d, ps[3]),
        tilts: tilts_at(d, ps[4]),
        stroke_uid: le_u32(d, ps[8] + 8) as u32,
        rotation_degrees: as_i32(le_u32(d, ps[13] + 13)) as i32,
        pixel_width: le_u32(d, ps[15]) as u32,
        pixel_height: le_u32(d, ps[15] + 4) as u32,
    }
}

/// The stroke and the text payload (first sized string) of a stroke
/// record, or the first field that does not fit.
pub open spec fn stroke_spec(d: Seq<u8>) -> Result<(StrokeModel, Seq<u8>), Error> {
    match field_offsets(d, 21) {
        Err(e) => Err(e),
        Ok(ps) => Ok((stroke_at(d, ps), d.subrange(ps[16] + 4, ps[17]))),
    }
}

/// Reads a little-endian `u32` at `*pos` and advances past it.
pub fn read_u32(data: &[u8], pos: &mut usize) -> (r: Result<u32, Error>)
    ensures
        *old(pos) + 4 <= data@.len() ==> r == Ok::<u32, Error>(le_u32(data@, *old(pos) as int) as u32)
            && *final(pos) == *old(pos) + 4,
        *old(pos) + 4 > data@.len() ==> r == Err::<u32, Error>(
            Error::UnexpectedEnd { offset: *old(pos) },
        ) && *final(pos) == *old(pos),
{
    if *pos > data.len() || data.len() - *pos < 4 {
        return Err(Error::UnexpectedEnd { offset: *pos });
    }
    let v = read_le_u32(data, *pos);
    *pos = *pos + 4;
    Ok(v)
}

/// Reads a counted byte string at `*pos` and advances past it.
pub fn read_sized_bytes<'a>(data: &'a [u8], pos: &mut usize) -> (r: Result<&'a [u8], Error>)
    ensures
        match array_end(data@, *old(pos) as int, 1) {
            Ok(end) => r matches Ok(s) && s@ == data@.subrange(*old(pos) + 4, end) && *final(pos)
                == end,
            Err(e) => r == Err::<&[u8], Error>(e),
        },
{
    let start = *pos;
    let len = read_u32(data, pos)? as usize;
    if len > data.len() - *pos {
        return Err(Error::UnexpectedEnd { offset: *pos });
    }
    let s = vstd::slice::slice_subrange(data, *pos, *pos + len);
    *pos = *pos + len;
    Ok(s)
}

/// Skips a counted array of `size`-byte elements at `pos`.
fn skip_array(data: &[u8], pos: usize, size: usize) -> (r: Result<usize, Error>)
    requires
        1 <= size <= 24,
    ensures
        match array_end(data@, pos as int, size as int) {
            Ok(end) => r == Ok::<usize, Error>(end as usize) && pos <= end <= data@.len(),
            Err(e) => r == Err::<usize, Error>(e),
        },
{
    let _len = data.len();
    if pos > data.len() || data.len() - pos < 4 {
        return Err(Error::UnexpectedEnd { offset: pos });
    }
    let count = read_le_u32(data, pos) as usize;
    let start = pos + 4;
    let room = data.len() - start;
    if count > room / size {
        proof {
            assert(count * size > room) by (nonlinear_arith)
                requires
                    count > room / size,
                    size >= 1,
            ;
        }
        return Err(Error::UnexpectedEnd { offset: start });
    }
    proof {
        assert(count * size <= room) by (nonlinear_arith)
            requires
                count <= room / size,
                size >= 1,
        ;
    }
    Ok(start + count * size)
}

/// Where the field `f` at `pos` ends.
fn skip_field(data: &[u8], pos: usize, f: Field) -> (r: Result<usize, Error>)
    requires
        small_field(f),
    ensures
        match field_end(data@, pos as int, f) {
            Ok(end) => r == Ok::<usize, Error>(end as usize) && pos <= end <= data@.len(),
            Err(e) => r == Err::<usize, Error>(e),
        },
{
    let _len = data.len();
    match f {
        Field::Section(size) => {
            if pos > data.len() || data.len() - pos < size {
                return Err(Error::UnexpectedEnd { offset: pos });
            }
            Ok(pos + size)
        },
        Field::Array(size) => skip_array(data, pos, size),
        Field::Chunks(size) => skip_array(data, pos, size),
        Field::Arrays(size) => {
            if pos > data.len() || data.len() - pos < 4 {
                return Err(Error::UnexpectedEnd { offset: pos });
            }
            let count = read_le_u32(data, pos);
            let mut p = pos + 4;
            let mut k: u32 = 0;
            while k < count
                invariant
                    1 <= size <= 24,
                    k <= count,
                    count as nat == le_u32(data@, pos as int),
                    arrays_end(data@, pos + 4, k as nat, size as int) == Ok::<int, Error>(p as int),
                    pos + 4 <= p <= data@.len(),
                    data@.len() <= usize::MAX,
                    f == Field::Arrays(size),
                decreases count - k,
            {
                match skip_array(data, p, size) {
                    Ok(q) => {
                        assert(arrays_end(data@, pos + 4, (k + 1) as nat, size as int) == array_end(data@, p as int, size as int));
                        p = q;
                    },
                    Err(e) => {
                        proof {
                            assert(arrays_end(data@, pos + 4, (k + 1) as nat, size as int) == array_end(data@, p as int, size as int));
                            lemma_arrays_error(data@, pos + 4, (k + 1) as nat, count as nat, size as int);
                            assert(arrays_end(data@, pos + 4, count as nat, size as int) == Err::<int, Error>(e));
                            assert(field_end(data@, pos as int, f) == Err::<int, Error>(e));
                        }
                        return Err(e);
                    },
                }
                k += 1;
            }
            Ok(p)
        },
    }
}

proof fn lemma_arrays_error(d: Seq<u8>, pos: int, n: nat, total: nat, size: int)
    requires
        n <= total,
        arrays_end(d, pos, n, size) is Err,
    ensures
        arrays_end(d, pos, total, size) == arrays_end(d, pos, n, size),
    decreases total - n,
{
    if n < total {
        lemma_arrays_error(d, pos, n, (total - 1) as nat, size);
    }
}

proof fn lemma_offsets_error(d: Seq<u8>, n: nat, total: nat)
    requires
        n <= total,
        field_offsets(d, n) is Err,
    ensures
        field_offsets(d, total) == field_offsets(d, n),
    decreases total - n,
{
    if n < total {
        lemma_offsets_error(d, n, (total - 1) as nat);
    }
}

proof fn lemma_offsets_grow(d: Seq<u8>, n: nat)
    requires
        field_offsets(d, n) is Ok,
    ensures
        field_offsets(d, n)->Ok_0.len() == n + 1,
        field_offsets(d, n)->Ok_0[0] == 0,
        forall|i: int, j: int|
            #![trigger field_offsets(d, n)->Ok_0[i], field_offsets(d, n)->Ok_0[j]]
            0 <= i <= j <= n ==> 0 <= field_offsets(d, n)->Ok_0[i] <= field_offsets(d, n)->Ok_0[j]
                <= d.len(),
    decreases n,
{
    if n > 0 {
        lemma_offsets_grow(d, (n - 1) as nat);
        let ps = field_offsets(d, (n - 1) as nat)->Ok_0;
        lemma_field_end_grows(d, ps.last(), layout_at(n - 1));
    }
}

/// Each field of a record that fits ends where the next one starts.
proof fn lemma_offsets_step(d: Seq<u8>, n: nat, k: int)
    requires
        field_offsets(d, n) is Ok,
        0 <= k < n,
    ensures
        field_offsets(d, n)->Ok_0.len() == n + 1,
        field_end(d, field_offsets(d, n)->Ok_0[k], layout_at(k)) == Ok::<int, Error>(
            field_offsets(d, n)->Ok_0[k + 1],
        ),
    decreases n,
{
    lemma_offsets_grow(d, n);
    lemma_offsets_grow(d, (n - 1) as nat);
    if k < n - 1 {
        lemma_offsets_step(d, (n - 1) as nat, k);
    }
}

proof fn lemma_arrays_grow(d: Seq<u8>, pos: int, n: nat, size: int)
    requires
        size >= 0,
        arrays_end(d, pos, n, size) is Ok,
    ensures
        pos <= arrays_end(d, pos, n, size)->Ok_0,
        n > 0 ==> arrays_end(d, pos, n, size)->Ok_0 <= d.len(),
    decreases n,
{
    if n > 0 {
        lemma_arrays_grow(d, pos, (n - 1) as nat, size);
        let p = arrays_end(d, pos, (n - 1) as nat, size)->Ok_0;
        assert(le_u32(d, p) * size >= 0) by (nonlinear_arith)
            requires
                size >= 0,
        ;
    }
}

proof fn lemma_field_end_grows(d: Seq<u8>, pos: int, f: Field)
    requires
        field_end(d, pos, f) is Ok,
        0 <= pos <= d.len(),
    ensures
        pos <= field_end(d, pos, f)->Ok_0 <= d.len(),
{
    match f {
        Field::Section(s) => {},
        Field::Array(s) => {
            assert(le_u32(d, pos) * s >= 0) by (nonlinear_arith)
                requires
                    s >= 0,
            ;
        },
        Field::Chunks(s) => {
            assert(le_u32(d, pos) * s >= 0) by (nonlinear_arith)
                requires
                    s >= 0,
            ;
        },
        Field::Arrays(s) => {
            lemma_arrays_grow(d, pos + 4, le_u32(d, pos), s as int);
        },
    }
}

/// The start offsets of the fields of a stroke record.
fn field_positions(data: &[u8]) -> (r: Result<Vec<usize>, Error>)
    ensures
        match field_offsets(data@, 21) {
            Ok(ps) => r matches Ok(v) && v@.len() == 22 && forall|i: int|
                0 <= i < 22 ==> #[trigger] v@[i] as int == ps[i],
            Err(e) => r == Err::<Vec<usize>, Error>(e),
        },
{
    let _len = data.len();
    let mut ps: Vec<usize> = Vec::new();
    ps.push(0);
    let mut pos: usize = 0;
    let mut i: usize = 0;
    proof {
        lemma_offsets_grow(data@, 0);
    }
    while i < 21
        invariant
            i <= 21,
            field_offsets(data@, i as nat) is Ok,
            field_offsets(data@, i as nat)->Ok_0.len() == i + 1,
            ps@.len() == i + 1,
            forall|j: int| 0 <= j <= i ==> #[trigger] ps@[j] as int == field_offsets(data@, i as nat)->Ok_0[j],
            pos == ps@[i as int],
            pos <= data@.len(),
            data@.len() <= usize::MAX,
        decreases 21 - i,
    {
        let f = layout_field(i);
        match skip_field(data, pos, f) {
            Ok(end) => {
                ps.push(end);
                pos = end;
                proof {
                    lemma_offsets_grow(data@, (i + 1) as nat);
                }
            },
            Err(e) => {
                proof {
                    lemma_offsets_error(data@, (i + 1) as nat, 21);
                }
                return Err(e);
            },
        }
        i += 1;
    }
    Ok(ps)
}

/// Reads `n` points starting at `at`.
fn read_coords(data: &[u8], pos: usize) -> (v: Vec<ScreenCoord>)
    requires
        pos + 4 + le_u32(data@, pos as int) * 8 <= data@.len(),
    ensures
        v@ == coords_at(data@, pos as int),
{
    let _len = data.len();
    let n = read_le_u32(data, pos) as usize;
    let mut v: Vec<ScreenCoord> = Vec::new();
    let mut i: usize = 0;
    while i < n
        invariant
            n == le_u32(data@, pos as int),
            pos + 4 + n * 8 <= data@.len(),
            data@.len() <= usize::MAX,
            i <= n,
            v@ == coords_at(data@, pos as int).take(i as int),
        decreases n - i,
    {
        let at = pos + 4 + 8 * i;
        v.push(ScreenCoord { y: read_le_i32(data, at), x: read_le_i32(data, at + 4) });
        i += 1;
        assert(v@ =~= coords_at(data@, pos as int).take(i as int));
    }
    assert(v@ =~= coords_at(data@, pos as int));
    v
}

/// Reads the counted `u16` array at `pos`.
fn read_u16s(data: &[u8], pos: usize) -> (v: Vec<u16>)
    requires
        pos + 4 + le_u32(data@, pos as int) * 2 <= data@.len(),
    ensures
        v@ == u16s_at(data@, pos as int),
{
    let _len = data.len();
    let n = read_le_u32(data, pos) as usize;
    let mut v: Vec<u16> = Vec::new();
    let mut i: usize = 0;
    while i < n
        invariant
            n == le_u32(data@, pos as int),
            pos + 4 + n * 2 <= data@.len(),
            data@.len() <= usize::MAX,
            i <= n,
            v@ == u16s_at(data@, pos as int).take(i as int),
        decreases n - i,
    {
        v.push(read_le_u16(data, pos + 4 + 2 * i));
        i += 1;
        assert(v@ =~= u16s_at(data@, pos as int).take(i as int));
    }
    assert(v@ =~= u16s_at(data@, pos as int));
    v
}

/// Reads the counted tilt array at `pos`.
fn read_tilts(data: &[u8], pos: usize) -> (v: Vec<TiltVector>)
    requires
        pos + 4 + le_u32(data@, pos as int) * 4 <= data@.len(),
    ensures
        v@ == tilts_at(data@, pos as int),
{
    let _len = data.len();
    let n = read_le_u32(data, pos) as usize;
    let mut v: Vec<TiltVector> = Vec::new();
    let mut i: usize = 0;
    while i < n
        invariant
            n == le_u32(data@, pos as int),
            pos + 4 + n * 4 <= data@.len(),
            data@.len() <= usize::MAX,
            i <= n,
            v@ == tilts_at(data@, pos as int).take(i as int),
        decreases n - i,
    {
        let at = pos + 4 + 4 * i;
        v.push(TiltVector { y: read_le_i16(data, at), x: read_le_i16(data, at + 2) });
        i += 1;
        assert(v@ =~= tilts_at(data@, pos as int).take(i as int));
    }
    assert(v@ =~= tilts_at(data@, pos as int));
    v
}

/// Parses one stroke record: the stroke, and the payload of its first
/// sized string (the text of a text box when the pen is 0).
pub fn parse_single_stroke(data: &[u8]) -> (r: Result<(Stroke, Vec<u8>), Error>)
    ensures
        match stroke_spec(data@) {
            Ok((s, t)) => r matches Ok((st, tv)) && st@ == s && tv@ == t,
            Err(e) => r matches Err(e2) && e2 == e,
        },
{
    let _len = data.len();
    let ps = field_positions(data)?;
    let ghost gps = field_offsets(data@, 21)->Ok_0;
    proof {
        lemma_offsets_grow(data@, 21);
        lemma_offsets_step(data@, 21, 0);
        lemma_offsets_step(data@, 21, 2);
        lemma_offsets_step(data@, 21, 3);
        lemma_offsets_step(data@, 21, 4);
        lemma_offsets_step(data@, 21, 8);
        lemma_offsets_step(data@, 21, 13);
        lemma_offsets_step(data@, 21, 15);
        lemma_offsets_step(data@, 21, 16);
        assert(gps[1] == 208);
    }
    let stroke_kind = extract_c_string(vstd::slice::slice_subrange(data, 48, 100));
    let points = read_coords(data, ps[2]);
    let pressures = read_u16s(data, ps[3]);
    let tilts = read_tilts(data, ps[4]);
    let text_start = ps[16] + 4;
    let text_end = ps[17];
    let text = vstd::slice::slice_to_vec(vstd::slice::slice_subrange(data, text_start, text_end));
    let s = Stroke {
        pen: read_le_u32(data, 0),
        color: read_le_u32(data, 4),
        thickness: read_le_u32(data, 8),
        page_num: read_le_u32(data, 28),
        stroke_layer: read_le_u32(data, 44),
        stroke_kind,
        bounding_tl: ScreenCoord { y: read_le_i32(data, 100), x: read_le_i32(data, 104) },
        bounding_mid: ScreenCoord { y: read_le_i32(data, 108), x: read_le_i32(data, 112) },
        bounding_br: ScreenCoord { y: read_le_i32(data, 116), x: read_le_i32(data, 120) },
        screen_width: read_le_u32(data, 132),
        screen_height: read_le_u32(data, 128),
        points,
        pressures,
        tilts,
        stroke_uid: read_le_u32(data, ps[8] + 8),
        rotation_degrees: read_le_i32(data, ps[13] + 13),
        pixel_width: read_le_u32(data, ps[15]),
        pixel_height: read_le_u32(data, ps[15] + 4),
    };
    Ok((s, text))
}

/// A text box placed on a page.
#[derive(Debug, PartialEq)]
pub struct TextBox {
    /// The text.
    pub content: String,
    /// (x, y, w, h) in pixel coordinates.
    pub rect: (u32, u32, u32, u32),
    /// The font size as the record writes it, unconverted (normally a
    /// decimal number of points).
    pub font_size: String,
    /// The device font path.
    pub font_path: String,
    /// Whether the text is italic.
    pub italic: bool,
    /// The creation time.
    pub datetime: String,
    /// The layer the text box belongs to.
    pub stroke_layer: u32,
}

/// What a text box holds, over plain values.
pub struct TextBoxModel {
    pub content: Seq<char>,
    pub rect: (u32, u32, u32, u32),
    pub font_size: Seq<char>,
    pub font_path: Seq<char>,
    pub italic: bool,
    pub datetime: Seq<char>,
    pub stroke_layer: u32,
}

impl View for TextBox {
    type V = TextBoxModel;

    open spec fn view(&self) -> TextBoxModel {
        TextBoxModel {
            content: self.content@,
            rect: self.rect,
            font_size: self.font_size@,
            font_path: self.font_path@,
            italic: self.italic,
            datetime: self.datetime@,
            stroke_layer: self.stroke_layer,
        }
    }
}

/// Names what the base64 STANDARD engine (padded, canonical) decodes a
/// byte string to, or `None` when it rejects it.
pub uninterp spec fn base64_standard_decode(input: Seq<u8>) -> Option<Seq<u8>>;

/// Calls `base64::engine::general_purpose::STANDARD.decode`.  Its result
/// is named [`base64_standard_decode`]; nothing more is stated of it.
#[verifier::external_body]
fn base64_decode(input: &[u8]) -> (r: Option<Vec<u8>>)
    ensures
        match r {
            Some(v) => base64_standard_decode(input@) == Some(v@),
            None => base64_standard_decode(input@) is None,
        },
{
    base64::engine::general_purpose::STANDARD.decode(input).ok()
}

/// The text that decoded field bytes stand for: the bytes read as UTF-8,
/// or nothing when decoding failed or they are not UTF-8.
pub open spec fn decoded_text(decoded: Option<Seq<u8>>) -> Seq<char> {
    match decoded {
        Some(b) => if valid_utf8(b) {
            decode_utf8(b)
        } else {
            Seq::empty()
        },
        None => Seq::empty(),
    }
}

/// The text of one comma-separated field of a text block: the base64 of
/// a UTF-8 string, surrounded by white space; empty when it is blank or
/// does not decode.
pub open spec fn field_text(s: Seq<char>) -> Seq<char> {
    let t = trim(s);
    if t.len() == 0 {
        Seq::empty()
    } else {
        decoded_text(base64_standard_decode(encode_utf8(t)))
    }
}

/// The text of a field from the result of its base64 decoding.
pub fn text_of_decoded(decoded: Option<Vec<u8>>) -> (r: String)
    ensures
        r@ == decoded_text(
            match decoded {
                Some(v) => Some(v@),
                None => None,
            },
        ),
{
    match decoded {
        Some(b) => match str_from_utf8(b.as_slice()) {
            Ok(x) => String::from_str(x),
            Err(_) => String::new(),
        },
        None => String::new(),
    }
}

/// Decodes one field of a text block.
pub fn decode_text_field(s: &str) -> (r: String)
    ensures
        r@ == field_text(s@),
{
    let t = trim_str(s);
    if t.as_str().is_empty() {
        return String::new();
    }
    let bytes = t.as_str().as_bytes();
    text_of_decoded(base64_decode(bytes))
}

/// The pieces of `s` that read as `u32` numbers, in order.
pub open spec fn numbers_in(pieces: Seq<Seq<char>>) -> Seq<nat>
    decreases pieces.len(),
{
    if pieces.len() == 0 {
        Seq::empty()
    } else {
        let rest = numbers_in(pieces.drop_last());
        match parse_uint(pieces.last(), u32::MAX as nat) {
            Some(n) => rest.push(n),
            None => rest,
        }
    }
}

/// The rectangle `x,y,w,h` of a text box; zeros when fewer than four of
/// the comma-separated pieces are numbers.
pub open spec fn rect_of(s: Seq<char>) -> (u32, u32, u32, u32) {
    let nums = numbers_in(split_on(s, ','));
    if nums.len() >= 4 {
        (nums[0] as u32, nums[1] as u32, nums[2] as u32, nums[3] as u32)
    } else {
        (0, 0, 0, 0)
    }
}

/// Whether the transformation field (the 14th) marks the text italic: its
/// 9th comma-separated piece is `1`.
pub open spec fn italic_of(fields: Seq<Seq<char>>) -> bool {
    fields.len() > 13 && split_on(fields[13], ',').len() > 8 && trim(split_on(fields[13], ',')[8])
        == "1"@
}

/// The text box that the decoded fields of a text block describe: none
/// for fewer than 13 fields, for a title (style field other than `0`), or
/// for empty or `none` content.
pub open spec fn text_box_of(fields: Seq<Seq<char>>, stroke_layer: u32) -> Option<TextBoxModel> {
    if fields.len() < 13 {
        None
    } else if fields[2] != "0"@ {
        None
    } else if fields[12].len() == 0 || fields[12] == "none"@ {
        None
    } else {
        Some(
            TextBoxModel {
                content: fields[12],
                rect: rect_of(fields[4]),
                font_size: fields[10],
                font_path: fields[11],
                italic: italic_of(fields),
                datetime: fields[3],
                stroke_layer,
            },
        )
    }
}

/// The text box of a text block: comma-separated base64 fields.
pub open spec fn text_block_spec(data: Seq<u8>, stroke_layer: u32) -> Option<TextBoxModel> {
    if !valid_utf8(data) {
        None
    } else {
        text_box_of(
            split_on(decode_utf8(data), ',').map_values(|f: Seq<char>| field_text(f)),
            stroke_layer,
        )
    }
}

/// Reads the rectangle of a text box.
fn parse_rect(s: &str) -> (r: (u32, u32, u32, u32))
    ensures
        r == rect_of(s@),
{
    let pieces = split_str(s, ',');
    let ghost ps = pieces@.map_values(|x: String| x@);
    let mut nums: Vec<u32> = Vec::new();
    let mut i: usize = 0;
    while i < pieces.len()
        invariant
            i <= pieces@.len(),
            ps == pieces@.map_values(|x: String| x@),
            ps == split_on(s@, ','),
            nums@.map_values(|n: u32| n as nat) == numbers_in(ps.take(i as int)),
        decreases pieces@.len() - i,
    {
        assert(ps.take(i as int + 1).drop_last() =~= ps.take(i as int));
        assert(ps.take(i as int + 1).last() == pieces@[i as int]@);
        match crate::text::parse_uint_str(pieces[i].as_str(), u32::MAX as u64) {
            Some(n) => {
                let ghost old_nums = nums@;
                nums.push(n as u32);
                assert(nums@.map_values(|n: u32| n as nat) =~= old_nums.map_values(|n: u32| n as nat).push(n as nat));
            },
            None => {},
        }
        i += 1;
    }
    assert(ps.take(i as int) =~= ps);
    if nums.len() >= 4 {
        assert(nums@.map_values(|n: u32| n as nat)[0] == nums@[0] as nat);
        assert(nums@.map_values(|n: u32| n as nat)[1] == nums@[1] as nat);
        assert(nums@.map_values(|n: u32| n as nat)[2] == nums@[2] as nat);
        assert(nums@.map_values(|n: u32| n as nat)[3] == nums@[3] as nat);
        (nums[0], nums[1], nums[2], nums[3])
    } else {
        (0, 0, 0, 0)
    }
}

/// Builds a text box from the decoded fields of a text block.
pub fn text_box_from_fields(fields: &Vec<String>, stroke_layer: u32) -> (r: Option<TextBox>)
    ensures
        ({
            let fs = fields@.map_values(|x: String| x@);
            match text_box_of(fs, stroke_layer) {
                Some(m) => r matches Some(tb) && tb@ == m,
                None => r is None,
            }
        }),
{
    let ghost fs = fields@.map_values(|x: String| x@);
    if fields.len() < 13 {
        return None;
    }
    assert(fs[2] == fields@[2]@ && fs[12] == fields@[12]@ && fs[4] == fields@[4]@);
    assert(fs[3] == fields@[3]@ && fs[10] == fields@[10]@ && fs[11] == fields@[11]@);
    if !str_eq(fields[2].as_str(), "0") {
        return None;
    }
    let content = &fields[12];
    if content.as_str().is_empty() || str_eq(content.as_str(), "none") {
        return None;
    }
    let rect = parse_rect(fields[4].as_str());
    let mut italic = false;
    if fields.len() > 13 {
        assert(fs[13] == fields@[13]@);
        let parts = split_str(fields[13].as_str(), ',');
        if parts.len() > 8 {
            assert(parts@.map_values(|x: String| x@)[8] == parts@[8]@);
            let t = trim_str(parts[8].as_str());
            italic = str_eq(t.as_str(), "1");
        }
    }
    Some(
        TextBox {
            content: content.clone(),
            rect,
            font_size: fields[10].clone(),
            font_path: fields[11].clone(),
            italic,
            datetime: fields[3].clone(),
            stroke_layer,
        },
    )
}

/// Parses the text block of a pen-0 stroke into a text box.
pub fn parse_text_block(data: &[u8], stroke_layer: u32) -> (r: Option<TextBox>)
    ensures
        match text_block_spec(data@, stroke_layer) {
            Some(m) => r matches Some(tb) && tb@ == m,
            None => r is None,
        },
{
    let ascii = match str_from_utf8(data) {
        Ok(s) => s,
        Err(_) => return None,
    };
    let pieces = split_str(ascii, ',');
    let ghost ps = pieces@.map_values(|x: String| x@);
    let mut fields: Vec<String> = Vec::new();
    let mut i: usize = 0;
    while i < pieces.len()
        invariant
            i <= pieces@.len(),
            ps == pieces@.map_values(|x: String| x@),
            fields@.map_values(|x: String| x@) == ps.take(i as int).map_values(|f: Seq<char>| field_text(f)),
        decreases pieces@.len() - i,
    {
        let f = decode_text_field(pieces[i].as_str());
        let ghost old_fields = fields@;
        fields.push(f);
        assert(ps[i as int] == pieces@[i as int]@);
        assert(fields@.map_values(|x: String| x@) =~= old_fields.map_values(|x: String| x@).push(field_text(ps[i as int])));
        assert(ps.take(i as int + 1).map_values(|f: Seq<char>| field_text(f)) =~= ps.take(i as int).map_values(|f: Seq<char>| field_text(f)).push(field_text(ps[i as int])));
        i += 1;
        assert(fields@.map_values(|x: String| x@) =~= ps.take(i as int).map_values(|f: Seq<char>| field_text(f)));
    }
    assert(ps.take(i as int) =~= ps);
    text_box_from_fields(&fields, stroke_layer)
}

/// Strokes and text boxes after the first `k` records of a TOTALPATH blob,
/// with the offset of the next record, or the first record that fails.
/// A pen-0 record whose text block describes a text box becomes that text
/// box; every other record is a stroke.
pub open spec fn totalpath_prefix(d: Seq<u8>, k: nat) -> Result<(int, Seq<StrokeModel>, Seq<TextBoxModel>), Error>
    decreases k,
{
    if k == 0 {
        Ok((4, Seq::empty(), Seq::empty()))
    } else {
        match totalpath_prefix(d, (k - 1) as nat) {
            Err(e) => Err(e),
            Ok((pos, ss, ts)) => if pos + 4 > d.len() {
                Err(Error::UnexpectedEnd { offset: pos as usize })
            } else if pos + 4 + le_u32(d, pos) > d.len() {
                Err(Error::StrokeTooLong { index: (k - 1) as u32, size: le_u32(d, pos) as u32 })
            } else {
                let start = pos + 4;
                let end = pos + 4 + le_u32(d, pos);
                match stroke_spec(d.subrange(start, end)) {
                    Err(e) => Err(e),
                    Ok((s, t)) => if s.pen == 0 && t.len() > 0 && text_block_spec(t, s.stroke_layer) is Some {
                        Ok((end, ss, ts.push(text_block_spec(t, s.stroke_layer)->0)))
                    } else {
                        Ok((end, ss.push(s), ts))
                    },
                }
            },
        }
    }
}

/// The strokes and text boxes of a TOTALPATH blob: a `u32` record count,
/// then each record as a `u32` size and that many bytes.
pub open spec fn totalpath_spec(d: Seq<u8>) -> Result<(Seq<StrokeModel>, Seq<TextBoxModel>), Error> {
    if d.len() < 4 {
        Err(Error::UnexpectedEnd { offset: 0 })
    } else {
        match totalpath_prefix(d, le_u32(d, 0)) {
            Err(e) => Err(e),
            Ok((_, ss, ts)) => Ok((ss, ts)),
        }
    }
}

proof fn lemma_totalpath_error(d: Seq<u8>, k: nat, total: nat)
    requires
        k <= total,
        totalpath_prefix(d, k) is Err,
    ensures
        totalpath_prefix(d, total) == totalpath_prefix(d, k),
    decreases total - k,
{
    if k < total {
        lemma_totalpath_error(d, k, (total - 1) as nat);
    }
}

proof fn lemma_totalpath_count(d: Seq<u8>, k: nat)
    ensures
        totalpath_prefix(d, k) matches Ok((_, ss, ts)) ==> ss.len() + ts.len() == k,
    decreases k,
{
    if k > 0 {
        lemma_totalpath_count(d, (k - 1) as nat);
    }
}

/// Every record of a TOTALPATH blob that parses is kept: the strokes and
/// the text boxes together are as many as the count at its start.
pub proof fn law_every_record_kept(d: Seq<u8>)
    ensures
        totalpath_spec(d) matches Ok((ss, ts)) ==> ss.len() + ts.len() == le_u32(d, 0),
{
    if d.len() >= 4 {
        lemma_totalpath_count(d, le_u32(d, 0));
    }
}

/// The records written one after another, each after its size in four
/// little-endian bytes.
pub open spec fn records_text(records: Seq<Seq<u8>>) -> Seq<u8>
    decreases records.len(),
{
    if records.len() == 0 {
        Seq::empty()
    } else {
        records_text(records.drop_last()) + le_bytes(records.last().len()) + records.last()
    }
}

/// A TOTALPATH blob written from its records: their count, then the records.
pub open spec fn totalpath_text(records: Seq<Seq<u8>>) -> Seq<u8> {
    le_bytes(records.len()) + records_text(records)
}

/// What the first `k` records make, each on its own: a pen-0 record whose
/// text block describes a text box becomes that text box, any other
/// record a stroke; or the first record that does not parse.
pub open spec fn record_outcomes(records: Seq<Seq<u8>>, k: nat) -> Result<(Seq<StrokeModel>, Seq<TextBoxModel>), Error>
    decreases k,
{
    if k == 0 {
        Ok((Seq::empty(), Seq::empty()))
    } else {
        match record_outcomes(records, (k - 1) as nat) {
            Err(e) => Err(e),
            Ok((ss, ts)) => match stroke_spec(records[k - 1]) {
                Err(e) => Err(e),
                Ok((s, t)) => if s.pen == 0 && t.len() > 0 && text_block_spec(t, s.stroke_layer) is Some {
                    Ok((ss, ts.push(text_block_spec(t, s.stroke_layer)->0)))
                } else {
                    Ok((ss.push(s), ts))
                },
            },
        }
    }
}

proof fn lemma_records_text_concat(a: Seq<Seq<u8>>, b: Seq<Seq<u8>>)
    ensures
        records_text(a + b) == records_text(a) + records_text(b),
    decreases b.len(),
{
    if b.len() == 0 {
        assert(a + b =~= a);
        assert(records_text(a) + records_text(b) =~= records_text(a));
    } else {
        lemma_records_text_concat(a, b.drop_last());
        assert((a + b).drop_last() =~= a + b.drop_last());
        assert((a + b).last() == b.last());
        assert(records_text(a + b) =~= records_text(a) + records_text(b));
    }
}

/// Record `k - 1` of a written blob sits, after its size, right where
/// the records before it end.
proof fn lemma_record_frame(records: Seq<Seq<u8>>, k: nat)
    requires
        1 <= k <= records.len(),
        records.len() <= u32::MAX,
        forall|i: int| 0 <= i < records.len() ==> #[trigger] records[i].len() <= u32::MAX,
    ensures
        ({
            let d = totalpath_text(records);
            let pos = 4 + records_text(records.take(k - 1)).len() as int;
            let len = records[k - 1].len() as int;
            &&& pos + 4 <= d.len()
            &&& le_u32(d, pos) == len
            &&& pos + 4 + len <= d.len()
            &&& d.subrange(pos + 4, pos + 4 + len) == records[k - 1]
            &&& 4 + records_text(records.take(k as int)).len() == pos + 4 + len
        }),
{
    let d = totalpath_text(records);
    let rec = records[k - 1];
    assert(rec.len() <= u32::MAX);
    let before = records.take(k - 1);
    let after = records.skip(k as int);
    assert(records.take(k as int).drop_last() =~= before);
    assert(records =~= records.take(k as int) + after);
    lemma_records_text_concat(records.take(k as int), after);
    let pre = le_bytes(records.len()) + records_text(before);
    assert(d =~= pre + le_bytes(rec.len()) + rec + records_text(after));
    law_block_frame_read_back(pre, rec, records_text(after));
}

proof fn lemma_totalpath_read_back(records: Seq<Seq<u8>>, k: nat)
    requires
        k <= records.len(),
        records.len() <= u32::MAX,
        forall|i: int| 0 <= i < records.len() ==> #[trigger] records[i].len() <= u32::MAX,
    ensures
        totalpath_prefix(totalpath_text(records), k) == match record_outcomes(records, k) {
            Ok((ss, ts)) => Ok::<(int, Seq<StrokeModel>, Seq<TextBoxModel>), Error>(
                (4 + records_text(records.take(k as int)).len() as int, ss, ts),
            ),
            Err(e) => Err::<(int, Seq<StrokeModel>, Seq<TextBoxModel>), Error>(e),
        },
    decreases k,
{
    if k == 0 {
        assert(records.take(0) =~= Seq::<Seq<u8>>::empty());
    } else {
        lemma_totalpath_read_back(records, (k - 1) as nat);
        lemma_record_frame(records, k);
    }
}

/// Records written as a TOTALPATH blob (their count, then each record
/// after its size) read back one by one: the blob gives what each record
/// gives on its own.
pub proof fn law_totalpath_read_back(records: Seq<Seq<u8>>)
    requires
        records.len() <= u32::MAX,
        forall|i: int| 0 <= i < records.len() ==> #[trigger] records[i].len() <= u32::MAX,
    ensures
        totalpath_spec(totalpath_text(records)) == record_outcomes(records, records.len()),
{
    let d = totalpath_text(records);
    lemma_le_bytes_read_back(Seq::empty(), records.len(), records_text(records));
    assert(Seq::<u8>::empty() + le_bytes(records.len()) + records_text(records) =~= d);
    lemma_totalpath_read_back(records, records.len());
}

/// Parses a TOTALPATH blob (without its length prefix) into strokes and text boxes.
#[verifier::loop_isolation(false)]
pub fn parse_totalpath(data: &[u8]) -> (r: Result<(Vec<Stroke>, Vec<TextBox>), Error>)
    ensures
        match totalpath_spec(data@) {
            Ok((ss, ts)) => r matches Ok((sv, tv)) && sv@.map_values(|x: Stroke| x@) == ss
                && tv@.map_values(|x: TextBox| x@) == ts,
            Err(e) => r matches Err(e2) && e2 == e,
        },
{
    let _len = data.len();
    let mut pos: usize = 0;
    let stroke_count = read_u32(data, &mut pos)?;
    let mut strokes: Vec<Stroke> = Vec::new();
    let mut text_boxes: Vec<TextBox> = Vec::new();
    let mut i: u32 = 0;
    while i < stroke_count
        invariant
            i <= stroke_count,
            stroke_count == le_u32(data@, 0),
            data@.len() >= 4,
            data@.len() <= usize::MAX,
            ({
                let p = totalpath_prefix(data@, i as nat);
                &&& p is Ok
                &&& p->Ok_0.0 == pos as int
                &&& p->Ok_0.1 == strokes@.map_values(|x: Stroke| x@)
                &&& p->Ok_0.2 == text_boxes@.map_values(|x: TextBox| x@)
            }),
            pos <= data@.len(),
        decreases stroke_count - i,
    {
        let stroke_size = match read_u32(data, &mut pos) {
            Ok(v) => v,
            Err(e) => {
                proof {
                    lemma_totalpath_error(data@, (i + 1) as nat, stroke_count as nat);
                }
                return Err(e);
            },
        };
        if stroke_size as usize > data.len() - pos {
            proof {
                lemma_totalpath_error(data@, (i + 1) as nat, stroke_count as nat);
            }
            return Err(Error::StrokeTooLong { index: i, size: stroke_size });
        }
        let stroke_end = pos + stroke_size as usize;
        let (stroke, text_data) = match parse_single_stroke(vstd::slice::slice_subrange(data, pos, stroke_end)) {
            Ok(x) => x,
            Err(e) => {
                proof {
                    lemma_totalpath_error(data@, (i + 1) as nat, stroke_count as nat);
                }
                return Err(e);
            },
        };
        let ghost old_strokes = strokes@;
        let ghost old_boxes = text_boxes@;
        let mut is_box = false;
        if stroke.pen == 0 && text_data.len() > 0 {
            if let Some(tb) = parse_text_block(text_data.as_slice(), stroke.stroke_layer) {
                text_boxes.push(tb);
                is_box = true;
            }
        }
        if !is_box {
            strokes.push(stroke);
        }
        proof {
            assert(strokes@.map_values(|x: Stroke| x@) =~= (if is_box { old_strokes.map_values(|x: Stroke| x@) } else { old_strokes.map_values(|x: Stroke| x@).push(stroke@) }));
            assert(text_boxes@.map_values(|x: TextBox| x@) =~= (if is_box { old_boxes.map_values(|x: TextBox| x@).push(text_block_spec(text_data@, stroke.stroke_layer)->0) } else { old_boxes.map_values(|x: TextBox| x@) }));
        }
        pos = stroke_end;
        i += 1;
    }
    Ok((strokes, text_boxes))
}

} // verus!
