use vstd::prelude::*;

use crate::error::Error;

verus! {

/// Grayscale value of an RLE colour code.
///
/// X-series (`highres == false`): 0x61 black, 0x62 transparent, 0x63 dark gray,
/// 0x64 gray, 0x65 white, 0x66 marker black, 0x67 marker dark gray,
/// 0x68 marker gray.  X2-series (`highres == true`): 0x63/0x64 are the
/// compatibility grays 0x30/0x50, 0x9D/0x9E are dark gray, 0xC9/0xCA gray,
/// and 0x67/0x68 are literal intensities.  Any other code is its own value.
pub open spec fn color_of(code: u8, highres: bool) -> u8 {
    if highres {
        if code == 0x61 { 0x00 }
        else if code == 0x62 { 0xFF }
        else if code == 0x63 { 0x30 }
        else if code == 0x64 { 0x50 }
        else if code == 0x65 { 0xFE }
        else if code == 0x66 { 0x00 }
        else if code == 0x9E { 0x9D }
        else if code == 0xCA { 0xC9 }
        else { code }
    } else {
        if code == 0x61 { 0x00 }
        else if code == 0x62 { 0xFF }
        else if code == 0x63 { 0x9D }
        else if code == 0x64 { 0xC9 }
        else if code == 0x65 { 0xFE }
        else if code == 0x66 { 0x00 }
        else if code == 0x67 { 0x9D }
        else if code == 0x68 { 0xC9 }
        else { code }
    }
}

/// `n` pixels of the value `c`.
pub open spec fn run(c: u8, n: nat) -> Seq<u8> {
    Seq::new(n, |_i: int| c)
}

/// The length of a run whose first length byte has its high bit set,
/// when it is not merged with the following pair.
pub open spec fn held_run_len(len: u8) -> nat {
    ((len % 128) as nat + 1) * 128
}

/// The length of a run that continues over two pairs of the same colour.
pub open spec fn merged_run_len(held_len: u8, len: u8) -> nat {
    1 + len as nat + held_run_len(held_len)
}

/// The length of the 0xFF marker run.
pub open spec fn marker_run_len(all_blank: bool) -> nat {
    if all_blank { 0x400 } else { 0x4000 }
}

/// What one `(code, length)` pair does when no run is held back:
/// 0xFF is the marker run, a set high bit holds the pair back for the
/// next one, anything else is a run of `length + 1` pixels.
pub open spec fn step_fresh(out: Seq<u8>, cc: u8, len: u8, all_blank: bool, highres: bool)
    -> (Seq<u8>, Option<(u8, u8)>)
{
    if len == 0xFF {
        (out + run(color_of(cc, highres), marker_run_len(all_blank)), None)
    } else if len >= 0x80 {
        (out, Some((cc, len)))
    } else {
        (out + run(color_of(cc, highres), len as nat + 1), None)
    }
}

/// The pixels emitted and the pair held back after the first `k` pairs of `data`.
pub open spec fn decode_prefix(data: Seq<u8>, k: nat, all_blank: bool, highres: bool)
    -> (Seq<u8>, Option<(u8, u8)>)
    decreases k,
{
    if k == 0 {
        (Seq::empty(), None)
    } else {
        let (out, held) = decode_prefix(data, (k - 1) as nat, all_blank, highres);
        let cc = data[2 * (k - 1)];
        let len = data[2 * (k - 1) + 1];
        match held {
            Some((hc, hl)) => if cc == hc {
                (out + run(color_of(hc, highres), merged_run_len(hl, len)), None)
            } else {
                step_fresh(out + run(color_of(hc, highres), held_run_len(hl)), cc, len, all_blank, highres)
            },
            None => step_fresh(out, cc, len, all_blank, highres),
        }
    }
}

/// Length of a run held back at the end of the stream: the largest of
/// `(len % 128 + 1) << i`, `i` from 7 down to 0, that fits in what is
/// still missing of the page, or 0.
pub open spec fn tail_len(len: u8, current: nat, total: nat) -> nat {
    let b = (len % 128) as nat + 1;
    let gap: nat = if total > current { (total - current) as nat } else { 0 };
    if b * 128 <= gap { b * 128 }
    else if b * 64 <= gap { b * 64 }
    else if b * 32 <= gap { b * 32 }
    else if b * 16 <= gap { b * 16 }
    else if b * 8 <= gap { b * 8 }
    else if b * 4 <= gap { b * 4 }
    else if b * 2 <= gap { b * 2 }
    else if b <= gap { b }
    else { 0 }
}

/// The pixels that a RATTA_RLE stream decodes to, before the pixel count
/// is checked: the pairs of `data` in order (an odd last byte is ignored),
/// then any run still held back, cut to fit the page.
pub open spec fn rle_pixels(data: Seq<u8>, expected: nat, all_blank: bool, highres: bool) -> Seq<u8> {
    let (out, held) = decode_prefix(data, data.len() / 2, all_blank, highres);
    match held {
        Some((hc, hl)) => out + run(color_of(hc, highres), tail_len(hl, out.len(), expected)),
        None => out,
    }
}

/// The colour code of pair `k`.
pub open spec fn pair_code(data: Seq<u8>, k: int) -> u8 {
    data[2 * k]
}

/// The length byte of pair `k`.
pub open spec fn pair_len(data: Seq<u8>, k: int) -> u8 {
    data[2 * k + 1]
}

/// The first `k` pairs of `data` read as plain runs of `length + 1`
/// pixels, one after another.
pub open spec fn plain_runs(data: Seq<u8>, k: nat, highres: bool) -> Seq<u8>
    decreases k,
{
    if k == 0 {
        Seq::empty()
    } else {
        plain_runs(data, (k - 1) as nat, highres) + run(
            color_of(pair_code(data, k - 1), highres),
            pair_len(data, k - 1) as nat + 1,
        )
    }
}

proof fn lemma_plain_prefix(data: Seq<u8>, k: nat, all_blank: bool, highres: bool)
    requires
        k <= data.len() / 2,
        forall|i: int| 0 <= i < data.len() / 2 ==> #[trigger] pair_len(data, i) < 0x80,
    ensures
        decode_prefix(data, k, all_blank, highres) == (plain_runs(data, k, highres), None::<(u8, u8)>),
    decreases k,
{
    if k > 0 {
        lemma_plain_prefix(data, (k - 1) as nat, all_blank, highres);
        assert(pair_len(data, k - 1) < 0x80);
    }
}

/// A stream whose length bytes all stay below 0x80 decodes to its runs
/// of `length + 1` pixels, one after another.
pub proof fn law_plain_runs(data: Seq<u8>, expected: nat, all_blank: bool, highres: bool)
    requires
        forall|i: int| 0 <= i < data.len() / 2 ==> #[trigger] pair_len(data, i) < 0x80,
    ensures
        rle_pixels(data, expected, all_blank, highres) == plain_runs(data, data.len() / 2, highres),
{
    lemma_plain_prefix(data, data.len() / 2, all_blank, highres);
}

/// The X-series palette: a run of `n + 1` pixels (`n < 0x80`) of a colour
/// code decodes to that many pixels of the code's documented gray: 0x61
/// and 0x66 (marker) black 0x00, 0x62 transparent 0xFF, 0x63 and 0x67
/// (marker) dark gray 0x9D, 0x64 and 0x68 (marker) gray 0xC9, 0x65 white
/// 0xFE; any other code is its own value.
pub proof fn law_x_series_palette(cc: u8, n: u8, all_blank: bool)
    requires
        n < 0x80,
    ensures
        ({
            let px = rle_pixels(seq![cc, n], n as nat + 1, all_blank, false);
            let gray: u8 = if cc == 0x61 || cc == 0x66 {
                0x00
            } else if cc == 0x62 {
                0xFF
            } else if cc == 0x63 || cc == 0x67 {
                0x9D
            } else if cc == 0x64 || cc == 0x68 {
                0xC9
            } else if cc == 0x65 {
                0xFE
            } else {
                cc
            };
            &&& px.len() == n as nat + 1
            &&& forall|i: int| 0 <= i < px.len() ==> px[i] == gray
        }),
{
    let data = seq![cc, n];
    assert(pair_len(data, 0) == n);
    law_plain_runs(data, n as nat + 1, all_blank, false);
    assert(plain_runs(data, 0, false) =~= Seq::<u8>::empty());
    assert(plain_runs(data, 1, false) =~= run(color_of(cc, false), n as nat + 1));
}

/// The X2-series palette: a run of `n + 1` pixels (`n < 0x80`) of a
/// colour code decodes to that many pixels of the code's documented gray:
/// 0x61 and 0x66 (marker) black 0x00, 0x62 transparent 0xFF, 0x63
/// compatibility dark gray 0x30, 0x64 compatibility gray 0x50, 0x65 white
/// 0xFE, 0x9E (marker) dark gray 0x9D, 0xCA (marker) gray 0xC9; any other
/// code is a literal intensity.
pub proof fn law_x2_series_palette(cc: u8, n: u8, all_blank: bool)
    requires
        n < 0x80,
    ensures
        ({
            let px = rle_pixels(seq![cc, n], n as nat + 1, all_blank, true);
            let gray: u8 = if cc == 0x61 || cc == 0x66 {
                0x00
            } else if cc == 0x62 {
                0xFF
            } else if cc == 0x63 {
                0x30
            } else if cc == 0x64 {
                0x50
            } else if cc == 0x65 {
                0xFE
            } else if cc == 0x9E {
                0x9D
            } else if cc == 0xCA {
                0xC9
            } else {
                cc
            };
            &&& px.len() == n as nat + 1
            &&& forall|i: int| 0 <= i < px.len() ==> px[i] == gray
        }),
{
    let data = seq![cc, n];
    assert(pair_len(data, 0) == n);
    law_plain_runs(data, n as nat + 1, all_blank, true);
    assert(plain_runs(data, 0, true) =~= Seq::<u8>::empty());
    assert(plain_runs(data, 1, true) =~= run(color_of(cc, true), n as nat + 1));
}

/// The gray of a one-pixel run of `cc`.
pub open spec fn one_pixel(cc: u8, all_blank: bool, highres: bool) -> u8 {
    rle_pixels(seq![cc, 0u8], 1, all_blank, highres)[0]
}

proof fn lemma_one_pixel(cc: u8, all_blank: bool, highres: bool)
    ensures
        rle_pixels(seq![cc, 0u8], 1, all_blank, highres) == run(color_of(cc, highres), 1),
{
    let data = seq![cc, 0u8];
    assert(decode_prefix(data, 0, all_blank, highres) == (Seq::<u8>::empty(), None::<(u8, u8)>));
    assert(Seq::<u8>::empty() + run(color_of(cc, highres), 1) =~= run(color_of(cc, highres), 1));
}

/// The marker: a length byte of 0xFF is a run of 16384 pixels of the
/// code's gray, or of 1024 pixels when the all-blank hint is set.
pub proof fn law_marker_run(cc: u8, expected: nat, all_blank: bool, highres: bool)
    ensures
        ({
            let px = rle_pixels(seq![cc, 0xFFu8], expected, all_blank, highres);
            &&& px.len() == if all_blank { 1024nat } else { 16384nat }
            &&& forall|i: int| 0 <= i < px.len() ==> px[i] == one_pixel(cc, all_blank, highres)
        }),
{
    let data = seq![cc, 0xFFu8];
    lemma_one_pixel(cc, all_blank, highres);
    assert(decode_prefix(data, 0, all_blank, highres) == (Seq::<u8>::empty(), None::<(u8, u8)>));
    assert(data[1] == 0xFFu8);
}

/// A length byte with bit 7 set (other than 0xFF) holds its run back; a
/// next pair of the same code continues it, to `1 + length2 +
/// ((length & 0x7F) + 1) * 128` pixels of the code's gray.
pub proof fn law_long_run_continued(cc: u8, hl: u8, l: u8, expected: nat, all_blank: bool, highres: bool)
    requires
        0x80 <= hl < 0xFF,
    ensures
        ({
            let px = rle_pixels(seq![cc, hl, cc, l], expected, all_blank, highres);
            &&& px.len() == 1 + l + ((hl - 0x80) + 1) * 128
            &&& forall|i: int| 0 <= i < px.len() ==> px[i] == one_pixel(cc, all_blank, highres)
        }),
{
    let data = seq![cc, hl, cc, l];
    lemma_one_pixel(cc, all_blank, highres);
    assert(decode_prefix(data, 0, all_blank, highres) == (Seq::<u8>::empty(), None::<(u8, u8)>));
    assert(data[0] == cc && data[1] == hl && data[2] == cc && data[3] == l);
    assert(decode_prefix(data, 1, all_blank, highres) == (Seq::<u8>::empty(), Some((cc, hl))));
    assert(hl % 128 == hl - 0x80);
}

/// A held run followed by a pair of another code ends at
/// `((length & 0x7F) + 1) * 128` pixels of its gray, and the next pair is
/// then read on its own.
pub proof fn law_long_run_ended(cc: u8, hl: u8, cc2: u8, l: u8, expected: nat, all_blank: bool, highres: bool)
    requires
        0x80 <= hl < 0xFF,
        cc2 != cc,
        l < 0x80,
    ensures
        ({
            let px = rle_pixels(seq![cc, hl, cc2, l], expected, all_blank, highres);
            let k = ((hl - 0x80) + 1) * 128;
            &&& px.len() == k + l + 1
            &&& forall|i: int| 0 <= i < k ==> px[i] == one_pixel(cc, all_blank, highres)
            &&& forall|i: int| k <= i < px.len() ==> px[i] == one_pixel(cc2, all_blank, highres)
        }),
{
    let data = seq![cc, hl, cc2, l];
    lemma_one_pixel(cc, all_blank, highres);
    lemma_one_pixel(cc2, all_blank, highres);
    assert(decode_prefix(data, 0, all_blank, highres) == (Seq::<u8>::empty(), None::<(u8, u8)>));
    assert(data[0] == cc && data[1] == hl && data[2] == cc2 && data[3] == l);
    assert(decode_prefix(data, 1, all_blank, highres) == (Seq::<u8>::empty(), Some((cc, hl))));
    assert(hl % 128 == hl - 0x80);
}

/// A run still held back when the stream ends is emitted whole, as
/// `((length & 0x7F) + 1) * 128` pixels of its gray, when the page has
/// room for all of it.
pub proof fn law_long_run_at_end(cc: u8, hl: u8, expected: nat, all_blank: bool, highres: bool)
    requires
        0x80 <= hl < 0xFF,
        expected >= ((hl - 0x80) + 1) * 128,
    ensures
        ({
            let px = rle_pixels(seq![cc, hl], expected, all_blank, highres);
            &&& px.len() == ((hl - 0x80) + 1) * 128
            &&& forall|i: int| 0 <= i < px.len() ==> px[i] == one_pixel(cc, all_blank, highres)
        }),
{
    let data = seq![cc, hl];
    lemma_one_pixel(cc, all_blank, highres);
    assert(decode_prefix(data, 0, all_blank, highres) == (Seq::<u8>::empty(), None::<(u8, u8)>));
    assert(data[0] == cc && data[1] == hl);
    assert(decode_prefix(data, 1, all_blank, highres) == (Seq::<u8>::empty(), Some((cc, hl))));
    assert(hl % 128 == hl - 0x80);
}

/// Maps an RLE colour code to its grayscale value.
pub fn map_color(code: u8, highres: bool) -> (c: u8)
    ensures
        c == color_of(code, highres),
{
    if highres {
        match code {
            0x61 => 0x00,
            0x62 => 0xFF,
            0x63 => 0x30,
            0x64 => 0x50,
            0x65 => 0xFE,
            0x66 => 0x00,
            0x9E => 0x9D,
            0xCA => 0xC9,
            other => other,
        }
    } else {
        match code {
            0x61 => 0x00,
            0x62 => 0xFF,
            0x63 => 0x9D,
            0x64 => 0xC9,
            0x65 => 0xFE,
            0x66 => 0x00,
            0x67 => 0x9D,
            0x68 => 0xC9,
            other => other,
        }
    }
}

/// Appends `count` copies of `color`.
pub fn emit(pixels: &mut Vec<u8>, color: u8, count: usize)
    ensures
        final(pixels)@ == old(pixels)@ + run(color, count as nat),
{
    let mut i: usize = 0;
    while i < count
        invariant
            i <= count,
            pixels@ == old(pixels)@ + run(color, i as nat),
        decreases count - i,
    {
        pixels.push(color);
        i += 1;
        assert(pixels@ =~= old(pixels)@ + run(color, i as nat));
    }
    assert(pixels@ =~= old(pixels)@ + run(color, count as nat));
}

/// Handles a pair on its own: a marker or a short run is emitted and any
/// held run is left as it is; a long-run pair replaces the held run.
fn process_pair(
    pixels: &mut Vec<u8>,
    held: &mut Option<(u8, u8)>,
    cc: u8,
    len: u8,
    all_blank: bool,
    highres: bool,
)
    ensures
        final(pixels)@ == step_fresh(old(pixels)@, cc, len, all_blank, highres).0,
        *final(held) == if len != 0xFF && len >= 0x80 {
            Some((cc, len))
        } else {
            *old(held)
        },
{
    if len == 0xFF {
        let run_len: usize = if all_blank { 0x400 } else { 0x4000 };
        let color = map_color(cc, highres);
        emit(pixels, color, run_len);
    } else if len >= 0x80 {
        *held = Some((cc, len));
    } else {
        let color = map_color(cc, highres);
        emit(pixels, color, (len as usize) + 1);
    }
}

/// Length of a run held back when the stream ends, cut to what is still
/// missing of the page.
pub fn adjust_tail_length(tail_length: u8, current_length: usize, total_length: usize) -> (l: usize)
    ensures
        l as nat == tail_len(tail_length, current_length as nat, total_length as nat),
{
    let gap: usize = total_length.saturating_sub(current_length);
    let b: usize = (tail_length % 128) as usize + 1;
    if b * 128 <= gap {
        b * 128
    } else if b * 64 <= gap {
        b * 64
    } else if b * 32 <= gap {
        b * 32
    } else if b * 16 <= gap {
        b * 16
    } else if b * 8 <= gap {
        b * 8
    } else if b * 4 <= gap {
        b * 4
    } else if b * 2 <= gap {
        b * 2
    } else if b <= gap {
        b
    } else {
        0
    }
}

/// Decodes a RATTA_RLE bitmap into `page_width * page_height` grayscale pixels.
///
/// The stream is a sequence of `(colour code, length)` byte pairs; see
/// [`rle_pixels`] for the exact run semantics and [`color_of`] for the
/// colour mapping.  Fails when the stream does not decode to exactly one
/// pixel per page position.
pub fn decode_rle(
    data: &[u8],
    page_width: u32,
    page_height: u32,
    all_blank: bool,
    highres: bool,
) -> (r: Result<Vec<u8>, Error>)
    requires
        page_width * page_height <= u32::MAX,
    ensures
        ({
            let px = rle_pixels(data@, (page_width * page_height) as nat, all_blank, highres);
            match r {
                Ok(v) => px.len() == page_width * page_height && v@ == px,
                Err(e) => px.len() != page_width * page_height
                    && e == (Error::PixelCount { got: px.len() as usize, expected: (page_width * page_height) as usize }),
            }
        }),
{
    let expected_pixel_count = (page_width * page_height) as usize;
    let mut pixels: Vec<u8> = Vec::with_capacity(expected_pixel_count);
    let mut held: Option<(u8, u8)> = None;
    let npairs = data.len() / 2;
    let mut k: usize = 0;

    while k < npairs
        invariant
            npairs == data@.len() / 2,
            2 * npairs <= data@.len(),
            data@.len() <= usize::MAX,
            k <= npairs,
            (pixels@, held) == decode_prefix(data@, k as nat, all_blank, highres),
        decreases npairs - k,
    {
        let cc = data[2 * k];
        let len = data[2 * k + 1];
        match held {
            Some((prev_cc, prev_len)) => {
                held = None;
                if cc == prev_cc {
                    // Same colour: the two pairs form one long run.
                    let combined = 1 + len as usize + ((prev_len % 128) as usize + 1) * 128;
                    emit(&mut pixels, map_color(prev_cc, highres), combined);
                } else {
                    // Different colour: flush the held run, then handle this pair.
                    let held_len = ((prev_len % 128) as usize + 1) * 128;
                    emit(&mut pixels, map_color(prev_cc, highres), held_len);
                    process_pair(&mut pixels, &mut held, cc, len, all_blank, highres);
                }
            },
            None => {
                process_pair(&mut pixels, &mut held, cc, len, all_blank, highres);
            },
        }
        k += 1;
    }

    if let Some((prev_cc, prev_len)) = held {
        let adjusted = adjust_tail_length(prev_len, pixels.len(), expected_pixel_count);
        if adjusted > 0 {
            emit(&mut pixels, map_color(prev_cc, highres), adjusted);
        } else {
            assert(pixels@ =~= pixels@ + run(color_of(prev_cc, highres), 0));
        }
    }

    if pixels.len() != expected_pixel_count {
        return Err(Error::PixelCount { got: pixels.len(), expected: expected_pixel_count });
    }
    Ok(pixels)
}

} // verus!
