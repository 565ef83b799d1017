use vstd::prelude::*;

use crate::error::Error;
use crate::format::rle::{decode_rle, rle_pixels};
use crate::format::{
    block_payload, highres_signature, layer_order_spec, page_spec, signature_tail_ok, LayerModel,
    NotebookMeta, NotebookModel, PageModel,
};
use crate::text::{is_prefix, starts_with, str_eq};

verus! {

/// The BGLAYER payload length that marks an all-blank background when
/// the page style is `style_white`.
pub const ALL_BLANK_DATA_LEN: usize = 0x140E;

/// `rgba` with the grayscale `pixels` painted over it: pixel `i` sets the
/// four channels `4i..4i+4` to (gray, gray, gray, 255), except where it is
/// 0xFF (transparent) or does not fit in the canvas.
pub open spec fn composite_spec(rgba: Seq<u8>, pixels: Seq<u8>) -> Seq<u8> {
    Seq::new(
        rgba.len(),
        |j: int|
            {
                let idx = j / 4;
                if idx < pixels.len() && pixels[idx] != 0xFF && idx * 4 + 4 <= rgba.len() {
                    if j % 4 == 3 {
                        255u8
                    } else {
                        pixels[idx]
                    }
                } else {
                    rgba[j]
                }
            },
    )
}

/// Composites a grayscale pixel buffer onto an RGBA canvas, skipping
/// transparent (0xFF) pixels.
pub fn composite_grayscale(rgba: &mut Vec<u8>, pixels: &[u8])
    ensures
        final(rgba)@ == composite_spec(old(rgba)@, pixels@),
{
    let mut idx: usize = 0;
    while idx < pixels.len()
        invariant
            idx <= pixels@.len(),
            rgba@.len() == old(rgba)@.len(),
            forall|j: int|
                0 <= j < rgba@.len() ==> #[trigger] rgba@[j] == (if j / 4 < idx {
                    composite_spec(old(rgba)@, pixels@)[j]
                } else {
                    old(rgba)@[j]
                }),
        decreases pixels@.len() - idx,
    {
        let gray = pixels[idx];
        if gray != 0xFF {
            if idx >= rgba.len() / 4 {
                assert forall|j: int| 0 <= j < rgba@.len() implies #[trigger] rgba@[j]
                    == composite_spec(old(rgba)@, pixels@)[j] by {
                    if j / 4 >= idx {
                        assert(j / 4 * 4 + 4 > rgba@.len());
                    }
                }
                assert(rgba@ =~= composite_spec(old(rgba)@, pixels@));
                return;
            }
            let base = idx * 4;
            rgba.set(base, gray);
            rgba.set(base + 1, gray);
            rgba.set(base + 2, gray);
            rgba.set(base + 3, 255);
        }
        idx += 1;
    }
    assert forall|j: int| 0 <= j < rgba@.len() implies #[trigger] rgba@[j]
        == composite_spec(old(rgba)@, pixels@)[j] by {
        if j / 4 >= idx {
            assert(j / 4 >= pixels@.len());
        }
    }
    assert(rgba@ =~= composite_spec(old(rgba)@, pixels@));
}

/// Whether pixel `idx` of `pixels` paints over a canvas of `len` channels.
pub open spec fn paints(pixels: Seq<u8>, idx: int, len: nat) -> bool {
    0 <= idx < pixels.len() && pixels[idx] != 0xFF && idx * 4 + 4 <= len
}

/// A layer that is transparent everywhere leaves the canvas as it was.
pub proof fn law_transparent_layer_changes_nothing(rgba: Seq<u8>, pixels: Seq<u8>)
    requires
        forall|i: int| 0 <= i < pixels.len() ==> #[trigger] pixels[i] == 0xFF,
    ensures
        composite_spec(rgba, pixels) == rgba,
{
    assert(composite_spec(rgba, pixels) =~= rgba);
}

/// Painting the same layer twice is painting it once.
pub proof fn law_composite_idempotent(rgba: Seq<u8>, pixels: Seq<u8>)
    ensures
        composite_spec(composite_spec(rgba, pixels), pixels) == composite_spec(rgba, pixels),
{
    assert(composite_spec(composite_spec(rgba, pixels), pixels) =~= composite_spec(rgba, pixels));
}

/// Layers stack bottom to top: where the upper layer paints a pixel, the
/// canvas shows the upper layer whatever lay below; elsewhere it shows
/// what the lower layers left.
pub proof fn law_upper_layer_covers(rgba: Seq<u8>, lower: Seq<u8>, upper: Seq<u8>, j: int)
    requires
        0 <= j < rgba.len(),
    ensures
        composite_spec(composite_spec(rgba, lower), upper).len() == rgba.len(),
        paints(upper, j / 4, rgba.len()) ==> composite_spec(composite_spec(rgba, lower), upper)[j]
            == composite_spec(rgba, upper)[j],
        !paints(upper, j / 4, rgba.len()) ==> composite_spec(composite_spec(rgba, lower), upper)[j]
            == composite_spec(rgba, lower)[j],
{
}

/// Index of the first layer called `name`, or -1.
pub open spec fn layer_index(ls: Seq<LayerModel>, name: Seq<char>) -> int
    decreases ls.len(),
{
    if ls.len() == 0 {
        -1
    } else {
        let p = layer_index(ls.drop_last(), name);
        if p >= 0 {
            p
        } else if ls.last().name == name {
            ls.len() - 1
        } else {
            -1
        }
    }
}

/// The canvas after decoding `bmp` and painting it, or the decoding error.
pub open spec fn paint(canvas: Seq<u8>, bmp: Seq<u8>, w: u32, h: u32, all_blank: bool, highres: bool)
    -> Result<Seq<u8>, Error>
{
    let px = rle_pixels(bmp, (w * h) as nat, all_blank, highres);
    if px.len() == w * h {
        Ok(composite_spec(canvas, px))
    } else {
        Err(Error::PixelCount { got: px.len() as usize, expected: (w * h) as usize })
    }
}

/// What the layer called `name` adds to the canvas: nothing when the page
/// has no such layer, when its bitmap is missing or empty, when it is the
/// custom (`user_*`) background, or when it is not RATTA_RLE.
pub open spec fn layer_paint(
    d: Seq<u8>,
    pg: PageModel,
    name: Seq<char>,
    canvas: Seq<u8>,
    w: u32,
    h: u32,
    highres: bool,
) -> Result<Seq<u8>, Error> {
    let li = layer_index(pg.layers, name);
    if li < 0 {
        Ok(canvas)
    } else {
        let layer = pg.layers[li];
        let bmp = if layer.bitmap_addr == 0 {
            None
        } else {
            block_payload(d, layer.bitmap_addr as int)
        };
        match bmp {
            None => Ok(canvas),
            Some(b) => if b.len() == 0 {
                Ok(canvas)
            } else if is_prefix("user_"@, pg.style) && layer.name == "BGLAYER"@ {
                Ok(canvas)
            } else if layer.protocol == "RATTA_RLE"@ {
                let all_blank = layer.name == "BGLAYER"@ && pg.style == "style_white"@ && b.len()
                    == ALL_BLANK_DATA_LEN;
                paint(canvas, b, w, h, all_blank, highres)
            } else {
                Ok(canvas)
            },
        }
    }
}

/// The canvas after painting the layers `order[len - k..]`, last first.
pub open spec fn layers_paint(
    d: Seq<u8>,
    pg: PageModel,
    order: Seq<Seq<char>>,
    k: nat,
    canvas: Seq<u8>,
    w: u32,
    h: u32,
    highres: bool,
) -> Result<Seq<u8>, Error>
    decreases k,
{
    if k == 0 {
        Ok(canvas)
    } else {
        match layers_paint(d, pg, order, (k - 1) as nat, canvas, w, h, highres) {
            Err(e) => Err(e),
            Ok(c) => layer_paint(d, pg, order[order.len() - k], c, w, h, highres),
        }
    }
}

/// A white canvas of `n` RGBA pixels.
pub open spec fn white_canvas(n: nat) -> Seq<u8> {
    Seq::new(n * 4, |_i: int| 255u8)
}

/// The RGBA rendering of a page, or why it fails.
///
/// Layered pages composite their layers bottom to top (LAYERSEQ lists them
/// top to bottom); non-layered (A5) pages paint their single bitmap when
/// its protocol, RATTA_RLE by default, is RATTA_RLE.
pub open spec fn render_spec(d: Seq<u8>, nb: NotebookModel, page: usize) -> Result<Seq<u8>, Error> {
    if page >= nb.page_addresses.len() {
        Err(Error::PageOutOfRange { page, count: nb.page_addresses.len() as usize })
    } else {
        match page_spec(d, nb.page_addresses[page as int] as int) {
            Err(e) => Err(e),
            Ok(pg) => {
                let w = nb.page_width;
                let h = nb.page_height;
                let hr = highres_signature(nb.signature);
                let canvas = white_canvas((w * h) as nat);
                if pg.layers.len() == 0 {
                    let proto = match pg.a5_protocol {
                        Some(p) => p,
                        None => "RATTA_RLE"@,
                    };
                    let bmp = match pg.a5_bitmap_addr {
                        Some(a) if a != 0 => block_payload(d, a as int),
                        _ => None,
                    };
                    match bmp {
                        Some(b) => if proto == "RATTA_RLE"@ {
                            paint(canvas, b, w, h, false, hr)
                        } else {
                            Ok(canvas)
                        },
                        None => Ok(canvas),
                    }
                } else {
                    let order = layer_order_spec(pg.metadata);
                    layers_paint(d, pg, order, order.len(), canvas, w, h, hr)
                }
            },
        }
    }
}

/// The grayscale pixels that the layer called `name` paints over the
/// canvas, or `None` where it leaves the canvas as it is (no such layer,
/// no or an empty bitmap, the custom background, not RATTA_RLE).
pub open spec fn layer_pixels(d: Seq<u8>, pg: PageModel, name: Seq<char>, w: u32, h: u32, highres: bool) -> Option<Seq<u8>> {
    let li = layer_index(pg.layers, name);
    if li < 0 {
        None
    } else {
        let layer = pg.layers[li];
        let bmp = if layer.bitmap_addr == 0 {
            None
        } else {
            block_payload(d, layer.bitmap_addr as int)
        };
        match bmp {
            None => None,
            Some(b) => if b.len() == 0 {
                None
            } else if is_prefix("user_"@, pg.style) && layer.name == "BGLAYER"@ {
                None
            } else if layer.protocol == "RATTA_RLE"@ {
                let all_blank = layer.name == "BGLAYER"@ && pg.style == "style_white"@ && b.len()
                    == ALL_BLANK_DATA_LEN;
                Some(rle_pixels(b, (w * h) as nat, all_blank, highres))
            } else {
                None
            },
        }
    }
}

proof fn lemma_layer_paint_pixels(d: Seq<u8>, pg: PageModel, name: Seq<char>, canvas: Seq<u8>, w: u32, h: u32, highres: bool)
    ensures
        layer_paint(d, pg, name, canvas, w, h, highres) == match layer_pixels(d, pg, name, w, h, highres) {
            None => Ok::<Seq<u8>, Error>(canvas),
            Some(px) => if px.len() == w * h {
                Ok::<Seq<u8>, Error>(composite_spec(canvas, px))
            } else {
                Err::<Seq<u8>, Error>(Error::PixelCount { got: px.len() as usize, expected: (w * h) as usize })
            },
        },
{
}

/// Whether the layer `order[t]` paints pixel `idx` of a canvas of `len`
/// channels: its decoded value there is not 0xFF (transparent).
pub open spec fn layer_shows(
    d: Seq<u8>,
    pg: PageModel,
    order: Seq<Seq<char>>,
    t: int,
    w: u32,
    h: u32,
    highres: bool,
    idx: int,
    len: nat,
) -> bool {
    layer_pixels(d, pg, order[t], w, h, highres) matches Some(px) && paints(px, idx, len)
}

/// Channel `j` as the layer `order[t]` paints it: its gray value, or 255
/// for the alpha channel.
pub open spec fn layer_channel(d: Seq<u8>, pg: PageModel, order: Seq<Seq<char>>, t: int, w: u32, h: u32, highres: bool, j: int) -> u8 {
    match layer_pixels(d, pg, order[t], w, h, highres) {
        Some(px) => if j % 4 == 3 {
            255u8
        } else {
            px[j / 4]
        },
        None => 255u8,
    }
}

proof fn lemma_layers_paint_len(
    d: Seq<u8>,
    pg: PageModel,
    order: Seq<Seq<char>>,
    k: nat,
    canvas: Seq<u8>,
    w: u32,
    h: u32,
    hr: bool,
)
    requires
        layers_paint(d, pg, order, k, canvas, w, h, hr) is Ok,
    ensures
        layers_paint(d, pg, order, k, canvas, w, h, hr)->Ok_0.len() == canvas.len(),
    decreases k,
{
    if k > 0 {
        let prev = layers_paint(d, pg, order, (k - 1) as nat, canvas, w, h, hr);
        assert(prev is Ok);
        lemma_layers_paint_len(d, pg, order, (k - 1) as nat, canvas, w, h, hr);
        lemma_layer_paint_pixels(d, pg, order[order.len() - k], prev->Ok_0, w, h, hr);
    }
}

proof fn lemma_layers_paint_top(
    d: Seq<u8>,
    pg: PageModel,
    order: Seq<Seq<char>>,
    k: nat,
    canvas: Seq<u8>,
    w: u32,
    h: u32,
    hr: bool,
    j: int,
)
    requires
        k <= order.len(),
        layers_paint(d, pg, order, k, canvas, w, h, hr) is Ok,
        0 <= j < canvas.len(),
    ensures
        ({
            let out = layers_paint(d, pg, order, k, canvas, w, h, hr)->Ok_0;
            let s = order.len() - k;
            &&& out.len() == canvas.len()
            &&& forall|t: int|
                s <= t < order.len() && #[trigger] layer_shows(d, pg, order, t, w, h, hr, j / 4, canvas.len())
                    && (forall|u: int| s <= u < t ==> !#[trigger] layer_shows(d, pg, order, u, w, h, hr, j / 4, canvas.len()))
                    ==> out[j] == layer_channel(d, pg, order, t, w, h, hr, j)
            &&& (forall|u: int| s <= u < order.len() ==> !#[trigger] layer_shows(d, pg, order, u, w, h, hr, j / 4, canvas.len()))
                ==> out[j] == canvas[j]
        }),
    decreases k,
{
    if k > 0 {
        let prev = layers_paint(d, pg, order, (k - 1) as nat, canvas, w, h, hr);
        assert(prev is Ok);
        lemma_layers_paint_top(d, pg, order, (k - 1) as nat, canvas, w, h, hr, j);
        let c = prev->Ok_0;
        let s = order.len() - k;
        lemma_layer_paint_pixels(d, pg, order[s], c, w, h, hr);
        let out = layers_paint(d, pg, order, k, canvas, w, h, hr)->Ok_0;
        assert(layer_paint(d, pg, order[s], c, w, h, hr) == Ok::<Seq<u8>, Error>(out));
        let len = canvas.len();
        if layer_shows(d, pg, order, s, w, h, hr, j / 4, len) {
            let px = layer_pixels(d, pg, order[s], w, h, hr)->Some_0;
            assert(out == composite_spec(c, px));
            assert(out[j] == layer_channel(d, pg, order, s, w, h, hr, j));
            assert forall|t: int|
                s <= t < order.len() && #[trigger] layer_shows(d, pg, order, t, w, h, hr, j / 4, len)
                    && (forall|u: int| s <= u < t ==> !#[trigger] layer_shows(d, pg, order, u, w, h, hr, j / 4, len))
                    implies out[j] == layer_channel(d, pg, order, t, w, h, hr, j) by {
                if t > s {
                    assert(!layer_shows(d, pg, order, s, w, h, hr, j / 4, len));
                }
            }
        } else {
            assert(out[j] == c[j]);
            assert forall|t: int|
                s <= t < order.len() && #[trigger] layer_shows(d, pg, order, t, w, h, hr, j / 4, len)
                    && (forall|u: int| s <= u < t ==> !#[trigger] layer_shows(d, pg, order, u, w, h, hr, j / 4, len))
                    implies out[j] == layer_channel(d, pg, order, t, w, h, hr, j) by {
                assert(t != s);
                assert forall|u: int| s + 1 <= u < t implies !#[trigger] layer_shows(d, pg, order, u, w, h, hr, j / 4, len) by {}
            }
            if forall|u: int| s <= u < order.len() ==> !#[trigger] layer_shows(d, pg, order, u, w, h, hr, j / 4, len) {
                assert forall|u: int| s + 1 <= u < order.len() implies !#[trigger] layer_shows(d, pg, order, u, w, h, hr, j / 4, len) by {}
            }
        }
    }
}

/// Layers stack as the page's layer order lists them, top to bottom: at
/// every channel of a rendered layered page, the first layer in that order
/// that paints the pixel (a decoded value other than 0xFF) decides it, and
/// where no layer paints it the page stays white.
pub proof fn law_rendered_pixel_shows_top_layer(d: Seq<u8>, nb: NotebookModel, page: usize, j: int)
    requires
        page < nb.page_addresses.len(),
        page_spec(d, nb.page_addresses[page as int] as int) matches Ok(pg) && pg.layers.len() > 0,
        render_spec(d, nb, page) is Ok,
        0 <= j < render_spec(d, nb, page)->Ok_0.len(),
    ensures
        ({
            let out = render_spec(d, nb, page)->Ok_0;
            let pg = page_spec(d, nb.page_addresses[page as int] as int)->Ok_0;
            let order = layer_order_spec(pg.metadata);
            let w = nb.page_width;
            let h = nb.page_height;
            let hr = highres_signature(nb.signature);
            &&& out.len() == w * h * 4
            &&& forall|t: int|
                0 <= t < order.len() && #[trigger] layer_shows(d, pg, order, t, w, h, hr, j / 4, out.len())
                    && (forall|u: int| 0 <= u < t ==> !#[trigger] layer_shows(d, pg, order, u, w, h, hr, j / 4, out.len()))
                    ==> out[j] == layer_channel(d, pg, order, t, w, h, hr, j)
            &&& (forall|u: int| 0 <= u < order.len() ==> !#[trigger] layer_shows(d, pg, order, u, w, h, hr, j / 4, out.len()))
                ==> out[j] == 255
        }),
{
    let pg = page_spec(d, nb.page_addresses[page as int] as int)->Ok_0;
    let order = layer_order_spec(pg.metadata);
    let w = nb.page_width;
    let h = nb.page_height;
    let hr = highres_signature(nb.signature);
    let canvas = white_canvas((w * h) as nat);
    assert(render_spec(d, nb, page) == layers_paint(d, pg, order, order.len(), canvas, w, h, hr));
    lemma_layers_paint_len(d, pg, order, order.len(), canvas, w, h, hr);
    lemma_layers_paint_top(d, pg, order, order.len(), canvas, w, h, hr, j);
}

/// The layers with the bitmap of every layer named BGLAYER removed.
pub open spec fn without_background_layers(ls: Seq<LayerModel>) -> Seq<LayerModel> {
    Seq::new(
        ls.len(),
        |i: int|
            if ls[i].name == "BGLAYER"@ {
                LayerModel { bitmap_addr: 0, ..ls[i] }
            } else {
                ls[i]
            },
    )
}

/// The page with the bitmap of its background layer removed.
pub open spec fn without_background_bitmap(pg: PageModel) -> PageModel {
    PageModel { layers: without_background_layers(pg.layers), ..pg }
}

proof fn lemma_layer_index_without_background(ls: Seq<LayerModel>, name: Seq<char>)
    ensures
        layer_index(without_background_layers(ls), name) == layer_index(ls, name),
    decreases ls.len(),
{
    if ls.len() > 0 {
        let d = ls.drop_last();
        lemma_layer_index_without_background(d, name);
        assert(without_background_layers(ls).drop_last() =~= without_background_layers(d));
    }
}

proof fn lemma_layers_paint_without_background(
    d: Seq<u8>,
    pg: PageModel,
    order: Seq<Seq<char>>,
    k: nat,
    canvas: Seq<u8>,
    w: u32,
    h: u32,
    hr: bool,
)
    requires
        is_prefix("user_"@, pg.style),
    ensures
        layers_paint(d, pg, order, k, canvas, w, h, hr) == layers_paint(
            d,
            without_background_bitmap(pg),
            order,
            k,
            canvas,
            w,
            h,
            hr,
        ),
    decreases k,
{
    if k > 0 {
        lemma_layers_paint_without_background(d, pg, order, (k - 1) as nat, canvas, w, h, hr);
        let pg2 = without_background_bitmap(pg);
        let name = order[order.len() - k];
        lemma_layer_index_without_background(pg.layers, name);
        match layers_paint(d, pg, order, (k - 1) as nat, canvas, w, h, hr) {
            Err(_) => {},
            Ok(c) => {
                let li = layer_index(pg.layers, name);
                if li >= 0 {
                    lemma_layer_index_bounds(pg.layers, name);
                    assert(pg2.layers[li].name == pg.layers[li].name);
                }
                assert(layer_paint(d, pg, name, c, w, h, hr) == layer_paint(d, pg2, name, c, w, h, hr));
            },
        }
    }
}

proof fn lemma_layer_index_bounds(ls: Seq<LayerModel>, name: Seq<char>)
    ensures
        layer_index(ls, name) < ls.len(),
        layer_index(ls, name) >= 0 ==> ls[layer_index(ls, name)].name == name,
    decreases ls.len(),
{
    if ls.len() > 0 {
        lemma_layer_index_bounds(ls.drop_last(), name);
    }
}

/// On a page with a custom (`user_*`) style the background layer holds the
/// template picture, which is never decoded as RLE: the page renders
/// exactly as the same page whose background layer has no bitmap, so the
/// picture neither shows nor makes rendering fail.
pub proof fn law_custom_background_skipped(d: Seq<u8>, nb: NotebookModel, page: usize)
    requires
        page < nb.page_addresses.len(),
        page_spec(d, nb.page_addresses[page as int] as int) matches Ok(pg) && pg.layers.len() > 0
            && is_prefix("user_"@, pg.style),
    ensures
        ({
            let pg = page_spec(d, nb.page_addresses[page as int] as int)->Ok_0;
            let order = layer_order_spec(pg.metadata);
            let w = nb.page_width;
            let h = nb.page_height;
            render_spec(d, nb, page) == layers_paint(
                d,
                without_background_bitmap(pg),
                order,
                order.len(),
                white_canvas((w * h) as nat),
                w,
                h,
                highres_signature(nb.signature),
            )
        }),
{
    let pg = page_spec(d, nb.page_addresses[page as int] as int)->Ok_0;
    let order = layer_order_spec(pg.metadata);
    let w = nb.page_width;
    let h = nb.page_height;
    lemma_layers_paint_without_background(
        d,
        pg,
        order,
        order.len(),
        white_canvas((w * h) as nat),
        w,
        h,
        highres_signature(nb.signature),
    );
}

/// A page without layers (A5) whose protocol is RATTA_RLE, or not given,
/// and whose bitmap decodes to one value per pixel renders as that bitmap
/// on white: each pixel is its decoded gray, opaque, except where the
/// value is 0xFF (transparent), which stays white.
pub proof fn law_a5_bitmap_painted(d: Seq<u8>, nb: NotebookModel, page: usize, addr: usize, b: Seq<u8>)
    requires
        page < nb.page_addresses.len(),
        page_spec(d, nb.page_addresses[page as int] as int) matches Ok(pg) && pg.layers.len() == 0
            && (pg.a5_protocol is None || pg.a5_protocol == Some("RATTA_RLE"@))
            && pg.a5_bitmap_addr == Some(addr),
        addr != 0,
        block_payload(d, addr as int) == Some(b),
        rle_pixels(b, (nb.page_width * nb.page_height) as nat, false, highres_signature(nb.signature)).len()
            == nb.page_width * nb.page_height,
    ensures
        ({
            let px = rle_pixels(b, (nb.page_width * nb.page_height) as nat, false, highres_signature(nb.signature));
            &&& render_spec(d, nb, page) is Ok
            &&& render_spec(d, nb, page)->Ok_0.len() == 4 * px.len()
            &&& forall|j: int| 0 <= j < 4 * px.len() ==> #[trigger] render_spec(d, nb, page)->Ok_0[j] == if px[j / 4] == 0xFF {
                255u8
            } else if j % 4 == 3 {
                255u8
            } else {
                px[j / 4]
            }
        }),
{
    let px = rle_pixels(b, (nb.page_width * nb.page_height) as nat, false, highres_signature(nb.signature));
    let canvas = white_canvas((nb.page_width * nb.page_height) as nat);
    assert(render_spec(d, nb, page) == Ok::<Seq<u8>, Error>(composite_spec(canvas, px)));
    assert forall|j: int| 0 <= j < 4 * px.len() implies #[trigger] composite_spec(canvas, px)[j] == if px[j / 4] == 0xFF {
        255u8
    } else if j % 4 == 3 {
        255u8
    } else {
        px[j / 4]
    } by {
        assert(j / 4 < px.len());
        assert(j / 4 * 4 + 4 <= canvas.len());
    }
}

proof fn lemma_layer_index_first(ls: Seq<LayerModel>, name: Seq<char>, i: int)
    requires
        0 <= i < ls.len(),
        ls[i].name == name,
        forall|j: int| 0 <= j < i ==> #[trigger] ls[j].name != name,
    ensures
        layer_index(ls, name) == i,
    decreases ls.len(),
{
    if i < ls.len() - 1 {
        let d = ls.drop_last();
        assert forall|j: int| 0 <= j < i implies #[trigger] d[j].name != name by {
            assert(d[j] == ls[j]);
        }
        lemma_layer_index_first(d, name, i);
    } else {
        let d = ls.drop_last();
        lemma_layer_index_bounds(d, name);
        if layer_index(d, name) >= 0 {
            assert(d[layer_index(d, name)] == ls[layer_index(d, name)]);
        }
    }
}

/// A layer that the page does not have adds nothing to the canvas.
pub proof fn law_absent_layer_adds_nothing(
    d: Seq<u8>,
    pg: PageModel,
    name: Seq<char>,
    canvas: Seq<u8>,
    w: u32,
    h: u32,
    highres: bool,
)
    requires
        forall|i: int| 0 <= i < pg.layers.len() ==> #[trigger] pg.layers[i].name != name,
    ensures
        layer_paint(d, pg, name, canvas, w, h, highres) == Ok::<Seq<u8>, Error>(canvas),
{
    lemma_layer_index_bounds(pg.layers, name);
}

/// Only RATTA_RLE bitmaps are painted: when the first layer called
/// `name` has any other protocol, it adds nothing to the canvas.
pub proof fn law_non_rle_layer_adds_nothing(
    d: Seq<u8>,
    pg: PageModel,
    name: Seq<char>,
    canvas: Seq<u8>,
    w: u32,
    h: u32,
    highres: bool,
    i: int,
)
    requires
        0 <= i < pg.layers.len(),
        pg.layers[i].name == name,
        forall|j: int| 0 <= j < i ==> #[trigger] pg.layers[j].name != name,
        pg.layers[i].protocol != "RATTA_RLE"@,
    ensures
        layer_paint(d, pg, name, canvas, w, h, highres) == Ok::<Seq<u8>, Error>(canvas),
{
    lemma_layer_index_first(pg.layers, name, i);
}

/// A RATTA_RLE layer (the first called `name`) whose bitmap block holds
/// `b` is decoded and painted: each pixel takes the decoded gray, opaque,
/// except where the value is 0xFF (transparent), which leaves the canvas;
/// the all-blank hint is set for exactly the background layer of a
/// `style_white` page whose bitmap is 0x140E bytes; a bitmap that does not
/// decode to one value per pixel is an error. The background of a custom
/// (`user_*`) style is left out.
pub proof fn law_rle_layer_painted(
    d: Seq<u8>,
    pg: PageModel,
    name: Seq<char>,
    canvas: Seq<u8>,
    w: u32,
    h: u32,
    highres: bool,
    i: int,
    b: Seq<u8>,
)
    requires
        0 <= i < pg.layers.len(),
        pg.layers[i].name == name,
        forall|j: int| 0 <= j < i ==> #[trigger] pg.layers[j].name != name,
        pg.layers[i].protocol == "RATTA_RLE"@,
        pg.layers[i].bitmap_addr != 0,
        block_payload(d, pg.layers[i].bitmap_addr as int) == Some(b),
        b.len() > 0,
        !(is_prefix("user_"@, pg.style) && name == "BGLAYER"@),
        canvas.len() == 4 * (w * h),
    ensures
        ({
            let hint = name == "BGLAYER"@ && pg.style == "style_white"@ && b.len() == 0x140E;
            let px = rle_pixels(b, (w * h) as nat, hint, highres);
            let r = layer_paint(d, pg, name, canvas, w, h, highres);
            &&& px.len() == w * h ==> r is Ok && r->Ok_0.len() == canvas.len() && forall|j: int|
                0 <= j < canvas.len() ==> #[trigger] r->Ok_0[j] == if px[j / 4] == 0xFF {
                    canvas[j]
                } else if j % 4 == 3 {
                    255u8
                } else {
                    px[j / 4]
                }
            &&& px.len() != w * h ==> r == Err::<Seq<u8>, Error>(
                Error::PixelCount { got: px.len() as usize, expected: (w * h) as usize },
            )
        }),
{
    lemma_layer_index_first(pg.layers, name, i);
    let hint = name == "BGLAYER"@ && pg.style == "style_white"@ && b.len() == 0x140E;
    let px = rle_pixels(b, (w * h) as nat, hint, highres);
    if px.len() == w * h {
        let r = layer_paint(d, pg, name, canvas, w, h, highres);
        assert(r == Ok::<Seq<u8>, Error>(composite_spec(canvas, px)));
        assert forall|j: int| 0 <= j < canvas.len() implies #[trigger] r->Ok_0[j] == if px[j / 4] == 0xFF {
            canvas[j]
        } else if j % 4 == 3 {
            255u8
        } else {
            px[j / 4]
        } by {
            assert(j / 4 < px.len());
            assert(j / 4 * 4 + 4 <= canvas.len());
        }
    }
}

/// A page without layers (A5) whose bitmap is not RATTA_RLE, or that has
/// no bitmap, renders as a white page.
pub proof fn law_a5_without_rle_bitmap_is_white(d: Seq<u8>, nb: NotebookModel, page: usize)
    requires
        page < nb.page_addresses.len(),
        page_spec(d, nb.page_addresses[page as int] as int) matches Ok(pg) && pg.layers.len() == 0 && (
        (pg.a5_protocol matches Some(p) && p != "RATTA_RLE"@) || pg.a5_bitmap_addr is None
            || pg.a5_bitmap_addr == Some(0usize) || (pg.a5_bitmap_addr matches Some(a) && block_payload(
            d,
            a as int,
        ) is None)),
    ensures
        render_spec(d, nb, page) is Ok,
        render_spec(d, nb, page)->Ok_0.len() == 4 * (nb.page_width * nb.page_height),
        forall|j: int| 0 <= j < render_spec(d, nb, page)->Ok_0.len() ==> #[trigger] render_spec(d, nb, page)->Ok_0[j] == 255u8,
{
}

/// Whether rendering `page` gets past reading the page's metadata to the
/// point where the canvas is made.
pub open spec fn reaches_canvas(d: Seq<u8>, nb: NotebookModel, page: usize) -> bool {
    page < nb.page_addresses.len() && page_spec(d, nb.page_addresses[page as int] as int) is Ok
}

/// Renders a page's RLE bitmap layers to raw RGBA pixels on a white canvas.
///
/// Returns `(width, height, pixels)` with `width * height * 4` bytes.
/// Custom PNG backgrounds (`user_*` styles) are left out.
#[verifier::loop_isolation(false)]
pub fn render_bitmap(data: &[u8], notebook: &NotebookMeta, page: usize) -> (r: Result<
    (u32, u32, Vec<u8>),
    Error,
>)
    requires
        reaches_canvas(data@, notebook@, page) ==> {
            &&& signature_tail_ok(notebook@.signature)
            &&& notebook@.page_width * notebook@.page_height * 4 <= usize::MAX
            &&& notebook@.page_width * notebook@.page_height <= u32::MAX
        },
    ensures
        match r {
            Ok((w, h, px)) => w == notebook@.page_width && h == notebook@.page_height
                && render_spec(data@, notebook@, page) == Ok::<Seq<u8>, Error>(px@),
            Err(e) => render_spec(data@, notebook@, page) == Err::<Seq<u8>, Error>(e),
        },
{
    if page >= notebook.page_count() {
        return Err(Error::PageOutOfRange { page, count: notebook.page_count() });
    }
    let pg = notebook.page(data, page)?;
    let w = notebook.width();
    let h = notebook.height();
    let highres = notebook.supports_highres_grayscale();
    let pixel_count = (w as usize) * (h as usize);
    let mut rgba: Vec<u8> = vec![255u8; pixel_count * 4];
    assert(rgba@ =~= white_canvas((w * h) as nat));

    if pg.layer_count() == 0 {
        if let Some(bmp_data) = pg.a5_bitmap(data) {
            let protocol = match pg.a5_protocol() {
                Some(p) => p,
                None => "RATTA_RLE",
            };
            if str_eq(protocol, "RATTA_RLE") {
                let pixels = decode_rle(bmp_data, w, h, false, highres)?;
                composite_grayscale(&mut rgba, pixels.as_slice());
            }
        }
        return Ok((w, h, rgba));
    }
    let layer_order = pg.layer_order();
    let ghost order = layer_order@.map_values(|s: String| s@);
    let n = layer_order.len();
    let mut k: usize = 0;
    while k < n
        invariant
            k <= n,
            n == layer_order@.len(),
            order == layer_order@.map_values(|s: String| s@),
            order == layer_order_spec(pg@.metadata),
            pg@.layers.len() > 0,
            layers_paint(data@, pg@, order, k as nat, white_canvas((w * h) as nat), w, h, highres)
                == Ok::<Seq<u8>, Error>(rgba@),
            w == notebook@.page_width,
            h == notebook@.page_height,
            w * h <= u32::MAX,
            highres == highres_signature(notebook@.signature),
        decreases n - k,
    {
        let layer_name = &layer_order[n - 1 - k];
        assert(order[order.len() - (k + 1)] == layer_name@);
        let r = paint_layer(data, &pg, layer_name.as_str(), &mut rgba, w, h, highres);
        if let Err(e) = r {
            proof {
                lemma_layers_paint_error(data@, pg@, order, (k + 1) as nat, n as nat, white_canvas((w * h) as nat), w, h, highres);
            }
            return Err(e);
        }
        k += 1;
    }
    Ok((w, h, rgba))
}

proof fn lemma_layers_paint_error(
    d: Seq<u8>,
    pg: PageModel,
    order: Seq<Seq<char>>,
    k: nat,
    total: nat,
    canvas: Seq<u8>,
    w: u32,
    h: u32,
    highres: bool,
)
    requires
        k <= total,
        layers_paint(d, pg, order, k, canvas, w, h, highres) is Err,
    ensures
        layers_paint(d, pg, order, total, canvas, w, h, highres) == layers_paint(
            d,
            pg,
            order,
            k,
            canvas,
            w,
            h,
            highres,
        ),
    decreases total - k,
{
    if k < total {
        lemma_layers_paint_error(d, pg, order, k, (total - 1) as nat, canvas, w, h, highres);
    }
}

/// Paints the layer called `name` onto the canvas.
fn paint_layer(
    data: &[u8],
    pg: &crate::format::PageMeta,
    name: &str,
    rgba: &mut Vec<u8>,
    w: u32,
    h: u32,
    highres: bool,
) -> (r: Result<(), Error>)
    requires
        w * h <= u32::MAX,
    ensures
        match r {
            Ok(_) => layer_paint(data@, pg@, name@, old(rgba)@, w, h, highres) == Ok::<
                Seq<u8>,
                Error,
            >(final(rgba)@),
            Err(e) => layer_paint(data@, pg@, name@, old(rgba)@, w, h, highres) == Err::<
                Seq<u8>,
                Error,
            >(e),
        },
{
    let li = match find_layer(pg, name) {
        Some(i) => i,
        None => return Ok(()),
    };
    let layer = pg.layer(li);
    let bmp_data = match pg.layer_bitmap(data, li) {
        Some(d) => d,
        None => return Ok(()),
    };
    if bmp_data.len() == 0 {
        return Ok(());
    }
    let is_bg = str_eq(layer.name_str(), "BGLAYER");
    if starts_with(pg.style_str(), "user_") && is_bg {
        return Ok(());
    }
    if str_eq(layer.protocol_str(), "RATTA_RLE") {
        let all_blank = is_bg && str_eq(pg.style_str(), "style_white") && bmp_data.len()
            == ALL_BLANK_DATA_LEN;
        let pixels = decode_rle(bmp_data, w, h, all_blank, highres)?;
        composite_grayscale(rgba, pixels.as_slice());
    }
    Ok(())
}

/// Index of the first layer of the page called `name`.
fn find_layer(pg: &crate::format::PageMeta, name: &str) -> (r: Option<usize>)
    ensures
        match r {
            Some(i) => i == layer_index(pg@.layers, name@) && i < pg@.layers.len(),
            None => layer_index(pg@.layers, name@) < 0,
        },
{
    let mut i: usize = 0;
    while i < pg.layer_count()
        invariant
            i <= pg@.layers.len(),
            layer_index(pg@.layers.take(i as int), name@) < 0,
        decreases pg@.layers.len() - i,
    {
        proof {
            assert(pg@.layers.take(i as int + 1).drop_last() =~= pg@.layers.take(i as int));
        }
        if str_eq(pg.layer(i).name_str(), name) {
            proof {
                lemma_layer_index_prefix(pg@.layers, name@, i as int + 1);
            }
            return Some(i);
        }
        i += 1;
    }
    assert(pg@.layers.take(i as int) =~= pg@.layers);
    None
}

proof fn lemma_layer_index_prefix(ls: Seq<LayerModel>, name: Seq<char>, n: int)
    requires
        0 <= n <= ls.len(),
        layer_index(ls.take(n), name) >= 0,
    ensures
        layer_index(ls, name) == layer_index(ls.take(n), name),
    decreases ls.len(),
{
    if n == ls.len() {
        assert(ls.take(n) =~= ls);
    } else {
        assert(ls.drop_last().take(n) =~= ls.take(n));
        lemma_layer_index_prefix(ls.drop_last(), name, n);
    }
}

} // verus!
