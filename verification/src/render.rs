//! The decisions and text assembly of SVG rendering: which strokes form
//! which layer group, how eraser masks wrap pen strokes, colour
//! attributes, font families and XML escaping.  The geometry of the
//! strokes themselves is computed by the caller.
use vstd::prelude::*;

use crate::format::stroke::{ScreenCoord, Stroke, COLOR_ERASER, PEN_MARKER, PEN_NEEDLE_POINT};
use crate::text::{decimal, decimal_string, is_prefix, signed_decimal, signed_decimal_string, split_on, split_str, starts_with, str_chars, str_eq};

verus! {

/// The layer key that a stroke's `stroke_layer` number belongs to.
pub open spec fn layer_name_of(stroke_layer: u32) -> Seq<char> {
    if stroke_layer == 1 {
        "LAYER1"@
    } else if stroke_layer == 2 {
        "LAYER2"@
    } else if stroke_layer == 3 {
        "LAYER3"@
    } else if stroke_layer == u32::MAX {
        "BGLAYER"@
    } else {
        "MAINLAYER"@
    }
}

/// Maps a stroke's `stroke_layer` field to the layer key used in LAYERSEQ
/// and the page metadata: 0 is MAINLAYER, 1 to 3 are LAYER1 to LAYER3,
/// -1 (stored as `u32::MAX`) is BGLAYER; unknown numbers belong to
/// MAINLAYER.
pub fn stroke_layer_name(stroke_layer: u32) -> (r: &'static str)
    ensures
        r@ == layer_name_of(stroke_layer),
{
    match stroke_layer {
        0 => "MAINLAYER",
        1 => "LAYER1",
        2 => "LAYER2",
        3 => "LAYER3",
        0xFFFF_FFFF => "BGLAYER",
        _ => "MAINLAYER",
    }
}

/// The indices among the first `n` strokes whose layer is `name`, in order.
pub open spec fn members(layers: Seq<u32>, name: Seq<char>, n: nat) -> Seq<usize>
    decreases n,
{
    if n == 0 {
        Seq::empty()
    } else if layer_name_of(layers[n - 1]) == name {
        members(layers, name, (n - 1) as nat).push((n - 1) as usize)
    } else {
        members(layers, name, (n - 1) as nat)
    }
}

/// The stroke groups drawn for the last `k` names of `order`, last name
/// first (LAYERSEQ lists layers top to bottom, drawing goes bottom to
/// top); names without strokes draw nothing.
pub open spec fn layer_groups_spec(layers: Seq<u32>, order: Seq<Seq<char>>, k: nat) -> Seq<Seq<usize>>
    decreases k,
{
    if k == 0 {
        Seq::empty()
    } else {
        let prev = layer_groups_spec(layers, order, (k - 1) as nat);
        let g = members(layers, order[order.len() - k], layers.len());
        if g.len() > 0 {
            prev.push(g)
        } else {
            prev
        }
    }
}

/// The indices of the strokes whose layer is `name`.
fn layer_members(stroke_layers: &[u32], name: &str) -> (r: Vec<usize>)
    ensures
        r@ == members(stroke_layers@, name@, stroke_layers@.len()),
{
    let mut r: Vec<usize> = Vec::new();
    let mut i: usize = 0;
    while i < stroke_layers.len()
        invariant
            i <= stroke_layers@.len(),
            r@ == members(stroke_layers@, name@, i as nat),
        decreases stroke_layers@.len() - i,
    {
        if str_eq(stroke_layer_name(stroke_layers[i]), name) {
            r.push(i);
        }
        i += 1;
    }
    r
}

/// The strokes gathered for a layer are exactly the strokes of that
/// layer, in their order.
pub proof fn law_layer_members(layers: Seq<u32>, name: Seq<char>, n: nat)
    requires
        n <= layers.len(),
        layers.len() <= usize::MAX,
    ensures
        forall|k: int| 0 <= k < members(layers, name, n).len() ==> #[trigger] members(layers, name, n)[k] < n
            && layer_name_of(layers[members(layers, name, n)[k] as int]) == name,
        forall|k1: int, k2: int| 0 <= k1 < k2 < members(layers, name, n).len() ==> #[trigger] members(layers, name, n)[k1]
            < #[trigger] members(layers, name, n)[k2],
        forall|i: int| 0 <= i < n && layer_name_of(#[trigger] layers[i]) == name ==> members(layers, name, n).contains(i as usize),
    decreases n,
{
    if n > 0 {
        law_layer_members(layers, name, (n - 1) as nat);
        let prev = members(layers, name, (n - 1) as nat);
        let m = members(layers, name, n);
        if layer_name_of(layers[n - 1]) == name {
            assert(m == prev.push((n - 1) as usize));
            assert forall|i: int| 0 <= i < n && layer_name_of(#[trigger] layers[i]) == name implies m.contains(i as usize) by {
                if i < n - 1 {
                    let k = choose|k: int| 0 <= k < prev.len() && prev[k] == i as usize;
                    assert(m[k] == prev[k]);
                } else {
                    assert(m[prev.len() as int] == (n - 1) as usize);
                }
            }
        }
    }
}

/// Groups strokes by layer in drawing order: for each name of
/// `layer_order` from last to first, the indices of the strokes of that
/// layer in their own order; layers without strokes are left out.
pub fn layer_groups(stroke_layers: &[u32], layer_order: &[String]) -> (r: Vec<Vec<usize>>)
    ensures
        r@.map_values(|g: Vec<usize>| g@) == layer_groups_spec(
            stroke_layers@,
            layer_order@.map_values(|s: String| s@),
            layer_order@.len(),
        ),
{
    let ghost order = layer_order@.map_values(|s: String| s@);
    let n = layer_order.len();
    let mut groups: Vec<Vec<usize>> = Vec::new();
    let mut k: usize = 0;
    while k < n
        invariant
            k <= n,
            n == layer_order@.len(),
            order == layer_order@.map_values(|s: String| s@),
            groups@.map_values(|g: Vec<usize>| g@) == layer_groups_spec(stroke_layers@, order, k as nat),
        decreases n - k,
    {
        assert(order[order.len() - (k + 1)] == layer_order@[n - 1 - k]@);
        let g = layer_members(stroke_layers, layer_order[n - 1 - k].as_str());
        if g.len() > 0 {
            let ghost old_groups = groups@;
            groups.push(g);
            assert(groups@.map_values(|g: Vec<usize>| g@) =~= old_groups.map_values(|g: Vec<usize>| g@).push(g@));
        }
        k += 1;
    }
    groups
}

/// The upper-case hexadecimal digit for `d < 16`.
pub open spec fn hex_char(d: nat) -> char {
    if d < 10 {
        crate::text::digit_char(d)
    } else if d == 10 {
        'A'
    } else if d == 11 {
        'B'
    } else if d == 12 {
        'C'
    } else if d == 13 {
        'D'
    } else if d == 14 {
        'E'
    } else {
        'F'
    }
}

/// `#RRGGBB` for the gray level `v`.
pub open spec fn gray_hex(v: u8) -> Seq<char> {
    let h = seq![hex_char(v as nat / 16), hex_char(v as nat % 16)];
    seq!['#'] + h + h + h
}

fn hex_str(d: u8) -> (r: &'static str)
    requires
        d < 16,
    ensures
        r@ == seq![hex_char(d as nat)],
{
    proof {
        reveal_strlit("0");
        reveal_strlit("1");
        reveal_strlit("2");
        reveal_strlit("3");
        reveal_strlit("4");
        reveal_strlit("5");
        reveal_strlit("6");
        reveal_strlit("7");
        reveal_strlit("8");
        reveal_strlit("9");
        reveal_strlit("A");
        reveal_strlit("B");
        reveal_strlit("C");
        reveal_strlit("D");
        reveal_strlit("E");
        reveal_strlit("F");
    }
    let r = match d {
        0 => "0",
        1 => "1",
        2 => "2",
        3 => "3",
        4 => "4",
        5 => "5",
        6 => "6",
        7 => "7",
        8 => "8",
        9 => "9",
        10 => "A",
        11 => "B",
        12 => "C",
        13 => "D",
        14 => "E",
        _ => "F",
    };
    assert(r@ =~= seq![hex_char(d as nat)]);
    r
}

fn gray_hex_string(v: u8) -> (s: String)
    ensures
        s@ == gray_hex(v),
{
    let mut s = String::from_str("#");
    proof {
        reveal_strlit("#");
    }
    let hi = hex_str(v / 16);
    let lo = hex_str(v % 16);
    s.append(hi);
    s.append(lo);
    s.append(hi);
    s.append(lo);
    s.append(hi);
    s.append(lo);
    assert(s@ =~= gray_hex(v));
    s
}

/// The low byte of a colour value.
pub open spec fn low_byte(color: u32) -> u8 {
    (color % 256) as u8
}

/// The `stroke` attribute of a colour: none for 0 (black by default),
/// else the gray level of its low byte.
pub open spec fn color_attribute_spec(color: u32) -> Seq<char> {
    if color == 0 {
        Seq::empty()
    } else {
        " stroke=\""@ + gray_hex(low_byte(color)) + "\""@
    }
}

/// The `fill` attribute of a colour: black for 0, else the gray level of
/// its low byte.
pub open spec fn fill_attribute_spec(color: u32) -> Seq<char> {
    if color == 0 {
        " fill=\"black\""@
    } else {
        " fill=\""@ + gray_hex(low_byte(color)) + "\""@
    }
}

/// Builds the `stroke` colour attribute of a stroke colour.
pub fn color_attribute(color: u32) -> (s: String)
    ensures
        s@ == color_attribute_spec(color),
{
    if color == 0 {
        return String::new();
    }
    let mut s = String::from_str(" stroke=\"");
    s.append(gray_hex_string((color % 256) as u8).as_str());
    s.append("\"");
    s
}

/// Builds the `fill` colour attribute of a stroke colour.
pub fn fill_attribute(color: u32) -> (s: String)
    ensures
        s@ == fill_attribute_spec(color),
{
    if color == 0 {
        return String::from_str(" fill=\"black\"");
    }
    let mut s = String::from_str(" fill=\"");
    s.append(gray_hex_string((color % 256) as u8).as_str());
    s.append("\"");
    s
}

/// The CSS font family for a device font path, by the file's base name
/// (after the last `/`, before the first `.`).
pub open spec fn font_family_of(font_path: Seq<char>) -> Seq<char> {
    let parts = split_on(font_path, '/');
    let base = split_on(parts[parts.len() - 1], '.')[0];
    if base == "Dolce"@ {
        "'Segoe Script', 'Bradley Hand', cursive"@
    } else if base == "Satisfy-Regular"@ {
        "'Satisfy', cursive"@
    } else if base == "851tegakizatsu"@ {
        "'Zen Kurenaido', 'Comic Sans MS', cursive"@
    } else {
        "sans-serif"@
    }
}

/// Maps a Supernote device font path to a CSS font-family string.
pub fn map_font_family(font_path: &str) -> (r: &'static str)
    ensures
        r@ == font_family_of(font_path@),
{
    let parts = split_str(font_path, '/');
    proof {
        crate::text::lemma_split_on_nonempty(font_path@, '/');
    }
    let last = &parts[parts.len() - 1];
    assert(parts@.map_values(|x: String| x@)[parts@.len() - 1] == last@);
    let pieces = split_str(last.as_str(), '.');
    proof {
        crate::text::lemma_split_on_nonempty(last@, '.');
    }
    let base = &pieces[0];
    assert(pieces@.map_values(|x: String| x@)[0] == base@);
    if str_eq(base.as_str(), "Dolce") {
        "'Segoe Script', 'Bradley Hand', cursive"
    } else if str_eq(base.as_str(), "Satisfy-Regular") {
        "'Satisfy', cursive"
    } else if str_eq(base.as_str(), "851tegakizatsu") {
        "'Zen Kurenaido', 'Comic Sans MS', cursive"
    } else {
        "sans-serif"
    }
}

/// The XML escape of one character.
pub open spec fn escape_char(c: char) -> Seq<char> {
    if c == '&' {
        "&amp;"@
    } else if c == '<' {
        "&lt;"@
    } else if c == '>' {
        "&gt;"@
    } else if c == '"' {
        "&quot;"@
    } else {
        seq![c]
    }
}

/// `s` with `&`, `<`, `>` and `"` escaped for XML.
pub open spec fn escape_xml_spec(s: Seq<char>) -> Seq<char>
    decreases s.len(),
{
    if s.len() == 0 {
        Seq::empty()
    } else {
        escape_xml_spec(s.drop_last()) + escape_char(s.last())
    }
}

/// Escaped text holds no `<`, `>` or `"`, so it cannot open or close a
/// tag or end an attribute.
pub proof fn law_escaped_text_has_no_markup(s: Seq<char>)
    ensures
        forall|i: int| 0 <= i < escape_xml_spec(s).len() ==> #[trigger] escape_xml_spec(s)[i] != '<'
            && escape_xml_spec(s)[i] != '>' && escape_xml_spec(s)[i] != '"',
    decreases s.len(),
{
    reveal_strlit("&amp;");
    reveal_strlit("&lt;");
    reveal_strlit("&gt;");
    reveal_strlit("&quot;");
    if s.len() > 0 {
        law_escaped_text_has_no_markup(s.drop_last());
        let a = escape_xml_spec(s.drop_last());
        let b = escape_char(s.last());
        assert forall|i: int| 0 <= i < escape_xml_spec(s).len() implies #[trigger] escape_xml_spec(s)[i] != '<'
            && escape_xml_spec(s)[i] != '>' && escape_xml_spec(s)[i] != '"' by {
            if i < a.len() {
                assert(escape_xml_spec(s)[i] == a[i]);
            } else {
                assert(escape_xml_spec(s)[i] == b[i - a.len()]);
            }
        }
    }
}

/// Text without `&`, `<`, `>` or `"` is left as it is.
pub proof fn law_plain_text_unescaped(s: Seq<char>)
    requires
        forall|i: int| 0 <= i < s.len() ==> #[trigger] s[i] != '&' && s[i] != '<' && s[i] != '>' && s[i] != '"',
    ensures
        escape_xml_spec(s) == s,
    decreases s.len(),
{
    if s.len() > 0 {
        let d = s.drop_last();
        assert forall|i: int| 0 <= i < d.len() implies #[trigger] d[i] != '&' && d[i] != '<' && d[i] != '>' && d[i] != '"' by {
            assert(d[i] == s[i]);
        }
        law_plain_text_unescaped(d);
        assert(s[s.len() - 1] == s.last());
        assert(d + seq![s.last()] =~= s);
    }
}

/// Escapes the XML special characters of a text.
pub fn escape_xml(s: &str) -> (r: String)
    ensures
        r@ == escape_xml_spec(s@),
{
    let chars = str_chars(s);
    let mut r = String::new();
    let mut i: usize = 0;
    while i < chars.len()
        invariant
            i <= chars@.len(),
            chars@ == s@,
            r@ == escape_xml_spec(s@.take(i as int)),
        decreases chars@.len() - i,
    {
        assert(s@.take(i as int + 1).drop_last() =~= s@.take(i as int));
        let c = chars[i];
        if c == '&' {
            r.append("&amp;");
        } else if c == '<' {
            r.append("&lt;");
        } else if c == '>' {
            r.append("&gt;");
        } else if c == '"' {
            r.append("&quot;");
        } else {
            let piece = crate::text::substring(s, i, i + 1);
            assert(piece@ =~= seq![c]);
            r.append(piece.as_str());
        }
        i += 1;
    }
    assert(s@.take(i as int) =~= s@);
    r
}

/// The concatenation of the paths, each followed by a newline.
pub open spec fn lines_of(paths: Seq<Seq<char>>) -> Seq<char>
    decreases paths.len(),
{
    if paths.len() == 0 {
        Seq::empty()
    } else {
        lines_of(paths.drop_last()) + paths.last() + seq!['\n']
    }
}

/// The SVG text that one group of pen strokes and the erasers drawn after
/// them add: the erasers become a mask (numbered `mask`) that hides the
/// pen strokes, which are wrapped in a group using it; without erasers
/// the pen strokes are written as they are.
pub open spec fn group_svg(pens: Seq<Seq<char>>, erasers: Seq<Seq<char>>, mask: u32, phys_w: i64, phys_h: i64) -> Seq<char> {
    let masked = erasers.len() > 0;
    let defs = if masked {
        "<defs><mask id=\"eraser_"@ + decimal(mask as nat)
            + "\" stroke=\"black\" stroke-linejoin=\"round\" stroke-linecap=\"round\" fill=\"none\">\n<rect width=\""@
            + signed_decimal(phys_w as int) + "\" height=\""@ + signed_decimal(phys_h as int)
            + "\" fill=\"white\"/>\n"@ + lines_of(erasers) + "</mask></defs>\n"@
    } else {
        Seq::empty()
    };
    let body = if pens.len() > 0 {
        if masked {
            "<g mask=\"url(#eraser_"@ + decimal(mask as nat) + ")\">"@ + seq!['\n'] + lines_of(pens)
                + "</g>\n"@
        } else {
            lines_of(pens)
        }
    } else {
        Seq::empty()
    };
    defs + body
}

/// Appends each path and a newline.
fn append_lines(svg: &mut String, paths: &Vec<String>)
    ensures
        final(svg)@ == old(svg)@ + lines_of(paths@.map_values(|p: String| p@)),
{
    let ghost ps = paths@.map_values(|p: String| p@);
    let mut i: usize = 0;
    proof {
        reveal_strlit("\n");
    }
    while i < paths.len()
        invariant
            i <= paths@.len(),
            ps == paths@.map_values(|p: String| p@),
            svg@ == old(svg)@ + lines_of(ps.take(i as int)),
            "\n"@ == seq!['\n'],
        decreases paths@.len() - i,
    {
        assert(ps.take(i as int + 1).drop_last() =~= ps.take(i as int));
        svg.append(paths[i].as_str());
        svg.append("\n");
        i += 1;
        assert(svg@ =~= old(svg)@ + lines_of(ps.take(i as int)));
    }
    assert(ps.take(i as int) =~= ps);
}

/// Writes the accumulated pen and eraser paths of a group and empties
/// both lists; the mask counter moves on when the group had erasers.
pub fn flush_group(
    svg: &mut String,
    pen_paths: &mut Vec<String>,
    eraser_paths: &mut Vec<String>,
    mask_count: &mut u32,
    phys_w: i64,
    phys_h: i64,
)
    requires
        old(eraser_paths)@.len() > 0 ==> *old(mask_count) < u32::MAX,
    ensures
        final(svg)@ == old(svg)@ + group_svg(
            old(pen_paths)@.map_values(|p: String| p@),
            old(eraser_paths)@.map_values(|p: String| p@),
            *old(mask_count),
            phys_w,
            phys_h,
        ),
        final(pen_paths)@.len() == 0,
        final(eraser_paths)@.len() == 0,
        *final(mask_count) == if old(eraser_paths)@.len() > 0 {
            (*old(mask_count) + 1) as u32
        } else {
            *old(mask_count)
        },
{
    proof {
        reveal_strlit("\n");
    }
    let ghost pens = pen_paths@.map_values(|p: String| p@);
    let ghost erasers = eraser_paths@.map_values(|p: String| p@);
    let has_erasers = eraser_paths.len() > 0;
    let ghost start = svg@;
    if has_erasers {
        svg.append("<defs><mask id=\"eraser_");
        svg.append(decimal_string(*mask_count as u64).as_str());
        svg.append("\" stroke=\"black\" stroke-linejoin=\"round\" stroke-linecap=\"round\" fill=\"none\">\n<rect width=\"");
        svg.append(signed_decimal_string(phys_w).as_str());
        svg.append("\" height=\"");
        svg.append(signed_decimal_string(phys_h).as_str());
        svg.append("\" fill=\"white\"/>\n");
        append_lines(svg, eraser_paths);
        svg.append("</mask></defs>\n");
    }
    let ghost mid = svg@;
    if pen_paths.len() > 0 {
        if has_erasers {
            svg.append("<g mask=\"url(#eraser_");
            svg.append(decimal_string(*mask_count as u64).as_str());
            svg.append(")\">");
            svg.append("\n");
        }
        append_lines(svg, pen_paths);
        if has_erasers {
            svg.append("</g>\n");
        }
    }
    let ghost defs = if has_erasers {
        "<defs><mask id=\"eraser_"@ + decimal(*mask_count as nat)
            + "\" stroke=\"black\" stroke-linejoin=\"round\" stroke-linecap=\"round\" fill=\"none\">\n<rect width=\""@
            + signed_decimal(phys_w as int) + "\" height=\""@ + signed_decimal(phys_h as int)
            + "\" fill=\"white\"/>\n"@ + lines_of(erasers) + "</mask></defs>\n"@
    } else {
        Seq::empty()
    };
    assert(mid =~= start + defs);
    assert(svg@ =~= start + group_svg(pens, erasers, *mask_count, phys_w, phys_h));
    if has_erasers {
        *mask_count = *mask_count + 1;
    }
    pen_paths.clear();
    eraser_paths.clear();
}

/// How a stroke is drawn.
#[derive(Debug, Clone, Copy, PartialEq, Eq, Structural)]
pub enum PenStyle {
    /// An eraser: a pressure-sensitive path in the eraser mask.
    Eraser,
    /// A needle point (or legacy pen 0): a uniform-width path.
    Uniform,
    /// A marker (or legacy pen 2): a uniform-width path with square ends.
    Marker,
    /// Any other pen: a filled, pressure-sensitive outline.
    Pressure,
}

/// How a stroke of this pen and colour is drawn: the eraser colour wins
/// over the pen type.
pub open spec fn pen_style_spec(pen: u32, color: u32) -> PenStyle {
    if color == COLOR_ERASER {
        PenStyle::Eraser
    } else if pen == PEN_MARKER || pen == 2 {
        PenStyle::Marker
    } else if pen == PEN_NEEDLE_POINT || pen == 0 {
        PenStyle::Uniform
    } else {
        PenStyle::Pressure
    }
}

/// Classifies a stroke by how it is drawn.
pub fn pen_style(pen: u32, color: u32) -> (r: PenStyle)
    ensures
        r == pen_style_spec(pen, color),
{
    if color == COLOR_ERASER {
        PenStyle::Eraser
    } else if pen == PEN_MARKER || pen == 2 {
        PenStyle::Marker
    } else if pen == PEN_NEEDLE_POINT || pen == 0 {
        PenStyle::Uniform
    } else {
        PenStyle::Pressure
    }
}

/// A group of pen strokes and the erasers drawn after them.
pub type MaskGroup = (Seq<usize>, Seq<usize>);

/// The groups closed so far, with the group still open, if it holds anything.
pub open spec fn close_group(groups: Seq<MaskGroup>, pens: Seq<usize>, erasers: Seq<usize>) -> Seq<MaskGroup> {
    if pens.len() == 0 && erasers.len() == 0 {
        groups
    } else {
        groups.push((pens, erasers))
    }
}

/// The grouping after the first `n` strokes of a layer: closed groups, the
/// open group's pens and erasers, and whether the last drawn stroke was an
/// eraser.  Strokes of at most one point are not drawn; a pen stroke after
/// an eraser closes the group.
pub open spec fn mask_prefix(colors: Seq<u32>, counts: Seq<usize>, n: nat) -> (Seq<MaskGroup>, Seq<usize>, Seq<usize>, bool)
    decreases n,
{
    if n == 0 {
        (Seq::empty(), Seq::empty(), Seq::empty(), false)
    } else {
        let (g, p, e, prev) = mask_prefix(colors, counts, (n - 1) as nat);
        let i = (n - 1) as usize;
        if counts[n - 1] <= 1 {
            (g, p, e, prev)
        } else if colors[n - 1] == COLOR_ERASER {
            (g, p, e.push(i), true)
        } else if prev {
            (close_group(g, p, e), seq![i], Seq::empty(), false)
        } else {
            (g, p.push(i), e, false)
        }
    }
}

/// The groups of a layer in drawing order: each run of pen strokes with
/// the erasers drawn right after it.
pub open spec fn eraser_groups_spec(colors: Seq<u32>, counts: Seq<usize>) -> Seq<MaskGroup> {
    let (g, p, e, _) = mask_prefix(colors, counts, colors.len());
    close_group(g, p, e)
}

/// The erasers of groups `k` onward, in drawing order.
pub open spec fn suffix_erasers(gs: Seq<MaskGroup>, k: int) -> Seq<usize>
    decreases gs.len() - k,
{
    if k < 0 || k >= gs.len() {
        Seq::empty()
    } else {
        gs[k].1 + suffix_erasers(gs, k + 1)
    }
}

/// The mask groups of a layer, in drawing order: each run of pen strokes
/// with every eraser drawn after it in the layer, since an eraser hides
/// everything drawn beneath it.
pub open spec fn mask_groups_spec(colors: Seq<u32>, counts: Seq<usize>) -> Seq<MaskGroup> {
    let eg = eraser_groups_spec(colors, counts);
    Seq::new(eg.len(), |k: int| (eg[k].0, suffix_erasers(eg, k)))
}

/// The strokes of the groups in drawing order: each group's pen strokes,
/// then its erasers.
pub open spec fn group_order(groups: Seq<MaskGroup>) -> Seq<usize>
    decreases groups.len(),
{
    if groups.len() == 0 {
        Seq::empty()
    } else {
        group_order(groups.drop_last()) + groups.last().0 + groups.last().1
    }
}

/// The indices among the first `n` strokes that have more than one point.
pub open spec fn drawn(counts: Seq<usize>, n: nat) -> Seq<usize>
    decreases n,
{
    if n == 0 {
        Seq::empty()
    } else if counts[n - 1] > 1 {
        drawn(counts, (n - 1) as nat).push((n - 1) as usize)
    } else {
        drawn(counts, (n - 1) as nat)
    }
}

/// A group is well made: its pen strokes are not erasers, its erasers
/// are, and every pen stroke comes before every eraser.
pub open spec fn group_ok(colors: Seq<u32>, pens: Seq<usize>, erasers: Seq<usize>) -> bool {
    &&& forall|a: int| 0 <= a < pens.len() ==> #[trigger] colors[pens[a] as int] != COLOR_ERASER
    &&& forall|b: int| 0 <= b < erasers.len() ==> #[trigger] colors[erasers[b] as int] == COLOR_ERASER
    &&& forall|a: int, b: int| 0 <= a < pens.len() && 0 <= b < erasers.len() ==> #[trigger] pens[a] < #[trigger] erasers[b]
}

proof fn lemma_close_group(colors: Seq<u32>, groups: Seq<MaskGroup>, p: Seq<usize>, e: Seq<usize>)
    requires
        forall|k: int| 0 <= k < groups.len() ==> group_ok(colors, #[trigger] groups[k].0, groups[k].1),
        group_ok(colors, p, e),
    ensures
        group_order(close_group(groups, p, e)) == group_order(groups) + p + e,
        forall|k: int| 0 <= k < close_group(groups, p, e).len() ==> group_ok(colors, #[trigger] close_group(groups, p, e)[k].0, close_group(groups, p, e)[k].1),
{
    if p.len() == 0 && e.len() == 0 {
        assert(group_order(groups) + p + e =~= group_order(groups));
    } else {
        assert(groups.push((p, e)).drop_last() =~= groups);
    }
}

proof fn lemma_mask_prefix(colors: Seq<u32>, counts: Seq<usize>, n: nat)
    requires
        n <= colors.len(),
        colors.len() == counts.len(),
        colors.len() <= usize::MAX,
    ensures
        ({
            let (g, p, e, prev) = mask_prefix(colors, counts, n);
            &&& group_order(g) + p + e == drawn(counts, n)
            &&& forall|k: int| 0 <= k < g.len() ==> group_ok(colors, #[trigger] g[k].0, g[k].1)
            &&& group_ok(colors, p, e)
            &&& !prev ==> e.len() == 0
            &&& forall|a: int| 0 <= a < p.len() ==> #[trigger] p[a] < n
            &&& forall|b: int| 0 <= b < e.len() ==> #[trigger] e[b] < n
        }),
    decreases n,
{
    if n > 0 {
        lemma_mask_prefix(colors, counts, (n - 1) as nat);
        let (g, p, e, prev) = mask_prefix(colors, counts, (n - 1) as nat);
        let i = (n - 1) as usize;
        assert(i as int == n - 1);
        if counts[n - 1] <= 1 {
        } else if colors[n - 1] == COLOR_ERASER {
            let e2 = e.push(i);
            assert(group_order(g) + p + e2 =~= (group_order(g) + p + e).push(i));
            assert forall|a: int, b: int| 0 <= a < p.len() && 0 <= b < e2.len() implies #[trigger] p[a] < #[trigger] e2[b] by {
                if b < e.len() {
                    assert(e2[b] == e[b]);
                } else {
                    assert(e2[b] == i);
                    assert(p[a] < n - 1);
                }
            }
            assert forall|b: int| 0 <= b < e2.len() implies #[trigger] colors[e2[b] as int] == COLOR_ERASER by {
                if b < e.len() {
                    assert(e2[b] == e[b]);
                } else {
                    assert(e2[b] == i);
                }
            }
        } else if prev {
            lemma_close_group(colors, g, p, e);
            let g2 = close_group(g, p, e);
            assert(group_order(g2) + seq![i] + Seq::<usize>::empty() =~= (group_order(g) + p + e).push(i));
        } else {
            let p2 = p.push(i);
            assert(group_order(g) + p2 + e =~= (group_order(g) + p + e).push(i));
            assert forall|a: int| 0 <= a < p2.len() implies #[trigger] colors[p2[a] as int] != COLOR_ERASER by {
                if a < p.len() {
                    assert(p2[a] == p[a]);
                } else {
                    assert(p2[a] == i);
                }
            }
        }
    }
}

/// The strokes of a group: its pen strokes, then its erasers.
pub open spec fn group_strokes(gr: MaskGroup) -> Seq<usize> {
    gr.0 + gr.1
}

/// Every stroke of an earlier group comes before every stroke of a later one.
pub open spec fn groups_ordered(gs: Seq<MaskGroup>) -> bool {
    forall|j1: int, j2: int, x: int, y: int|
        0 <= j1 < j2 < gs.len() && 0 <= x < group_strokes(gs[j1]).len() && 0 <= y < group_strokes(gs[j2]).len()
            ==> #[trigger] group_strokes(gs[j1])[x] < #[trigger] group_strokes(gs[j2])[y]
}

/// Every stroke of the groups comes before every stroke of `open`.
pub open spec fn groups_before(gs: Seq<MaskGroup>, open: Seq<usize>) -> bool {
    forall|j: int, x: int, y: int|
        0 <= j < gs.len() && 0 <= x < group_strokes(gs[j]).len() && 0 <= y < open.len()
            ==> #[trigger] group_strokes(gs[j])[x] < #[trigger] open[y]
}

/// Every stroke of the groups is below `n`.
pub open spec fn groups_below(gs: Seq<MaskGroup>, n: nat) -> bool {
    forall|j: int, x: int| 0 <= j < gs.len() && 0 <= x < group_strokes(gs[j]).len() ==> #[trigger] group_strokes(gs[j])[x] < n
}

proof fn lemma_mask_prefix_order(colors: Seq<u32>, counts: Seq<usize>, n: nat)
    requires
        n <= colors.len(),
        colors.len() == counts.len(),
        colors.len() <= usize::MAX,
    ensures
        ({
            let (g, p, e, prev) = mask_prefix(colors, counts, n);
            &&& groups_ordered(g)
            &&& groups_before(g, p + e)
            &&& groups_below(g, n)
            &&& prev ==> e.len() > 0
            &&& forall|y: int| 0 <= y < (p + e).len() ==> #[trigger] (p + e)[y] < n
        }),
    decreases n,
{
    if n > 0 {
        lemma_mask_prefix_order(colors, counts, (n - 1) as nat);
        let (g, p, e, prev) = mask_prefix(colors, counts, (n - 1) as nat);
        let i = (n - 1) as usize;
        assert(i as int == n - 1);
        if counts[n - 1] <= 1 {
        } else if colors[n - 1] == COLOR_ERASER {
            let e2 = e.push(i);
            assert(p + e2 =~= (p + e).push(i));
            assert forall|j: int, x: int, y: int|
                0 <= j < g.len() && 0 <= x < group_strokes(g[j]).len() && 0 <= y < (p + e2).len()
                    implies #[trigger] group_strokes(g[j])[x] < #[trigger] (p + e2)[y] by {
                if y < (p + e).len() {
                    assert((p + e2)[y] == (p + e)[y]);
                }
            }
            assert forall|y: int| 0 <= y < (p + e2).len() implies #[trigger] (p + e2)[y] < n by {
                if y < (p + e).len() {
                    assert((p + e2)[y] == (p + e)[y]);
                }
            }
        } else if prev {
            let g2 = close_group(g, p, e);
            assert(g2 == g.push((p, e)));
            let open = seq![i] + Seq::<usize>::empty();
            assert(open =~= seq![i]);
            assert(group_strokes(g2[g.len() as int]) == p + e);
            assert forall|j1: int, j2: int, x: int, y: int|
                0 <= j1 < j2 < g2.len() && 0 <= x < group_strokes(g2[j1]).len() && 0 <= y < group_strokes(g2[j2]).len()
                    implies #[trigger] group_strokes(g2[j1])[x] < #[trigger] group_strokes(g2[j2])[y] by {
                assert(g2[j1] == g[j1]);
                if j2 < g.len() {
                    assert(g2[j2] == g[j2]);
                }
            }
            assert forall|j: int, x: int, y: int|
                0 <= j < g2.len() && 0 <= x < group_strokes(g2[j]).len() && 0 <= y < open.len()
                    implies #[trigger] group_strokes(g2[j])[x] < #[trigger] open[y] by {
                if j < g.len() {
                    assert(g2[j] == g[j]);
                }
            }
            assert forall|j: int, x: int| 0 <= j < g2.len() && 0 <= x < group_strokes(g2[j]).len()
                implies #[trigger] group_strokes(g2[j])[x] < n by {
                if j < g.len() {
                    assert(g2[j] == g[j]);
                }
            }
        } else {
            let p2 = p.push(i);
            assert(e.len() == 0) by {
                lemma_mask_prefix(colors, counts, (n - 1) as nat);
            }
            assert(p2 + e =~= (p + e).push(i));
            assert forall|j: int, x: int, y: int|
                0 <= j < g.len() && 0 <= x < group_strokes(g[j]).len() && 0 <= y < (p2 + e).len()
                    implies #[trigger] group_strokes(g[j])[x] < #[trigger] (p2 + e)[y] by {
                if y < (p + e).len() {
                    assert((p2 + e)[y] == (p + e)[y]);
                }
            }
            assert forall|y: int| 0 <= y < (p2 + e).len() implies #[trigger] (p2 + e)[y] < n by {
                if y < (p + e).len() {
                    assert((p2 + e)[y] == (p + e)[y]);
                }
            }
        }
    }
}

/// Grouping keeps the drawing order: the groups' pen strokes and erasers,
/// read group by group, are exactly the strokes that are drawn (those
/// with more than one point), in their order; and within a group the
/// erasers come after every pen stroke.
pub proof fn law_eraser_groups_keep_drawing_order(colors: Seq<u32>, counts: Seq<usize>)
    requires
        colors.len() == counts.len(),
        colors.len() <= usize::MAX,
    ensures
        group_order(eraser_groups_spec(colors, counts)) == drawn(counts, counts.len()),
        forall|k: int| 0 <= k < eraser_groups_spec(colors, counts).len() ==> group_ok(colors, #[trigger] eraser_groups_spec(colors, counts)[k].0, eraser_groups_spec(colors, counts)[k].1),
{
    lemma_mask_prefix(colors, counts, colors.len());
    let (g, p, e, _) = mask_prefix(colors, counts, colors.len());
    lemma_close_group(colors, g, p, e);
}

/// Splits the strokes of one layer (given by colour and point count) into
/// runs of pen strokes, each with the erasers drawn right after it.
fn eraser_groups(colors: &[u32], point_counts: &[usize]) -> (r: Vec<(Vec<usize>, Vec<usize>)>)
    requires
        colors@.len() == point_counts@.len(),
    ensures
        r@.map_values(|g: (Vec<usize>, Vec<usize>)| (g.0@, g.1@)) == eraser_groups_spec(colors@, point_counts@),
{
    let mut groups: Vec<(Vec<usize>, Vec<usize>)> = Vec::new();
    let mut pens: Vec<usize> = Vec::new();
    let mut erasers: Vec<usize> = Vec::new();
    let mut prev = false;
    let mut i: usize = 0;
    while i < colors.len()
        invariant
            i <= colors@.len(),
            colors@.len() == point_counts@.len(),
            ({
                let (g, p, e, pv) = mask_prefix(colors@, point_counts@, i as nat);
                &&& groups@.map_values(|g: (Vec<usize>, Vec<usize>)| (g.0@, g.1@)) == g
                &&& pens@ == p
                &&& erasers@ == e
                &&& prev == pv
            }),
        decreases colors@.len() - i,
    {
        if point_counts[i] > 1 {
            if colors[i] == COLOR_ERASER {
                erasers.push(i);
                prev = true;
            } else if prev {
                let ghost old_groups = groups@;
                if pens.len() > 0 || erasers.len() > 0 {
                    let mut p: Vec<usize> = Vec::new();
                    let mut e: Vec<usize> = Vec::new();
                    std::mem::swap(&mut p, &mut pens);
                    std::mem::swap(&mut e, &mut erasers);
                    groups.push((p, e));
                    assert(groups@.map_values(|g: (Vec<usize>, Vec<usize>)| (g.0@, g.1@)) =~= old_groups.map_values(|g: (Vec<usize>, Vec<usize>)| (g.0@, g.1@)).push((p@, e@)));
                }
                pens = Vec::new();
                erasers = Vec::new();
                pens.push(i);
                assert(pens@ =~= seq![i]);
                assert(erasers@ =~= Seq::<usize>::empty());
                prev = false;
            } else {
                pens.push(i);
                prev = false;
            }
        }
        i += 1;
    }
    if pens.len() > 0 || erasers.len() > 0 {
        let ghost old_groups = groups@;
        groups.push((pens, erasers));
        assert(groups@.map_values(|g: (Vec<usize>, Vec<usize>)| (g.0@, g.1@)) =~= old_groups.map_values(|g: (Vec<usize>, Vec<usize>)| (g.0@, g.1@)).push((pens@, erasers@)));
    }
    groups
}

/// `a` followed by `b`.
fn joined(a: &Vec<usize>, b: &Vec<usize>) -> (r: Vec<usize>)
    ensures
        r@ == a@ + b@,
{
    let mut r: Vec<usize> = Vec::new();
    let mut i: usize = 0;
    while i < a.len()
        invariant
            i <= a@.len(),
            r@ == a@.take(i as int),
        decreases a@.len() - i,
    {
        r.push(a[i]);
        i += 1;
        assert(r@ =~= a@.take(i as int));
    }
    let mut j: usize = 0;
    while j < b.len()
        invariant
            j <= b@.len(),
            i == a@.len(),
            r@ == a@ + b@.take(j as int),
        decreases b@.len() - j,
    {
        r.push(b[j]);
        j += 1;
        assert(r@ =~= a@ + b@.take(j as int));
    }
    assert(a@.take(i as int) =~= a@);
    assert(b@.take(j as int) =~= b@);
    r
}

/// Splits the strokes of one layer (given by colour and point count) into
/// runs of pen strokes, each masked by every eraser drawn after it in the
/// layer.
pub fn mask_groups(colors: &[u32], point_counts: &[usize]) -> (r: Vec<(Vec<usize>, Vec<usize>)>)
    requires
        colors@.len() == point_counts@.len(),
    ensures
        r@.map_values(|g: (Vec<usize>, Vec<usize>)| (g.0@, g.1@)) == mask_groups_spec(colors@, point_counts@),
{
    let mut groups = eraser_groups(colors, point_counts);
    let ghost eg = eraser_groups_spec(colors@, point_counts@);
    let ghost total = groups@.len();
    let mut out: Vec<(Vec<usize>, Vec<usize>)> = Vec::new();
    let mut acc: Vec<usize> = Vec::new();
    let empty: Vec<usize> = Vec::new();
    assert(out@.map_values(|g: (Vec<usize>, Vec<usize>)| (g.0@, g.1@)) =~= Seq::new(
        (total - groups@.len()) as nat,
        |t: int| (eg[groups@.len() + t].0, suffix_erasers(eg, groups@.len() + t)),
    ));
    while groups.len() > 0
        invariant
            eg.len() == total,
            groups@.len() <= total,
            empty@ == Seq::<usize>::empty(),
            forall|k: int| 0 <= k < groups@.len() ==> (#[trigger] groups@[k]).0@ == eg[k].0 && groups@[k].1@ == eg[k].1,
            acc@ == suffix_erasers(eg, groups@.len() as int),
            out@.map_values(|g: (Vec<usize>, Vec<usize>)| (g.0@, g.1@)) == Seq::new(
                (total - groups@.len()) as nat,
                |t: int| (eg[groups@.len() + t].0, suffix_erasers(eg, groups@.len() + t)),
            ),
        decreases groups@.len(),
    {
        let ghost k = groups@.len() - 1;
        let ghost old_out = out@.map_values(|g: (Vec<usize>, Vec<usize>)| (g.0@, g.1@));
        assert(groups@[k].0@ == eg[k].0 && groups@[k].1@ == eg[k].1);
        let (pens, erasers) = groups.pop().unwrap();
        acc = joined(&erasers, &acc);
        assert(acc@ == suffix_erasers(eg, k));
        let mask = joined(&acc, &empty);
        assert(mask@ =~= acc@);
        let ghost pv = pens@;
        let ghost ov = out@;
        out.insert(0, (pens, mask));
        assert(out@ == ov.insert(0, out@[0]));
        let ghost nv = out@.map_values(|g: (Vec<usize>, Vec<usize>)| (g.0@, g.1@));
        assert(old_out.len() == total - (k + 1));
        assert(nv.len() == old_out.len() + 1);
        assert(groups@.len() == k);
        assert forall|t: int| 0 <= t < nv.len() implies nv[t] == (eg[k + t].0, suffix_erasers(eg, k + t)) by {
            if t == 0 {
                assert(nv[0] == (pv, acc@));
            } else {
                assert(out@[t] == ov[t - 1]);
                assert(nv[t] == old_out[t - 1]);
                assert(old_out[t - 1] == (eg[k + 1 + (t - 1)].0, suffix_erasers(eg, k + 1 + (t - 1))));
            }
        }
        assert(nv =~= Seq::new(
            (total - groups@.len()) as nat,
            |t: int| (eg[groups@.len() + t].0, suffix_erasers(eg, groups@.len() + t)),
        ));
    }
    assert(out@.map_values(|g: (Vec<usize>, Vec<usize>)| (g.0@, g.1@)) =~= mask_groups_spec(colors@, point_counts@));
    out
}

proof fn lemma_group_order_members(gs: Seq<MaskGroup>, x: usize)
    ensures
        group_order(gs).contains(x) <==> exists|j: int, y: int|
            0 <= j < gs.len() && 0 <= y < group_strokes(gs[j]).len() && #[trigger] group_strokes(gs[j])[y] == x,
    decreases gs.len(),
{
    if gs.len() > 0 {
        let init = gs.drop_last();
        lemma_group_order_members(init, x);
        let last = gs.last();
        assert(group_order(gs) =~= group_order(init) + group_strokes(last));
        if group_order(gs).contains(x) {
            let i = choose|i: int| 0 <= i < group_order(gs).len() && group_order(gs)[i] == x;
            if i < group_order(init).len() {
                assert(group_order(init)[i] == x);
                assert(group_order(init).contains(x));
                let (j, y) = choose|j: int, y: int|
                    0 <= j < init.len() && 0 <= y < group_strokes(init[j]).len() && #[trigger] group_strokes(init[j])[y] == x;
                assert(init[j] == gs[j]);
                assert(group_strokes(gs[j])[y] == x);
            } else {
                let y = i - group_order(init).len();
                assert(group_strokes(gs[gs.len() - 1])[y] == x);
            }
        }
        if exists|j: int, y: int| 0 <= j < gs.len() && 0 <= y < group_strokes(gs[j]).len() && #[trigger] group_strokes(gs[j])[y] == x {
            let (j, y) = choose|j: int, y: int|
                0 <= j < gs.len() && 0 <= y < group_strokes(gs[j]).len() && #[trigger] group_strokes(gs[j])[y] == x;
            if j < gs.len() - 1 {
                assert(init[j] == gs[j]);
                assert(group_strokes(init[j])[y] == x);
                assert(group_order(init).contains(x));
                let i = choose|i: int| 0 <= i < group_order(init).len() && group_order(init)[i] == x;
                assert(group_order(gs)[i] == x);
            } else {
                let i = group_order(init).len() + y;
                assert(group_order(gs)[i] == x);
            }
        }
    }
}

proof fn lemma_drawn_members(counts: Seq<usize>, n: nat, x: usize)
    requires
        n <= counts.len(),
        counts.len() <= usize::MAX,
    ensures
        drawn(counts, n).contains(x) <==> (x < n && counts[x as int] > 1),
    decreases n,
{
    if n > 0 {
        lemma_drawn_members(counts, (n - 1) as nat, x);
        let d = drawn(counts, (n - 1) as nat);
        let i = (n - 1) as usize;
        assert(i as int == n - 1);
        if counts[n - 1] > 1 {
            let d2 = d.push(i);
            if d2.contains(x) {
                let t = choose|t: int| 0 <= t < d2.len() && d2[t] == x;
                if t < d.len() {
                    assert(d[t] == x);
                }
            }
            if d.contains(x) {
                let t = choose|t: int| 0 <= t < d.len() && d[t] == x;
                assert(d2[t] == x);
            }
            if x == i {
                assert(d2[d.len() as int] == x);
            }
        }
    }
}

proof fn lemma_suffix_erasers_members(gs: Seq<MaskGroup>, k: int, x: usize)
    requires
        0 <= k,
    ensures
        suffix_erasers(gs, k).contains(x) <==> exists|j: int, b: int|
            k <= j < gs.len() && 0 <= b < gs[j].1.len() && #[trigger] gs[j].1[b] == x,
    decreases gs.len() - k,
{
    if k < gs.len() {
        lemma_suffix_erasers_members(gs, k + 1, x);
        let head = gs[k].1;
        let rest = suffix_erasers(gs, k + 1);
        let s = suffix_erasers(gs, k);
        assert(s == head + rest);
        if s.contains(x) {
            let t = choose|t: int| 0 <= t < s.len() && s[t] == x;
            if t < head.len() {
                assert(gs[k].1[t] == x);
            } else {
                assert(rest[t - head.len()] == x);
                assert(rest.contains(x));
            }
        }
        if exists|j: int, b: int| k <= j < gs.len() && 0 <= b < gs[j].1.len() && #[trigger] gs[j].1[b] == x {
            let (j, b) = choose|j: int, b: int| k <= j < gs.len() && 0 <= b < gs[j].1.len() && #[trigger] gs[j].1[b] == x;
            if j == k {
                assert(s[b] == x);
            } else {
                assert(gs[j].1[b] == x);
                assert(rest.contains(x));
                let t = choose|t: int| 0 <= t < rest.len() && rest[t] == x;
                assert(s[head.len() + t] == x);
            }
        }
    }
}

proof fn lemma_eraser_groups_ordered(colors: Seq<u32>, counts: Seq<usize>)
    requires
        colors.len() == counts.len(),
        colors.len() <= usize::MAX,
    ensures
        groups_ordered(eraser_groups_spec(colors, counts)),
{
    lemma_mask_prefix_order(colors, counts, colors.len());
    let (g, p, e, _) = mask_prefix(colors, counts, colors.len());
    if !(p.len() == 0 && e.len() == 0) {
        let g2 = g.push((p, e));
        assert(group_strokes(g2[g.len() as int]) == p + e);
        assert forall|j1: int, j2: int, x: int, y: int|
            0 <= j1 < j2 < g2.len() && 0 <= x < group_strokes(g2[j1]).len() && 0 <= y < group_strokes(g2[j2]).len()
                implies #[trigger] group_strokes(g2[j1])[x] < #[trigger] group_strokes(g2[j2])[y] by {
            assert(g2[j1] == g[j1]);
            if j2 < g.len() {
                assert(g2[j2] == g[j2]);
            }
        }
    }
}

/// An eraser hides every pen stroke drawn before it in its layer and none
/// drawn after it: for any pen stroke of a mask group, a stroke of the
/// layer is in that group's mask exactly when it is a drawn eraser (more
/// than one point) that comes after the pen stroke.
pub proof fn law_erasers_mask_earlier_pens(colors: Seq<u32>, counts: Seq<usize>, k: int, a: int, e: int)
    requires
        colors.len() == counts.len(),
        colors.len() <= usize::MAX,
        0 <= k < mask_groups_spec(colors, counts).len(),
        0 <= a < mask_groups_spec(colors, counts)[k].0.len(),
        0 <= e < colors.len(),
    ensures
        mask_groups_spec(colors, counts)[k].1.contains(e as usize) <==> (
            mask_groups_spec(colors, counts)[k].0[a] < e && counts[e] > 1 && colors[e] == COLOR_ERASER),
{
    let eg = eraser_groups_spec(colors, counts);
    let x = e as usize;
    assert(x as int == e);
    law_eraser_groups_keep_drawing_order(colors, counts);
    lemma_eraser_groups_ordered(colors, counts);
    lemma_group_order_members(eg, x);
    lemma_drawn_members(counts, counts.len(), x);
    lemma_suffix_erasers_members(eg, k, x);
    let mg = mask_groups_spec(colors, counts);
    assert(mg[k] == (eg[k].0, suffix_erasers(eg, k)));
    let pa = eg[k].0[a];
    assert(group_strokes(eg[k])[a] == pa);
    assert(group_ok(colors, eg[k].0, eg[k].1));
    if mg[k].1.contains(x) {
        let (j, b) = choose|j: int, b: int| k <= j < eg.len() && 0 <= b < eg[j].1.len() && #[trigger] eg[j].1[b] == x;
        assert(group_ok(colors, eg[j].0, eg[j].1));
        assert(colors[eg[j].1[b] as int] == COLOR_ERASER);
        let y = eg[j].0.len() + b;
        assert(group_strokes(eg[j])[y] == x);
        if j == k {
            assert(eg[k].0[a] < eg[k].1[b]);
        } else {
            assert(group_strokes(eg[k])[a] < group_strokes(eg[j])[y]);
        }
    }
    if pa < e && counts[e] > 1 && colors[e] == COLOR_ERASER {
        assert(drawn(counts, counts.len()).contains(x));
        let (j, y) = choose|j: int, y: int|
            0 <= j < eg.len() && 0 <= y < group_strokes(eg[j]).len() && #[trigger] group_strokes(eg[j])[y] == x;
        assert(group_ok(colors, eg[j].0, eg[j].1));
        if y < eg[j].0.len() {
            assert(group_strokes(eg[j])[y] == eg[j].0[y]);
            assert(colors[eg[j].0[y] as int] != COLOR_ERASER);
        } else {
            let b = y - eg[j].0.len();
            assert(eg[j].1[b] == x);
            if j < k {
                assert(group_strokes(eg[j])[y] < group_strokes(eg[k])[a]);
            }
            assert(k <= j);
        }
    }
}

/// The SVG position of a point: `x` mirrored across the page width.
pub open spec fn svg_x(p: ScreenCoord, phys_w: i64) -> int {
    phys_w - p.x
}

/// `x,y` of point `p` in SVG coordinates.
pub open spec fn point_text(p: ScreenCoord, phys_w: i64) -> Seq<char> {
    signed_decimal(svg_x(p, phys_w)) + seq![','] + signed_decimal(p.y as int)
}

/// A `<path>` element of the given width, extra attributes and path data.
pub open spec fn path_element(width: u32, attrs: Seq<char>, d: Seq<char>) -> Seq<char> {
    "<path stroke-width=\""@ + decimal(width as nat) + "\""@ + attrs + " d=\""@ + d + "\"/>"@
}

/// The arithmetic of a pressure path stays within `i64`: every mirrored
/// `x` and every step between neighbouring points.
pub open spec fn path_fits(points: Seq<ScreenCoord>, phys_w: i64) -> bool {
    &&& forall|i: int| 0 <= i < points.len() ==> i64::MIN <= #[trigger] svg_x(points[i], phys_w) <= i64::MAX
    &&& forall|i: int| 1 <= i < points.len() ==> i64::MIN <= #[trigger] svg_x(points[i], phys_w) - svg_x(points[i - 1], phys_w) <= i64::MAX
}

/// The finished paths, the path being written and its width after the
/// first `k >= 1` points of a pressure stroke.  A path starts with an
/// absolute move; every further point is a relative line; a change of
/// width ends the path and starts the next one at the previous point.
pub open spec fn pressure_prefix(points: Seq<ScreenCoord>, widths: Seq<u32>, phys_w: i64, attrs: Seq<char>, k: nat) -> (Seq<Seq<char>>, Seq<char>, u32)
    decreases k,
{
    if k <= 1 {
        (Seq::empty(), "M "@ + point_text(points[0], phys_w), widths[0])
    } else {
        let (ps, d, prev) = pressure_prefix(points, widths, phys_w, attrs, (k - 1) as nat);
        let i = k - 1;
        let cur = widths[i];
        let (ps2, d2) = if cur != prev {
            (ps.push(path_element(prev, attrs, d)), "M "@ + point_text(points[i - 1], phys_w))
        } else {
            (ps, d)
        };
        let dx = svg_x(points[i], phys_w) - svg_x(points[i - 1], phys_w);
        let dy = points[i].y - points[i - 1].y;
        (ps2, d2 + " l "@ + signed_decimal(dx) + seq![','] + signed_decimal(dy), cur)
    }
}

/// The `<path>` elements of a pressure stroke whose point `i` has stroke
/// width `widths[i]`.
pub open spec fn pressure_paths_spec(points: Seq<ScreenCoord>, widths: Seq<u32>, phys_w: i64, attrs: Seq<char>) -> Seq<Seq<char>> {
    let (ps, d, w) = pressure_prefix(points, widths, phys_w, attrs, points.len());
    ps.push(path_element(w, attrs, d))
}

/// Whether the arithmetic of [`pressure_paths`] stays within `i64` for
/// these points; exactly what its `requires` asks of them.
pub fn path_fits_exec(points: &[ScreenCoord], phys_w: i64) -> (r: bool)
    ensures
        r == path_fits(points@, phys_w),
{
    let mut i: usize = 0;
    while i < points.len()
        invariant
            i <= points@.len(),
            forall|k: int| 0 <= k < i ==> i64::MIN <= #[trigger] svg_x(points@[k], phys_w) <= i64::MAX,
            forall|k: int| 1 <= k < i ==> i64::MIN <= #[trigger] svg_x(points@[k], phys_w) - svg_x(points@[k - 1], phys_w) <= i64::MAX,
        decreases points@.len() - i,
    {
        let x = phys_w as i128 - points[i].x as i128;
        if x < i64::MIN as i128 || x > i64::MAX as i128 {
            assert(!(i64::MIN <= svg_x(points@[i as int], phys_w) <= i64::MAX));
            return false;
        }
        if i > 0 {
            let px = phys_w as i128 - points[i - 1].x as i128;
            let dx = x - px;
            if dx < i64::MIN as i128 || dx > i64::MAX as i128 {
                assert(!(i64::MIN <= svg_x(points@[i as int], phys_w) - svg_x(points@[i as int - 1], phys_w) <= i64::MAX));
                return false;
            }
        }
        i += 1;
    }
    true
}

/// Appends `x,y` of a point in SVG coordinates.
fn push_point(s: &mut String, p: ScreenCoord, phys_w: i64)
    requires
        i64::MIN <= svg_x(p, phys_w) <= i64::MAX,
    ensures
        final(s)@ == old(s)@ + point_text(p, phys_w),
{
    proof {
        reveal_strlit(",");
    }
    s.append(signed_decimal_string(phys_w - p.x as i64).as_str());
    s.append(",");
    s.append(signed_decimal_string(p.y as i64).as_str());
}

/// Builds a `<path>` element.
fn path_string(width: u32, attrs: &str, d: &String) -> (r: String)
    ensures
        r@ == path_element(width, attrs@, d@),
{
    let mut r = String::from_str("<path stroke-width=\"");
    r.append(decimal_string(width as u64).as_str());
    r.append("\"");
    r.append(attrs);
    r.append(" d=\"");
    r.append(d.as_str());
    r.append("\"/>");
    r
}

/// The `<path>` elements of a pressure-sensitive stroke: the stroke is
/// split into paths of one width each, `widths[i]` being the width at
/// point `i`; coordinates are relative after each path's first point.
pub fn pressure_paths(points: &[ScreenCoord], widths: &[u32], phys_w: i64, attrs: &str) -> (r: Vec<String>)
    requires
        points@.len() >= 1,
        widths@.len() == points@.len(),
        path_fits(points@, phys_w),
    ensures
        r@.map_values(|p: String| p@) == pressure_paths_spec(points@, widths@, phys_w, attrs@),
{
    proof {
        reveal_strlit(",");
    }
    let mut paths: Vec<String> = Vec::new();
    let mut d = String::from_str("M ");
    assert(i64::MIN <= svg_x(points@[0], phys_w) <= i64::MAX);
    push_point(&mut d, points[0], phys_w);
    let mut prev = widths[0];
    let mut i: usize = 1;
    while i < points.len()
        invariant
            1 <= i <= points@.len(),
            widths@.len() == points@.len(),
            path_fits(points@, phys_w),
            ({
                let (ps, dd, w) = pressure_prefix(points@, widths@, phys_w, attrs@, i as nat);
                &&& paths@.map_values(|p: String| p@) == ps
                &&& d@ == dd
                &&& prev == w
            }),
        decreases points@.len() - i,
    {
        proof {
            reveal_strlit(",");
        }
        let cur = widths[i];
        if cur != prev {
            let ghost old_paths = paths@;
            let p = path_string(prev, attrs, &d);
            paths.push(p);
            assert(paths@.map_values(|p: String| p@) =~= old_paths.map_values(|p: String| p@).push(p@));
            d = String::from_str("M ");
            assert(i64::MIN <= svg_x(points@[i - 1], phys_w) <= i64::MAX);
            push_point(&mut d, points[i - 1], phys_w);
        }
        prev = cur;
        assert(i64::MIN <= svg_x(points@[i as int], phys_w) <= i64::MAX);
        assert(i64::MIN <= svg_x(points@[i as int], phys_w) - svg_x(points@[i - 1], phys_w) <= i64::MAX);
        let x = phys_w - points[i].x as i64;
        let px = phys_w - points[i - 1].x as i64;
        let dx = x - px;
        let dy = points[i].y as i64 - points[i - 1].y as i64;
        d.append(" l ");
        d.append(signed_decimal_string(dx).as_str());
        d.append(",");
        d.append(signed_decimal_string(dy).as_str());
        proof {
            let (ps1, d1, w1) = pressure_prefix(points@, widths@, phys_w, attrs@, (i + 1) as nat);
            assert(d@ =~= d1);
        }
        i += 1;
    }
    let ghost old_paths = paths@;
    let p = path_string(prev, attrs, &d);
    paths.push(p);
    assert(paths@.map_values(|p: String| p@) =~= old_paths.map_values(|p: String| p@).push(p@));
    paths
}

/// ` x,y` for each of the first `k` points.
pub open spec fn polyline_points(points: Seq<ScreenCoord>, phys_w: i64, k: nat) -> Seq<char>
    decreases k,
{
    if k == 0 {
        Seq::empty()
    } else {
        polyline_points(points, phys_w, (k - 1) as nat) + seq![' '] + point_text(points[k - 1], phys_w)
    }
}

/// The path data of a uniform-width stroke: `M` and every point.
pub open spec fn polyline_data(points: Seq<ScreenCoord>, phys_w: i64) -> Seq<char> {
    seq!['M'] + polyline_points(points, phys_w, points.len())
}

/// The blend attribute of a stroke: markers darken where they overlap,
/// except the white marker (colour 254), which is opaque.
pub open spec fn blend_attribute_spec(pen: u32, color: u32) -> Seq<char> {
    if (pen == PEN_MARKER || pen == 2) && color != 254 {
        " style=\"mix-blend-mode:darken\""@
    } else {
        Seq::empty()
    }
}

/// The blend attribute of a stroke.
pub fn blend_attribute(pen: u32, color: u32) -> (r: &'static str)
    ensures
        r@ == blend_attribute_spec(pen, color),
{
    if (pen == PEN_MARKER || pen == 2) && color != 254 {
        " style=\"mix-blend-mode:darken\""
    } else {
        proof {
            reveal_strlit("");
        }
        ""
    }
}

/// The `<path>` element of a uniform-width stroke of the given width:
/// its colour and blend attributes and every point as an absolute position.
pub fn uniform_path(points: &[ScreenCoord], phys_w: i64, width: u32, pen: u32, color: u32) -> (r: String)
    requires
        forall|i: int| 0 <= i < points@.len() ==> i64::MIN <= #[trigger] svg_x(points@[i], phys_w) <= i64::MAX,
    ensures
        r@ == path_element(
            width,
            color_attribute_spec(color) + blend_attribute_spec(pen, color),
            polyline_data(points@, phys_w),
        ),
{
    proof {
        reveal_strlit("M");
    }
    let mut d = String::from_str("M");
    let mut i: usize = 0;
    while i < points.len()
        invariant
            i <= points@.len(),
            forall|k: int| 0 <= k < points@.len() ==> i64::MIN <= #[trigger] svg_x(points@[k], phys_w) <= i64::MAX,
            d@ == seq!['M'] + polyline_points(points@, phys_w, i as nat),
        decreases points@.len() - i,
    {
        proof {
            reveal_strlit(" ");
        }
        assert(i64::MIN <= svg_x(points@[i as int], phys_w) <= i64::MAX);
        d.append(" ");
        push_point(&mut d, points[i], phys_w);
        i += 1;
        assert(d@ =~= seq!['M'] + polyline_points(points@, phys_w, i as nat));
    }
    let mut attrs = color_attribute(color);
    attrs.append(blend_attribute(pen, color));
    path_string(width, attrs.as_str(), &d)
}

/// The physical width (screen units) assumed for a page without strokes.
pub const DEFAULT_PHYSICAL_WIDTH: i64 = 11864;

/// The physical height (screen units) assumed for a page without strokes.
pub const DEFAULT_PHYSICAL_HEIGHT: i64 = 15819;

/// The physical size of a page: that of its first stroke's screen, or the
/// default size when the page has no strokes.
pub open spec fn physical_size_of(strokes: Seq<Stroke>) -> (i64, i64) {
    if strokes.len() == 0 {
        (DEFAULT_PHYSICAL_WIDTH, DEFAULT_PHYSICAL_HEIGHT)
    } else {
        (strokes[0].screen_width as i64, strokes[0].screen_height as i64)
    }
}

/// The physical size (screen units) that a page's strokes are drawn in.
pub fn page_physical_size(strokes: &[Stroke]) -> (r: (i64, i64))
    ensures
        r == physical_size_of(strokes@),
{
    if strokes.len() == 0 {
        (DEFAULT_PHYSICAL_WIDTH, DEFAULT_PHYSICAL_HEIGHT)
    } else {
        (strokes[0].screen_width as i64, strokes[0].screen_height as i64)
    }
}

/// The opening of a page's SVG: the outer picture in pixels with a white
/// background, the inner picture in physical units, and the group that
/// sets the common stroke attributes.
pub open spec fn svg_frame_spec(pixel_w: u32, pixel_h: u32, phys_w: i64, phys_h: i64) -> Seq<char> {
    "<svg viewBox=\"0 0 "@ + decimal(pixel_w as nat) + " "@ + decimal(pixel_h as nat)
        + "\" xmlns=\"http://www.w3.org/2000/svg\">\n<rect width=\""@ + decimal(pixel_w as nat)
        + "\" height=\""@ + decimal(pixel_h as nat) + "\" fill=\"white\"/>\n<svg viewBox=\"0 0 "@
        + signed_decimal(phys_w as int) + " "@ + signed_decimal(phys_h as int)
        + "\">\n<g stroke-linejoin=\"round\" stroke-linecap=\"round\" stroke=\"black\" fill=\"none\">\n"@
}

/// Writes the opening of a page's SVG for a page of `pixel_w` x `pixel_h`
/// pixels whose strokes are in a `phys_w` x `phys_h` physical space.
pub fn svg_page_frame(pixel_w: u32, pixel_h: u32, phys_w: i64, phys_h: i64) -> (s: String)
    ensures
        s@ == svg_frame_spec(pixel_w, pixel_h, phys_w, phys_h),
{
    let mut s = String::new();
    s.append("<svg viewBox=\"0 0 ");
    s.append(decimal_string(pixel_w as u64).as_str());
    s.append(" ");
    s.append(decimal_string(pixel_h as u64).as_str());
    s.append("\" xmlns=\"http://www.w3.org/2000/svg\">\n<rect width=\"");
    s.append(decimal_string(pixel_w as u64).as_str());
    s.append("\" height=\"");
    s.append(decimal_string(pixel_h as u64).as_str());
    s.append("\" fill=\"white\"/>\n<svg viewBox=\"0 0 ");
    s.append(signed_decimal_string(phys_w).as_str());
    s.append(" ");
    s.append(signed_decimal_string(phys_h).as_str());
    s.append("\">\n<g stroke-linejoin=\"round\" stroke-linecap=\"round\" stroke=\"black\" fill=\"none\">\n");
    assert(s@ =~= svg_frame_spec(pixel_w, pixel_h, phys_w, phys_h));
    s
}

/// The opening of an SVG that shows the part of a page's physical space
/// from `(x, y)` with size `w` x `h`, in a picture of `out_w` x `out_h`
/// pixels with a white background.
pub open spec fn svg_view_frame_spec(out_w: u32, out_h: u32, x: i64, y: i64, w: i64, h: i64) -> Seq<char> {
    "<svg viewBox=\"0 0 "@ + decimal(out_w as nat) + " "@ + decimal(out_h as nat)
        + "\" xmlns=\"http://www.w3.org/2000/svg\">\n<rect width=\""@ + decimal(out_w as nat)
        + "\" height=\""@ + decimal(out_h as nat) + "\" fill=\"white\"/>\n<svg viewBox=\""@
        + signed_decimal(x as int) + " "@ + signed_decimal(y as int) + " "@ + signed_decimal(w as int) + " "@
        + signed_decimal(h as int)
        + "\">\n<g stroke-linejoin=\"round\" stroke-linecap=\"round\" stroke=\"black\" fill=\"none\">\n"@
}

/// Writes the opening of an SVG that shows part of a page: the inner
/// picture's view box starts at `(x, y)` and has size `w` x `h` in
/// physical units; the outer picture is `out_w` x `out_h` pixels.
pub fn svg_view_frame(out_w: u32, out_h: u32, x: i64, y: i64, w: i64, h: i64) -> (s: String)
    ensures
        s@ == svg_view_frame_spec(out_w, out_h, x, y, w, h),
{
    let mut s = String::new();
    s.append("<svg viewBox=\"0 0 ");
    s.append(decimal_string(out_w as u64).as_str());
    s.append(" ");
    s.append(decimal_string(out_h as u64).as_str());
    s.append("\" xmlns=\"http://www.w3.org/2000/svg\">\n<rect width=\"");
    s.append(decimal_string(out_w as u64).as_str());
    s.append("\" height=\"");
    s.append(decimal_string(out_h as u64).as_str());
    s.append("\" fill=\"white\"/>\n<svg viewBox=\"");
    s.append(signed_decimal_string(x).as_str());
    s.append(" ");
    s.append(signed_decimal_string(y).as_str());
    s.append(" ");
    s.append(signed_decimal_string(w).as_str());
    s.append(" ");
    s.append(signed_decimal_string(h).as_str());
    s.append("\">\n<g stroke-linejoin=\"round\" stroke-linecap=\"round\" stroke=\"black\" fill=\"none\">\n");
    assert(s@ =~= svg_view_frame_spec(out_w, out_h, x, y, w, h));
    s
}

} // verus!
