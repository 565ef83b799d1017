pub mod metadata;
pub mod record_layout;
pub mod rle;
pub mod stroke;

use vstd::prelude::*;
use vstd::string::StringSliceAdditionalSpecFns;
use vstd::utf8::*;

use crate::bytes::{block_frame, law_block_frame_read_back, le_bytes, le_u32, read_le_u32, BlockFrame};
use crate::error::Error;
use crate::text::{decimal, decimal_string, is_prefix, parse_uint, parse_usize, split_on, split_str, starts_with, str_eq, str_from_utf8, substring};
use self::stroke::{parse_totalpath, totalpath_spec, Stroke, TextBox};
use self::metadata::{
    address_value, first_or, metadata_block, read_metadata_block, values_of, MetaTable, Metadata,
    MetadataExt,
};

verus! {

/// The layer keys of a layered (X-series) page, in file order.
pub open spec fn layer_key_spec(i: int) -> Seq<char> {
    if i == 0 {
        "MAINLAYER"@
    } else if i == 1 {
        "LAYER1"@
    } else if i == 2 {
        "LAYER2"@
    } else if i == 3 {
        "LAYER3"@
    } else {
        "BGLAYER"@
    }
}

/// The number of layer keys.
pub open spec fn layer_count() -> nat {
    5
}

fn layer_key(i: usize) -> (k: &'static str)
    requires
        i < 5,
    ensures
        k@ == layer_key_spec(i as int),
{
    match i {
        0 => "MAINLAYER",
        1 => "LAYER1",
        2 => "LAYER2",
        3 => "LAYER3",
        _ => "BGLAYER",
    }
}

/// What a notebook skeleton holds, over plain values.
pub struct NotebookModel {
    pub file_type: Seq<char>,
    pub signature: Seq<char>,
    pub header: MetaTable,
    pub footer: MetaTable,
    pub page_width: u32,
    pub page_height: u32,
    pub page_addresses: Seq<usize>,
}

/// What the page metadata holds, over plain values.
pub struct PageModel {
    pub metadata: MetaTable,
    pub style: Seq<char>,
    pub layers: Seq<LayerModel>,
    pub totalpath_addr: usize,
    pub a5_bitmap_addr: Option<usize>,
    pub a5_protocol: Option<Seq<char>>,
}

/// What the layer metadata holds, over plain values.
pub struct LayerModel {
    pub name: Seq<char>,
    pub layer_type: Seq<char>,
    pub protocol: Seq<char>,
    pub bitmap_addr: usize,
}

/// A parsed Supernote notebook skeleton (header, footer, page addresses).
/// Page content is decoded on demand via `page()`.
pub struct NotebookMeta {
    pub file_type: String,
    pub signature: String,
    pub header: Metadata,
    pub footer: Metadata,
    pub page_width: u32,
    pub page_height: u32,
    page_addresses: Vec<usize>,
}

/// Lightweight page metadata: addresses, not decoded content.
pub struct PageMeta {
    pub metadata: Metadata,
    pub style: String,
    pub layers: Vec<LayerMeta>,
    totalpath_addr: usize,
    a5_bitmap_addr: Option<usize>,
    a5_protocol: Option<String>,
}

/// Layer metadata: the bitmap address rather than the bitmap.
pub struct LayerMeta {
    pub name: String,
    pub layer_type: String,
    pub protocol: String,
    bitmap_addr: usize,
}

impl View for LayerMeta {
    type V = LayerModel;

    closed spec fn view(&self) -> LayerModel {
        LayerModel {
            name: self.name@,
            layer_type: self.layer_type@,
            protocol: self.protocol@,
            bitmap_addr: self.bitmap_addr,
        }
    }
}

/// The models of a list of layers.
pub open spec fn layer_models(ls: Seq<LayerMeta>) -> Seq<LayerModel> {
    ls.map_values(|l: LayerMeta| l@)
}

impl View for PageMeta {
    type V = PageModel;

    closed spec fn view(&self) -> PageModel {
        PageModel {
            metadata: self.metadata@,
            style: self.style@,
            layers: layer_models(self.layers@),
            totalpath_addr: self.totalpath_addr,
            a5_bitmap_addr: self.a5_bitmap_addr,
            a5_protocol: match self.a5_protocol {
                Some(s) => Some(s@),
                None => None,
            },
        }
    }
}

impl View for NotebookMeta {
    type V = NotebookModel;

    closed spec fn view(&self) -> NotebookModel {
        NotebookModel {
            file_type: self.file_type@,
            signature: self.signature@,
            header: self.header@,
            footer: self.footer@,
            page_width: self.page_width,
            page_height: self.page_height,
            page_addresses: self.page_addresses@,
        }
    }
}

/// The payload of the length-prefixed block at `offset`, if it fits in `data`.
pub open spec fn block_payload(data: Seq<u8>, offset: int) -> Option<Seq<u8>> {
    match block_frame(data, offset) {
        BlockFrame::Within(start, end) => Some(data.subrange(start, end)),
        _ => None,
    }
}

/// The payload of the length-prefixed block at `offset`, or why it does not fit.
pub open spec fn data_block(data: Seq<u8>, offset: int) -> Result<Seq<u8>, Error> {
    match block_frame(data, offset) {
        BlockFrame::Truncated => Err(Error::BlockTruncated { offset: offset as usize }),
        BlockFrame::TooLong(len) => Err(
            Error::BlockTooLong { offset: offset as usize, length: len as usize },
        ),
        BlockFrame::Within(start, end) => Ok(data.subrange(start, end)),
    }
}

/// The payload of the length-prefixed data block at `offset`.
pub fn data_block_slice(data: &[u8], offset: usize) -> (r: Result<&[u8], Error>)
    ensures
        match r {
            Ok(s) => data_block(data@, offset as int) == Ok::<Seq<u8>, Error>(s@),
            Err(e) => data_block(data@, offset as int) == Err::<Seq<u8>, Error>(e),
        },
{
    if offset > data.len() || data.len() - offset < 4 {
        return Err(Error::BlockTruncated { offset });
    }
    let block_len = read_le_u32(data, offset) as usize;
    let start = offset + 4;
    if block_len > data.len() - start {
        return Err(Error::BlockTooLong { offset, length: block_len });
    }
    Ok(vstd::slice::slice_subrange(data, start, start + block_len))
}

/// A data block written as a little-endian length and its payload reads
/// back as that payload, wherever it stands in the data.
pub proof fn law_data_block_read_back(pre: Seq<u8>, payload: Seq<u8>, post: Seq<u8>)
    requires
        payload.len() <= u32::MAX,
    ensures
        data_block(pre + le_bytes(payload.len()) + payload + post, pre.len() as int)
            == Ok::<Seq<u8>, Error>(payload),
        block_payload(pre + le_bytes(payload.len()) + payload + post, pre.len() as int)
            == Some(payload),
{
    law_block_frame_read_back(pre, payload, post);
}

/// The bytes `note`.
pub open spec fn note_magic() -> Seq<u8> {
    seq![0x6eu8, 0x6fu8, 0x74u8, 0x65u8]
}

/// The bytes `mark`.
pub open spec fn mark_magic() -> Seq<u8> {
    seq![0x6du8, 0x61u8, 0x72u8, 0x6bu8]
}

/// The file type and signature of a notebook, or why they cannot be read.
///
/// X-series files start with `note` or `mark` and a 20-byte signature
/// `SN_FILE_VER_*`; first-generation A5 files start with the signature
/// `SN_FILE_ASA_*` itself and are notes.
pub open spec fn detect_spec(d: Seq<u8>) -> Result<(Seq<char>, Seq<char>), Error> {
    let x_sig = d.subrange(4, 24);
    let a5_sig = d.subrange(0, 20);
    if d.len() >= 24 && d.take(4) == note_magic() && !valid_utf8(x_sig) {
        Err(Error::SignatureEncoding)
    } else if d.len() >= 24 && d.take(4) == note_magic() && is_prefix(
        "SN_FILE_VER_"@,
        decode_utf8(x_sig),
    ) {
        Ok(("note"@, decode_utf8(x_sig)))
    } else if d.len() >= 24 && d.take(4) == mark_magic() && !valid_utf8(x_sig) {
        Err(Error::SignatureEncoding)
    } else if d.len() >= 24 && d.take(4) == mark_magic() && is_prefix(
        "SN_FILE_VER_"@,
        decode_utf8(x_sig),
    ) {
        Ok(("mark"@, decode_utf8(x_sig)))
    } else if d.len() >= 20 && !valid_utf8(a5_sig) {
        Err(Error::SignatureEncoding)
    } else if d.len() >= 20 && is_prefix("SN_FILE_ASA_"@, decode_utf8(a5_sig)) {
        Ok(("note"@, decode_utf8(a5_sig)))
    } else {
        Err(Error::UnrecognizedFormat)
    }
}

fn has_magic(data: &[u8], m: [u8; 4]) -> (r: bool)
    requires
        data@.len() >= 4,
    ensures
        r == (data@.take(4) == m@),
{
    let r = data[0] == m[0] && data[1] == m[1] && data[2] == m[2] && data[3] == m[3];
    proof {
        if r {
            assert(data@.take(4) =~= m@);
        } else {
            assert(m@.len() == 4);
        }
    }
    r
}

/// Reads the file type and the signature of a notebook.
pub fn detect_format(data: &[u8]) -> (r: Result<(String, String), Error>)
    ensures
        match r {
            Ok((t, s)) => detect_spec(data@) == Ok::<(Seq<char>, Seq<char>), Error>((t@, s@)),
            Err(e) => detect_spec(data@) == Err::<(Seq<char>, Seq<char>), Error>(e),
        },
{
    let note: [u8; 4] = [0x6e, 0x6f, 0x74, 0x65];
    let mark: [u8; 4] = [0x6d, 0x61, 0x72, 0x6b];
    assert(note@ =~= note_magic());
    assert(mark@ =~= mark_magic());
    if data.len() >= 24 && has_magic(data, note) {
        match str_from_utf8(vstd::slice::slice_subrange(data, 4, 24)) {
            Err(_) => return Err(Error::SignatureEncoding),
            Ok(sig) => {
                if starts_with(sig, "SN_FILE_VER_") {
                    return Ok((String::from_str("note"), String::from_str(sig)));
                }
            },
        }
    }
    if data.len() >= 24 && has_magic(data, mark) {
        match str_from_utf8(vstd::slice::slice_subrange(data, 4, 24)) {
            Err(_) => return Err(Error::SignatureEncoding),
            Ok(sig) => {
                if starts_with(sig, "SN_FILE_VER_") {
                    return Ok((String::from_str("mark"), String::from_str(sig)));
                }
            },
        }
    }
    if data.len() >= 20 {
        match str_from_utf8(vstd::slice::slice_subrange(data, 0, 20)) {
            Err(_) => return Err(Error::SignatureEncoding),
            Ok(sig) => {
                if starts_with(sig, "SN_FILE_ASA_") {
                    return Ok((String::from_str("note"), String::from_str(sig)));
                }
            },
        }
    }
    Err(Error::UnrecognizedFormat)
}

/// The page number of a footer key `PAGE<n>`.
pub open spec fn page_number(k: Seq<char>) -> Option<nat> {
    if is_prefix("PAGE"@, k) {
        parse_uint(k.skip("PAGE"@.len() as int), usize::MAX as nat)
    } else {
        None
    }
}

/// The `(number, address)` of the numbered page keys among the first `n`
/// entries of the footer, in entry order, or the first address that
/// cannot be read.
pub open spec fn numbered_pages(m: MetaTable, n: nat) -> Result<Seq<(nat, usize)>, Error>
    decreases n,
{
    if n == 0 {
        Ok(Seq::empty())
    } else {
        match numbered_pages(m, (n - 1) as nat) {
            Err(e) => Err(e),
            Ok(acc) => match page_number(m[n - 1].0) {
                None => Ok(acc),
                Some(num) => match address_value(m, m[n - 1].0) {
                    Ok(a) => Ok(acc.push((num, a))),
                    Err(e) => Err(e),
                },
            },
        }
    }
}

/// `s` with `x` inserted after every element whose number is not larger.
pub open spec fn insert_by_number(s: Seq<(nat, usize)>, x: (nat, usize)) -> Seq<(nat, usize)>
    decreases s.len(),
{
    if s.len() == 0 {
        seq![x]
    } else if s.last().0 <= x.0 {
        s.push(x)
    } else {
        insert_by_number(s.drop_last(), x).push(s.last())
    }
}

/// `s` sorted by number; equal numbers keep their order.
pub open spec fn sort_by_number(s: Seq<(nat, usize)>) -> Seq<(nat, usize)>
    decreases s.len(),
{
    if s.len() == 0 {
        s
    } else {
        insert_by_number(sort_by_number(s.drop_last()), s.last())
    }
}

/// The values of repeated `PAGE` keys read as addresses.
pub open spec fn page_list(vs: Seq<Seq<char>>) -> Result<Seq<usize>, Error>
    decreases vs.len(),
{
    if vs.len() == 0 {
        Ok(Seq::empty())
    } else {
        match page_list(vs.drop_last()) {
            Err(e) => Err(e),
            Ok(a) => match parse_uint(vs.last(), usize::MAX as nat) {
                Some(x) => Ok(a.push(x as usize)),
                None => Err(Error::InvalidNumber),
            },
        }
    }
}

/// The second components of a list of pairs.
pub open spec fn addresses_of(s: Seq<(nat, usize)>) -> Seq<usize> {
    s.map_values(|p: (nat, usize)| p.1)
}

/// The page addresses of a footer: the numbered keys `PAGE1`, `PAGE2`, ...
/// in page-number order (X-series), else the values of the repeated key
/// `PAGE` (first-generation A5).
pub open spec fn page_addresses_of(footer: MetaTable) -> Result<Seq<usize>, Error> {
    match numbered_pages(footer, footer.len()) {
        Err(e) => Err(e),
        Ok(num) => if num.len() > 0 {
            Ok(addresses_of(sort_by_number(num)))
        } else if values_of(footer, "PAGE"@).len() > 0 {
            page_list(values_of(footer, "PAGE"@))
        } else {
            Err(Error::NoPageAddresses)
        },
    }
}

/// Inserting `x` at `j`, where everything before `j` has a number no larger
/// than `x` and everything from `j` on has a larger one, is `insert_by_number`.
proof fn lemma_insert_at(s: Seq<(nat, usize)>, x: (nat, usize), j: int)
    requires
        0 <= j <= s.len(),
        j > 0 ==> s[j - 1].0 <= x.0,
        forall|i: int| j <= i < s.len() ==> s[i].0 > x.0,
    ensures
        insert_by_number(s, x) == s.insert(j, x),
    decreases s.len(),
{
    if s.len() == 0 {
        assert(s.insert(j, x) =~= seq![x]);
    } else if s.last().0 <= x.0 {
        assert(j == s.len());
        assert(s.insert(j, x) =~= s.push(x));
    } else {
        lemma_insert_at(s.drop_last(), x, j);
        assert(s.drop_last().insert(j, x).push(s.last()) =~= s.insert(j, x));
    }
}

/// `s` is in ascending order of number.
pub open spec fn numbers_ascending(s: Seq<(nat, usize)>) -> bool {
    forall|i: int, j: int| 0 <= i < j < s.len() ==> #[trigger] s[i].0 <= #[trigger] s[j].0
}

/// Inserting into an ordered list keeps it ordered, adds exactly `x`, and
/// brings in nothing but `x` and what was there.
proof fn lemma_insert_by_number(s: Seq<(nat, usize)>, x: (nat, usize))
    requires
        numbers_ascending(s),
    ensures
        numbers_ascending(insert_by_number(s, x)),
        insert_by_number(s, x).to_multiset() == s.to_multiset().insert(x),
        forall|i: int| 0 <= i < insert_by_number(s, x).len() ==> #[trigger] insert_by_number(s, x)[i] == x
            || s.contains(insert_by_number(s, x)[i]),
    decreases s.len(),
{
    broadcast use vstd::seq_lib::to_multiset_build;
    let r = insert_by_number(s, x);
    if s.len() == 0 {
        assert(seq![x] =~= Seq::<(nat, usize)>::empty().push(x));
        assert(s =~= Seq::<(nat, usize)>::empty());
    } else if s.last().0 <= x.0 {
        assert forall|i: int| 0 <= i < r.len() implies #[trigger] r[i] == x || s.contains(r[i]) by {
            if i < s.len() {
                assert(r[i] == s[i]);
            }
        }
        assert forall|i: int, j: int| 0 <= i < j < r.len() implies #[trigger] r[i].0 <= #[trigger] r[j].0 by {
            if j == s.len() {
                assert(s[i].0 <= s[s.len() - 1].0 || i == s.len() - 1);
            } else {
                assert(r[i] == s[i] && r[j] == s[j]);
            }
        }
    } else {
        let d = s.drop_last();
        let last = s.last();
        assert forall|i: int, j: int| 0 <= i < j < d.len() implies #[trigger] d[i].0 <= #[trigger] d[j].0 by {
            assert(d[i] == s[i] && d[j] == s[j]);
        }
        lemma_insert_by_number(d, x);
        let r1 = insert_by_number(d, x);
        assert(d.push(last) =~= s);
        assert(r1.push(last).to_multiset() =~= s.to_multiset().insert(x));
        assert forall|i: int| 0 <= i < r1.len() implies #[trigger] r1[i].0 <= last.0 by {
            if r1[i] != x {
                assert(d.contains(r1[i]));
                let k = choose|k: int| 0 <= k < d.len() && d[k] == r1[i];
                assert(s[k] == d[k]);
                assert(s[k].0 <= s[s.len() - 1].0);
            }
        }
        assert forall|i: int, j: int| 0 <= i < j < r.len() implies #[trigger] r[i].0 <= #[trigger] r[j].0 by {
            assert(r[i] == r1[i]);
            if j < r1.len() {
                assert(r[j] == r1[j]);
            }
        }
        assert forall|i: int| 0 <= i < r.len() implies #[trigger] r[i] == x || s.contains(r[i]) by {
            if i < r1.len() {
                assert(r[i] == r1[i]);
                if r1[i] != x {
                    let k = choose|k: int| 0 <= k < d.len() && d[k] == r1[i];
                    assert(s[k] == d[k]);
                }
            } else {
                assert(s[s.len() - 1] == last);
            }
        }
    }
}

/// Numbered pages come out in ascending page number, and sorting neither
/// loses nor adds a page.
pub proof fn law_pages_in_number_order(s: Seq<(nat, usize)>)
    ensures
        numbers_ascending(sort_by_number(s)),
        sort_by_number(s).to_multiset() == s.to_multiset(),
    decreases s.len(),
{
    broadcast use vstd::seq_lib::to_multiset_build;
    if s.len() > 0 {
        law_pages_in_number_order(s.drop_last());
        lemma_insert_by_number(sort_by_number(s.drop_last()), s.last());
        assert(s.drop_last().push(s.last()) =~= s);
    }
}

/// Inserts `x` into `v` as `insert_by_number` does.
fn insert_sorted(v: &mut Vec<(usize, usize)>, x: (usize, usize))
    ensures
        pairs_view(final(v)@) == insert_by_number(pairs_view(old(v)@), (x.0 as nat, x.1)),
{
    let mut j = v.len();
    while j > 0 && v[j - 1].0 > x.0
        invariant
            j <= v@.len(),
            v@ == old(v)@,
            forall|i: int| j <= i < v@.len() ==> v@[i].0 > x.0,
        decreases j,
    {
        j -= 1;
    }
    proof {
        lemma_insert_at(pairs_view(v@), (x.0 as nat, x.1), j as int);
    }
    v.insert(j, x);
    assert(pairs_view(v@) =~= pairs_view(old(v)@).insert(j as int, (x.0 as nat, x.1)));
}

/// A list of `(usize, usize)` pairs read with a natural first component.
pub open spec fn pairs_view(s: Seq<(usize, usize)>) -> Seq<(nat, usize)> {
    s.map_values(|p: (usize, usize)| (p.0 as nat, p.1))
}

/// Collects the page addresses listed in a footer.
pub fn get_page_addresses(footer: &Metadata) -> (r: Result<Vec<usize>, Error>)
    ensures
        match r {
            Ok(v) => page_addresses_of(footer@) == Ok::<Seq<usize>, Error>(v@),
            Err(e) => page_addresses_of(footer@) == Err::<Seq<usize>, Error>(e),
        },
{
    // X-series: numbered keys PAGE1, PAGE2, ...
    let mut numbered: Vec<(usize, usize)> = Vec::new();
    let mut sorted: Vec<(usize, usize)> = Vec::new();
    let mut i: usize = 0;
    let prefix = "PAGE";
    let plen = crate::text::str_chars(prefix).len();
    assert(pairs_view(numbered@) =~= Seq::<(nat, usize)>::empty());
    while i < footer.len()
        invariant
            i <= footer@.len(),
            plen == "PAGE"@.len(),
            prefix@ == "PAGE"@,
            numbered_pages(footer@, i as nat) == Ok::<Seq<(nat, usize)>, Error>(pairs_view(numbered@)),
            pairs_view(sorted@) == sort_by_number(pairs_view(numbered@)),
        decreases footer@.len() - i,
    {
        let key = footer.key(i);
        if starts_with(key, prefix) {
            let klen = crate::text::str_chars(key).len();
            let rest = substring(key, plen, klen);
            assert(rest@ == key@.skip("PAGE"@.len() as int));
            if let Some(num) = parse_usize(rest.as_str()) {
                let addr = match footer.get_address(key) {
                    Ok(a) => a,
                    Err(e) => {
                        proof {
                            lemma_numbered_error(footer@, (i + 1) as nat, footer@.len());
                        }
                        return Err(e);
                    },
                };
                let ghost old_numbered = numbered@;
                numbered.push((num, addr));
                insert_sorted(&mut sorted, (num, addr));
                proof {
                    assert(pairs_view(numbered@) =~= pairs_view(old_numbered).push((num as nat, addr)));
                    assert(pairs_view(numbered@).drop_last() =~= pairs_view(old_numbered));
                }
            }
        }
        i += 1;
    }
    if numbered.len() > 0 {
        let mut addrs: Vec<usize> = Vec::new();
        let mut k: usize = 0;
        while k < sorted.len()
            invariant
                k <= sorted@.len(),
                addrs@ == addresses_of(pairs_view(sorted@)).take(k as int),
            decreases sorted@.len() - k,
        {
            addrs.push(sorted[k].1);
            k += 1;
            assert(addrs@ =~= addresses_of(pairs_view(sorted@)).take(k as int));
        }
        assert(addrs@ =~= addresses_of(pairs_view(sorted@)));
        return Ok(addrs);
    }
    // First-generation A5: repeated PAGE key
    let page_values = footer.get_all("PAGE");
    if page_values.len() == 0 {
        return Err(Error::NoPageAddresses);
    }
    let ghost vs = page_values@.map_values(|s: String| s@);
    assert(pairs_view(numbered@) =~= Seq::<(nat, usize)>::empty());
    let mut addrs: Vec<usize> = Vec::new();
    let mut k: usize = 0;
    while k < page_values.len()
        invariant
            k <= page_values@.len(),
            vs == page_values@.map_values(|s: String| s@),
            vs == values_of(footer@, "PAGE"@),
            numbered_pages(footer@, footer@.len()) == Ok::<Seq<(nat, usize)>, Error>(Seq::empty()),
            page_list(vs.take(k as int)) == Ok::<Seq<usize>, Error>(addrs@),
        decreases page_values@.len() - k,
    {
        assert(vs.take(k as int + 1).drop_last() =~= vs.take(k as int));
        match parse_usize(page_values[k].as_str()) {
            Some(a) => addrs.push(a),
            None => {
                proof {
                    assert(vs.take(k as int + 1).last() == page_values@[k as int]@);
                    assert(page_list(vs.take(k as int + 1)) is Err);
                    lemma_page_list_error(vs, k as int + 1);
                }
                return Err(Error::InvalidNumber);
            },
        }
        k += 1;
    }
    assert(vs.take(k as int) =~= vs);
    Ok(addrs)
}

proof fn lemma_numbered_error(m: MetaTable, n: nat, total: nat)
    requires
        n <= total,
        numbered_pages(m, n) is Err,
    ensures
        numbered_pages(m, total) == numbered_pages(m, n),
    decreases total - n,
{
    if n < total {
        lemma_numbered_error(m, n, (total - 1) as nat);
    }
}

proof fn lemma_page_list_error(vs: Seq<Seq<char>>, n: int)
    requires
        0 <= n <= vs.len(),
        page_list(vs.take(n)) is Err,
    ensures
        page_list(vs) == page_list(vs.take(n)),
    decreases vs.len(),
{
    if n == vs.len() {
        assert(vs.take(n) =~= vs);
    } else {
        assert(vs.drop_last().take(n) =~= vs.take(n));
        lemma_page_list_error(vs.drop_last(), n);
    }
}

/// Page dimensions in pixels for the device named in the header.
pub open spec fn page_dims(header: MetaTable) -> (u32, u32) {
    let eq = values_of(header, "APPLY_EQUIPMENT"@);
    if eq.len() > 0 && eq[0] == "N5"@ {
        (1920, 2560)
    } else {
        (1404, 1872)
    }
}

/// The notebook skeleton that `d` holds, or why it cannot be read: the
/// footer address is the last four bytes, the footer names the header by
/// `FILE_FEATURE`, the header names the device, the footer lists the pages.
pub open spec fn notebook_spec(d: Seq<u8>) -> Result<NotebookModel, Error> {
    match detect_spec(d) {
        Err(e) => Err(e),
        Ok((ft, sig)) => if d.len() < 4 {
            Err(Error::FileTooSmall)
        } else {
            match metadata_block(d, le_u32(d, d.len() - 4) as int) {
                Err(e) => Err(e),
                Ok(footer) => match address_value(footer, "FILE_FEATURE"@) {
                    Err(e) => Err(e),
                    Ok(ha) => match metadata_block(d, ha as int) {
                        Err(e) => Err(e),
                        Ok(header) => match page_addresses_of(footer) {
                            Err(e) => Err(e),
                            Ok(addrs) => Ok(
                                NotebookModel {
                                    file_type: ft,
                                    signature: sig,
                                    header,
                                    footer,
                                    page_width: page_dims(header).0,
                                    page_height: page_dims(header).1,
                                    page_addresses: addrs,
                                },
                            ),
                        },
                    },
                },
            }
        },
    }
}

/// Parses a Supernote `.note` file from raw bytes into a lightweight
/// skeleton; page content is decoded on demand.
pub fn parse(data: &[u8]) -> (r: Result<NotebookMeta, Error>)
    ensures
        match r {
            Ok(nb) => notebook_spec(data@) == Ok::<NotebookModel, Error>(nb@),
            Err(e) => notebook_spec(data@) == Err::<NotebookModel, Error>(e),
        },
        r matches Ok(nb) ==> {
            &&& signature_tail_ok(nb@.signature)
            &&& nb@.page_width * nb@.page_height * 4 <= usize::MAX
            &&& nb@.page_width * nb@.page_height <= u32::MAX
        },
{
    proof {
        law_parsed_notebook_renders(data@);
    }
    let (file_type, signature) = detect_format(data)?;
    if data.len() < 4 {
        return Err(Error::FileTooSmall);
    }
    let footer_addr = read_le_u32(data, data.len() - 4) as usize;
    let footer = read_metadata_block(data, footer_addr)?;
    let header_addr = footer.get_address("FILE_FEATURE")?;
    let header = read_metadata_block(data, header_addr)?;
    let (page_width, page_height) = match header.get_str("APPLY_EQUIPMENT") {
        Some(eq) => if crate::text::str_eq(eq, "N5") {
            (1920, 2560)
        } else {
            (1404, 1872)
        },
        None => (1404, 1872),
    };
    let page_addresses = get_page_addresses(&footer)?;
    Ok(NotebookMeta { file_type, signature, header, footer, page_width, page_height, page_addresses })
}

/// The first value of `k` as a number, or 0 when it is absent or not a number.
pub open spec fn number_or_zero(m: MetaTable, k: Seq<char>) -> usize {
    let vs = values_of(m, k);
    if vs.len() > 0 && parse_uint(vs[0], usize::MAX as nat) is Some {
        parse_uint(vs[0], usize::MAX as nat)->0 as usize
    } else {
        0
    }
}

/// The metadata of the layer `key` of a page, or why it cannot be read.
/// Address 0 means the layer holds no data.
pub open spec fn layer_spec(d: Seq<u8>, page: MetaTable, key: Seq<char>) -> Result<LayerModel, Error> {
    let vs = values_of(page, key);
    if vs.len() == 0 {
        Err(Error::MissingKey)
    } else {
        match parse_uint(vs[0], usize::MAX as nat) {
            None => Err(Error::InvalidNumber),
            Some(a) => if a == 0 {
                Ok(
                    LayerModel {
                        name: key,
                        layer_type: Seq::empty(),
                        protocol: "RATTA_RLE"@,
                        bitmap_addr: 0,
                    },
                )
            } else {
                match metadata_block(d, a as int) {
                    Err(e) => Err(e),
                    Ok(lm) => Ok(
                        LayerModel {
                            name: first_or(lm, "LAYERNAME"@, key),
                            layer_type: first_or(lm, "LAYERTYPE"@, Seq::empty()),
                            protocol: first_or(lm, "LAYERPROTOCOL"@, "RATTA_RLE"@),
                            bitmap_addr: number_or_zero(lm, "LAYERBITMAP"@),
                        },
                    ),
                }
            },
        }
    }
}

/// Whether one of the layers is named MAINLAYER.
pub open spec fn has_main_layer(ls: Seq<LayerModel>) -> bool {
    exists|i: int| 0 <= i < ls.len() && #[trigger] ls[i].name == "MAINLAYER"@
}

/// The layer `l` read after the layers `ls`: a second layer named
/// MAINLAYER is the background layer, which some firmware misnames, so it
/// is named BGLAYER.
pub open spec fn after_layers(ls: Seq<LayerModel>, l: LayerModel) -> LayerModel {
    if l.name == "MAINLAYER"@ && has_main_layer(ls) {
        LayerModel { name: "BGLAYER"@, ..l }
    } else {
        l
    }
}

/// The first `n` layers of a layered page, or the first that cannot be read.
pub open spec fn layers_spec(d: Seq<u8>, page: MetaTable, n: nat) -> Result<Seq<LayerModel>, Error>
    decreases n,
{
    if n == 0 {
        Ok(Seq::empty())
    } else {
        match layers_spec(d, page, (n - 1) as nat) {
            Err(e) => Err(e),
            Ok(ls) => match layer_spec(d, page, layer_key_spec(n - 1)) {
                Err(e) => Err(e),
                Ok(l) => Ok(ls.push(after_layers(ls, l))),
            },
        }
    }
}

/// Whether a page names any of the layer keys (X-series) or none (A5).
pub open spec fn has_layer_keys(page: MetaTable) -> bool {
    exists|i: int| 0 <= i < 5 && #[trigger] values_of(page, layer_key_spec(i)).len() > 0
}

/// The metadata of the page at `addr`, or why it cannot be read.
pub open spec fn page_spec(d: Seq<u8>, addr: int) -> Result<PageModel, Error> {
    match metadata_block(d, addr) {
        Err(e) => Err(e),
        Ok(pm) => {
            let style = first_or(pm, "PAGESTYLE"@, "style_white"@);
            let tp = number_or_zero(pm, "TOTALPATH"@);
            if has_layer_keys(pm) {
                match layers_spec(d, pm, 5) {
                    Err(e) => Err(e),
                    Ok(ls) => Ok(
                        PageModel {
                            metadata: pm,
                            style,
                            layers: ls,
                            totalpath_addr: tp,
                            a5_bitmap_addr: None,
                            a5_protocol: None,
                        },
                    ),
                }
            } else {
                let proto = if values_of(pm, "PROTOCOL"@).len() > 0 {
                    Some(values_of(pm, "PROTOCOL"@)[0])
                } else {
                    None
                };
                let dv = values_of(pm, "DATA"@);
                if dv.len() > 0 && parse_uint(dv[0], usize::MAX as nat) is None {
                    Err(Error::InvalidNumber)
                } else {
                    let a5 = if dv.len() > 0 && parse_uint(dv[0], usize::MAX as nat)->0 > 0 {
                        Some(parse_uint(dv[0], usize::MAX as nat)->0 as usize)
                    } else {
                        None
                    };
                    Ok(
                        PageModel {
                            metadata: pm,
                            style,
                            layers: Seq::empty(),
                            totalpath_addr: tp,
                            a5_bitmap_addr: a5,
                            a5_protocol: proto,
                        },
                    )
                }
            }
        },
    }
}

/// The first value of `key`, or `default`, as an owned string.
fn first_or_string(m: &Metadata, key: &str, default: &str) -> (s: String)
    ensures
        s@ == first_or(m@, key@, default@),
{
    match m.get_str(key) {
        Some(v) => String::from_str(v),
        None => String::from_str(default),
    }
}

/// The first value of `key` as a number, or 0.
fn number_or_zero_of(m: &Metadata, key: &str) -> (n: usize)
    ensures
        n == number_or_zero(m@, key@),
{
    match m.get_str(key) {
        Some(v) => match parse_usize(v) {
            Some(n) => n,
            None => 0,
        },
        None => 0,
    }
}

/// Reads the metadata of one layer of a page.
fn parse_layer_meta(data: &[u8], page_meta: &Metadata, layer_key: &str) -> (r: Result<LayerMeta, Error>)
    ensures
        match r {
            Ok(l) => layer_spec(data@, page_meta@, layer_key@) == Ok::<LayerModel, Error>(l@),
            Err(e) => layer_spec(data@, page_meta@, layer_key@) == Err::<LayerModel, Error>(e),
        },
{
    let addr_str = match page_meta.get_str(layer_key) {
        Some(s) => s,
        None => return Err(Error::MissingKey),
    };
    let addr = match parse_usize(addr_str) {
        Some(a) => a,
        None => return Err(Error::InvalidNumber),
    };
    if addr == 0 {
        let l = LayerMeta {
            name: String::from_str(layer_key),
            layer_type: String::new(),
            protocol: String::from_str("RATTA_RLE"),
            bitmap_addr: 0,
        };
        assert(l@.layer_type =~= Seq::<char>::empty());
        return Ok(l);
    }
    let layer_meta = read_metadata_block(data, addr)?;
    let name = first_or_string(&layer_meta, "LAYERNAME", layer_key);
    let layer_type = first_or_string(&layer_meta, "LAYERTYPE", "");
    let protocol = first_or_string(&layer_meta, "LAYERPROTOCOL", "RATTA_RLE");
    let bitmap_addr = number_or_zero_of(&layer_meta, "LAYERBITMAP");
    proof {
        reveal_strlit("");
        assert(""@ =~= Seq::<char>::empty());
    }
    Ok(LayerMeta { name, layer_type, protocol, bitmap_addr })
}

/// Reads the metadata of the page at `page_addr`.
#[verifier::loop_isolation(false)]
pub fn parse_page_meta(data: &[u8], page_addr: usize) -> (r: Result<PageMeta, Error>)
    ensures
        match r {
            Ok(p) => page_spec(data@, page_addr as int) == Ok::<PageModel, Error>(p@),
            Err(e) => page_spec(data@, page_addr as int) == Err::<PageModel, Error>(e),
        },
{
    let page_meta = read_metadata_block(data, page_addr)?;
    let style = first_or_string(&page_meta, "PAGESTYLE", "style_white");
    let mut has_layers = false;
    let mut i: usize = 0;
    while i < 5
        invariant
            i <= 5,
            has_layers == exists|j: int| 0 <= j < i && #[trigger] values_of(page_meta@, layer_key_spec(j)).len() > 0,
        decreases 5 - i,
    {
        if page_meta.get_str(layer_key(i)).is_some() {
            has_layers = true;
        }
        i += 1;
    }
    let totalpath_addr = number_or_zero_of(&page_meta, "TOTALPATH");
    if has_layers {
        let mut layers: Vec<LayerMeta> = Vec::new();
        assert(layer_models(layers@) =~= Seq::<LayerModel>::empty());
        let mut seen_main = false;
        let mut k: usize = 0;
        while k < 5
            invariant
                k <= 5,
                layers_spec(data@, page_meta@, k as nat) == Ok::<Seq<LayerModel>, Error>(layer_models(layers@)),
                seen_main == has_main_layer(layer_models(layers@)),
            decreases 5 - k,
        {
            let mut layer = match parse_layer_meta(data, &page_meta, layer_key(k)) {
                Ok(l) => l,
                Err(e) => {
                    proof {
                        lemma_layers_error(data@, page_meta@, (k + 1) as nat, 5);
                    }
                    return Err(e);
                },
            };
            proof {
                reveal_strlit("MAINLAYER");
                reveal_strlit("BGLAYER");
            }
            let ghost read = layer@;
            if seen_main && str_eq(layer.name.as_str(), "MAINLAYER") {
                layer.name = String::from_str("BGLAYER");
            }
            assert(layer@ == after_layers(layer_models(layers@), read));
            let is_main = str_eq(layer.name.as_str(), "MAINLAYER");
            let ghost old_layers = layers@;
            layers.push(layer);
            assert(layer_models(layers@) =~= layer_models(old_layers).push(layer@));
            proof {
                let ms = layer_models(layers@);
                if is_main {
                    assert(ms[ms.len() - 1].name == "MAINLAYER"@);
                }
                if has_main_layer(layer_models(old_layers)) {
                    let j = choose|j: int| 0 <= j < layer_models(old_layers).len() && #[trigger] layer_models(old_layers)[j].name == "MAINLAYER"@;
                    assert(ms[j] == layer_models(old_layers)[j]);
                }
                if has_main_layer(ms) {
                    let j = choose|j: int| 0 <= j < ms.len() && #[trigger] ms[j].name == "MAINLAYER"@;
                    if j < ms.len() - 1 {
                        assert(layer_models(old_layers)[j] == ms[j]);
                    }
                }
            }
            seen_main = seen_main || is_main;
            k += 1;
        }
        let p = PageMeta {
            metadata: page_meta,
            style,
            layers,
            totalpath_addr,
            a5_bitmap_addr: None,
            a5_protocol: None,
        };
        Ok(p)
    } else {
        let a5_protocol = match page_meta.get_str("PROTOCOL") {
            Some(s) => Some(String::from_str(s)),
            None => None,
        };
        let mut a5_bitmap_addr: Option<usize> = None;
        if let Some(data_addr_str) = page_meta.get_str("DATA") {
            let data_addr = match parse_usize(data_addr_str) {
                Some(a) => a,
                None => return Err(Error::InvalidNumber),
            };
            if data_addr > 0 {
                a5_bitmap_addr = Some(data_addr);
            }
        }
        let layers: Vec<LayerMeta> = Vec::new();
        assert(layer_models(layers@) =~= Seq::<LayerModel>::empty());
        Ok(PageMeta { metadata: page_meta, style, layers, totalpath_addr, a5_bitmap_addr, a5_protocol })
    }
}

proof fn lemma_layers_error(d: Seq<u8>, page: MetaTable, n: nat, total: nat)
    requires
        n <= total,
        layers_spec(d, page, n) is Err,
    ensures
        layers_spec(d, page, total) == layers_spec(d, page, n),
    decreases total - n,
{
    if n < total {
        lemma_layers_error(d, page, n, (total - 1) as nat);
    }
}

/// The last eight bytes of the signature can be cut off as a string.
pub open spec fn signature_tail_ok(sig: Seq<char>) -> bool {
    let b = encode_utf8(sig);
    b.len() >= 8 ==> is_char_boundary(b, b.len() - 8)
}

/// The first `n` characters of `chars`, all ASCII, take one byte each, so
/// byte `n` of the encoding starts a character.
proof fn lemma_ascii_boundary(chars: Seq<char>, n: nat)
    requires
        n <= chars.len(),
        forall|i: int| 0 <= i < n ==> (#[trigger] chars[i] as u32) < 0x80,
    ensures
        n <= encode_utf8(chars).len(),
        is_char_boundary(encode_utf8(chars), n as int),
    decreases n,
{
    broadcast use vstd::utf8::encode_utf8_valid_utf8;

    if n > 0 {
        let rest = chars.drop_first();
        assert forall|i: int| 0 <= i < n - 1 implies (#[trigger] rest[i] as u32) < 0x80 by {
            assert(rest[i] == chars[i + 1]);
        }
        lemma_ascii_boundary(rest, (n - 1) as nat);
        vstd::utf8::encode_utf8_first_scalar(chars);
        let bytes = encode_utf8(chars);
        assert(pop_first_scalar(bytes) =~= encode_utf8(rest));
        assert((chars[0] as u32) < 0x80);
    }
}

/// A twenty-byte signature that starts with twelve ASCII characters has
/// its last eight bytes start at a character boundary.
proof fn lemma_signature_tail(b: Seq<u8>, prefix: Seq<char>)
    requires
        valid_utf8(b),
        b.len() == 20,
        prefix.len() == 12,
        is_prefix(prefix, decode_utf8(b)),
        forall|i: int| 0 <= i < 12 ==> (#[trigger] prefix[i] as u32) < 0x80,
    ensures
        signature_tail_ok(decode_utf8(b)),
{
    vstd::utf8::decode_utf8_encode_utf8(b);
    let sig = decode_utf8(b);
    assert forall|i: int| 0 <= i < 12 implies (#[trigger] sig[i] as u32) < 0x80 by {
        assert(sig.take(12)[i] == prefix[i]);
    }
    lemma_ascii_boundary(sig, 12);
}

/// A notebook that parses can always be rendered: its page size fits the
/// pixel and canvas arithmetic, and its signature can be cut eight bytes
/// from its end.
pub proof fn law_parsed_notebook_renders(d: Seq<u8>)
    ensures
        notebook_spec(d) matches Ok(nb) ==> {
            &&& signature_tail_ok(nb.signature)
            &&& nb.page_width * nb.page_height * 4 <= usize::MAX
            &&& nb.page_width * nb.page_height <= u32::MAX
        },
{
    reveal_strlit("SN_FILE_VER_");
    reveal_strlit("SN_FILE_ASA_");
    let ver = "SN_FILE_VER_"@;
    let asa = "SN_FILE_ASA_"@;
    assert forall|i: int| 0 <= i < 12 implies (#[trigger] ver[i] as u32) < 0x80 by {}
    assert forall|i: int| 0 <= i < 12 implies (#[trigger] asa[i] as u32) < 0x80 by {}
    match detect_spec(d) {
        Ok((_, sig)) => {
            if d.len() >= 24 && (d.take(4) == note_magic() || d.take(4) == mark_magic())
                && valid_utf8(d.subrange(4, 24)) && is_prefix(ver, decode_utf8(d.subrange(4, 24))) {
                assert(sig == decode_utf8(d.subrange(4, 24)));
                lemma_signature_tail(d.subrange(4, 24), ver);
            } else {
                assert(d.len() >= 20 && valid_utf8(d.subrange(0, 20)));
                assert(sig == decode_utf8(d.subrange(0, 20)));
                lemma_signature_tail(d.subrange(0, 20), asa);
            }
            if notebook_spec(d) is Ok {
                let nb = notebook_spec(d)->Ok_0;
                assert(nb.signature == sig);
                assert((nb.page_width == 1404 && nb.page_height == 1872) || (nb.page_width == 1920
                    && nb.page_height == 2560));
                assert(nb.page_width * nb.page_height <= 1920 * 2560);
                assert(1920 * 2560 * 4 <= usize::MAX);
            }
        },
        Err(_) => {},
    }
}

/// A notebook that parses is read from its own trailer: the footer is the
/// metadata block at the address in the file's last four bytes, the
/// header is the block that the footer's FILE_FEATURE names, the pages are
/// those the footer lists, and the page size is the device's (1920 x 2560
/// for an N5, 1404 x 1872 otherwise).
pub proof fn law_notebook_read_from_trailer(d: Seq<u8>)
    ensures
        notebook_spec(d) matches Ok(nb) ==> {
            &&& d.len() >= 4
            &&& metadata_block(d, le_u32(d, d.len() - 4) as int) == Ok::<MetaTable, Error>(nb.footer)
            &&& address_value(nb.footer, "FILE_FEATURE"@) matches Ok(a)
            &&& metadata_block(d, a as int) == Ok::<MetaTable, Error>(nb.header)
            &&& page_addresses_of(nb.footer) == Ok::<Seq<usize>, Error>(nb.page_addresses)
            &&& (nb.page_width, nb.page_height) == page_dims(nb.header)
            &&& (values_of(nb.header, "APPLY_EQUIPMENT"@).len() > 0
                && values_of(nb.header, "APPLY_EQUIPMENT"@)[0] == "N5"@ ==> nb.page_width == 1920
                && nb.page_height == 2560)
        },
{
}

/// Whether a signature marks an X2-series file: its last eight bytes are a
/// version number of at least 20230015.
pub open spec fn highres_signature(sig: Seq<char>) -> bool {
    let b = encode_utf8(sig);
    &&& b.len() >= 8
    &&& parse_uint(decode_utf8(b.subrange(b.len() - 8, b.len() as int)), u64::MAX as nat) matches Some(
        v,
    )
    &&& v >= 20230015
}

/// The summary text of a notebook: file type, signature, device (when the
/// header names one), page size and page count, one per line.
pub open spec fn info_spec(nb: NotebookModel) -> Seq<char> {
    let eq = values_of(nb.header, "APPLY_EQUIPMENT"@);
    "File type: "@ + nb.file_type + "\n"@ + "Signature: "@ + nb.signature + "\n"@ + (if eq.len() > 0 {
        "Device: "@ + eq[0] + "\n"@
    } else {
        Seq::empty()
    }) + "Page size: "@ + decimal(nb.page_width as nat) + "x"@ + decimal(nb.page_height as nat)
        + "\n"@ + "Pages: "@ + decimal(nb.page_addresses.len()) + "\n"@
}

impl NotebookMeta {
    /// The summary text of the notebook, as the `info` command shows it.
    pub fn info(&self) -> (s: String)
        ensures
            s@ == info_spec(self@),
    {
        let mut s = String::from_str("File type: ");
        s.append(self.file_type.as_str());
        s.append("\n");
        s.append("Signature: ");
        s.append(self.signature.as_str());
        s.append("\n");
        let ghost before = s@;
        if let Some(equip) = self.header.get_str("APPLY_EQUIPMENT") {
            s.append("Device: ");
            s.append(equip);
            s.append("\n");
        }
        s.append("Page size: ");
        s.append(decimal_string(self.page_width as u64).as_str());
        s.append("x");
        s.append(decimal_string(self.page_height as u64).as_str());
        s.append("\n");
        s.append("Pages: ");
        s.append(decimal_string(self.page_addresses.len() as u64).as_str());
        s.append("\n");
        assert(s@ =~= info_spec(self@));
        s
    }

    /// Whether the file signature supports high-resolution grayscale (X2-series).
    pub fn supports_highres_grayscale(&self) -> (r: bool)
        requires
            signature_tail_ok(self@.signature),
        ensures
            r == highres_signature(self@.signature),
    {
        let s = self.signature.as_str();
        assert(s.spec_bytes() == encode_utf8(self@.signature));
        let n = s.as_bytes().len();
        if n < 8 {
            return false;
        }
        let (_, tail) = s.split_at(n - 8);
        proof {
            vstd::utf8::encode_utf8_decode_utf8(tail@);
        }
        match crate::text::parse_uint_str(tail, u64::MAX) {
            Some(v) => v >= 20230015,
            None => false,
        }
    }

    /// Whether the page bitmap can be rendered from this notebook: the
    /// pixel count and the RGBA canvas fit their integer types, and the
    /// last eight bytes of the signature start at a character boundary;
    /// exactly what `render_bitmap` asks of it.
    pub fn bitmap_inputs_fit(&self) -> (r: bool)
        ensures
            r == (signature_tail_ok(self@.signature)
                && self@.page_width * self@.page_height * 4 <= usize::MAX
                && self@.page_width * self@.page_height <= u32::MAX),
    {
        let w = self.page_width as u64;
        let h = self.page_height as u64;
        assert(w * h <= u32::MAX as int * u32::MAX as int) by (nonlinear_arith)
            requires
                w <= u32::MAX,
                h <= u32::MAX,
        ;
        let n = w * h;
        if n > u32::MAX as u64 {
            return false;
        }
        if n * 4 > usize::MAX as u64 {
            return false;
        }
        let s = self.signature.as_str();
        let len = s.as_bytes().len();
        if len < 8 {
            return true;
        }
        s.is_char_boundary(len - 8)
    }

    /// The page width in pixels.
    pub fn width(&self) -> (w: u32)
        ensures
            w == self@.page_width,
    {
        self.page_width
    }

    /// The page height in pixels.
    pub fn height(&self) -> (h: u32)
        ensures
            h == self@.page_height,
    {
        self.page_height
    }

    /// The number of pages.
    pub fn page_count(&self) -> (n: usize)
        ensures
            n == self@.page_addresses.len(),
    {
        self.page_addresses.len()
    }

    /// Reads the metadata of page `page` (counted from 0) on demand.
    pub fn page(&self, data: &[u8], page: usize) -> (r: Result<PageMeta, Error>)
        ensures
            page >= self@.page_addresses.len() ==> r == Err::<PageMeta, Error>(
                Error::PageOutOfRange { page, count: self@.page_addresses.len() as usize },
            ),
            page < self@.page_addresses.len() ==> match r {
                Ok(p) => page_spec(data@, self@.page_addresses[page as int] as int) == Ok::<
                    PageModel,
                    Error,
                >(p@),
                Err(e) => page_spec(data@, self@.page_addresses[page as int] as int) == Err::<
                    PageModel,
                    Error,
                >(e),
            },
    {
        if page >= self.page_addresses.len() {
            return Err(Error::PageOutOfRange { page, count: self.page_addresses.len() });
        }
        parse_page_meta(data, self.page_addresses[page])
    }
}

/// The layers of a page from top to bottom, as LAYERSEQ lists them (comma
/// separated), or, when it is absent, the default order LAYER3, LAYER2,
/// LAYER1, MAINLAYER, BGLAYER with the background at the bottom.
pub open spec fn layer_order_spec(m: MetaTable) -> Seq<Seq<char>> {
    let seq_vals = values_of(m, "LAYERSEQ"@);
    if seq_vals.len() > 0 {
        split_on(seq_vals[0], ',')
    } else {
        seq!["LAYER3"@, "LAYER2"@, "LAYER1"@, "MAINLAYER"@, "BGLAYER"@]
    }
}

/// Layers stack top to bottom as the page's LAYERSEQ lists them; without
/// LAYERSEQ the order is LAYER3, LAYER2, LAYER1, MAINLAYER, with the
/// background BGLAYER at the bottom.
pub proof fn law_default_layer_order(m: MetaTable)
    ensures
        values_of(m, "LAYERSEQ"@).len() == 0 ==> {
            let o = layer_order_spec(m);
            &&& o.len() == 5
            &&& o[0] == "LAYER3"@ && o[1] == "LAYER2"@ && o[2] == "LAYER1"@
            &&& o[3] == "MAINLAYER"@ && o[4] == "BGLAYER"@
        },
        values_of(m, "LAYERSEQ"@).len() > 0 ==> layer_order_spec(m) == split_on(values_of(m, "LAYERSEQ"@)[0], ','),
{
}

impl LayerMeta {
    /// The layer name.
    pub fn name_str(&self) -> (r: &str)
        ensures
            r@ == self@.name,
    {
        self.name.as_str()
    }

    /// The bitmap protocol of the layer.
    pub fn protocol_str(&self) -> (r: &str)
        ensures
            r@ == self@.protocol,
    {
        self.protocol.as_str()
    }
}

impl PageMeta {
    /// The number of layers (0 for a non-layered page).
    pub fn layer_count(&self) -> (n: usize)
        ensures
            n == self@.layers.len(),
    {
        self.layers.len()
    }

    /// Layer `i`.
    pub fn layer(&self, i: usize) -> (l: &LayerMeta)
        requires
            i < self@.layers.len(),
        ensures
            l@ == self@.layers[i as int],
    {
        &self.layers[i]
    }

    /// The page style.
    pub fn style_str(&self) -> (r: &str)
        ensures
            r@ == self@.style,
    {
        self.style.as_str()
    }

    /// The layer names from top to bottom: the page's LAYERSEQ metadata, or
    /// LAYER3, LAYER2, LAYER1, MAINLAYER, BGLAYER when it has none.
    pub fn layer_order(&self) -> (r: Vec<String>)
        ensures
            r@.map_values(|s: String| s@) == layer_order_spec(self@.metadata),
    {
        match self.metadata.get_str("LAYERSEQ") {
            Some(seq) => split_str(seq, ','),
            None => {
                let mut v: Vec<String> = Vec::new();
                v.push(String::from_str("LAYER3"));
                v.push(String::from_str("LAYER2"));
                v.push(String::from_str("LAYER1"));
                v.push(String::from_str("MAINLAYER"));
                v.push(String::from_str("BGLAYER"));
                assert(v@.map_values(|s: String| s@) =~= layer_order_spec(self@.metadata));
                v
            },
        }
    }

    /// Whether this page has stroke data.
    pub fn has_strokes(&self) -> (r: bool)
        ensures
            r == (self@.totalpath_addr > 0),
    {
        self.totalpath_addr > 0
    }

    /// The address of the TOTALPATH block, 0 when there is none.
    pub fn totalpath_addr(&self) -> (a: usize)
        ensures
            a == self@.totalpath_addr,
    {
        self.totalpath_addr
    }

    /// Decodes the strokes and text boxes of the page's TOTALPATH block.
    pub fn decode_strokes(&self, data: &[u8]) -> (r: Result<(Vec<Stroke>, Vec<TextBox>), Error>)
        ensures
            self@.totalpath_addr == 0 ==> (r matches Ok((sv, tv)) && sv@.len() == 0 && tv@.len()
                == 0),
            self@.totalpath_addr != 0 ==> match data_block(data@, self@.totalpath_addr as int) {
                Err(e) => r matches Err(e2) && e2 == e,
                Ok(b) => match totalpath_spec(b) {
                    Ok((ss, ts)) => r matches Ok((sv, tv)) && sv@.map_values(|x: Stroke| x@) == ss
                        && tv@.map_values(|x: TextBox| x@) == ts,
                    Err(e) => r matches Err(e2) && e2 == e,
                },
            },
    {
        if self.totalpath_addr == 0 {
            return Ok((Vec::new(), Vec::new()));
        }
        let tp_data = data_block_slice(data, self.totalpath_addr)?;
        parse_totalpath(tp_data)
    }

    /// The RLE bitmap of layer `layer_index`, borrowed from `data`.
    pub fn layer_bitmap<'a>(&self, data: &'a [u8], layer_index: usize) -> (r: Option<&'a [u8]>)
        ensures
            ({
                let ls = self@.layers;
                if layer_index >= ls.len() || ls[layer_index as int].bitmap_addr == 0 {
                    r is None
                } else {
                    match block_payload(data@, ls[layer_index as int].bitmap_addr as int) {
                        Some(b) => r matches Some(s) && s@ == b,
                        None => r is None,
                    }
                }
            }),
    {
        if layer_index >= self.layers.len() {
            return None;
        }
        let addr = self.layers[layer_index].bitmap_addr;
        if addr == 0 {
            return None;
        }
        match data_block_slice(data, addr) {
            Ok(s) => Some(s),
            Err(_) => None,
        }
    }

    /// The non-layered (A5) bitmap, borrowed from `data`.
    pub fn a5_bitmap<'a>(&self, data: &'a [u8]) -> (r: Option<&'a [u8]>)
        ensures
            match self@.a5_bitmap_addr {
                Some(a) if a != 0 => match block_payload(data@, a as int) {
                    Some(b) => r matches Some(s) && s@ == b,
                    None => r is None,
                },
                _ => r is None,
            },
    {
        let addr = match self.a5_bitmap_addr {
            Some(a) => a,
            None => return None,
        };
        if addr == 0 {
            return None;
        }
        match data_block_slice(data, addr) {
            Ok(s) => Some(s),
            Err(_) => None,
        }
    }

    /// The A5 protocol name.
    pub fn a5_protocol(&self) -> (r: Option<&str>)
        ensures
            match self@.a5_protocol {
                Some(p) => r matches Some(s) && s@ == p,
                None => r is None,
            },
    {
        match &self.a5_protocol {
            Some(s) => Some(s.as_str()),
            None => None,
        }
    }
}

} // verus!
