use vstd::prelude::*;
use vstd::utf8::*;

use crate::bytes::{block_frame, law_block_frame_read_back, le_bytes, read_le_u32, BlockFrame};
use crate::error::Error;
use crate::text::{parse_uint, parse_usize, str_chars, str_from_utf8, substring};

verus! {

/// Where the `<KEY:VALUE>` scanner stands after a character.
#[derive(Clone, Copy)]
pub enum TagState {
    /// Between tags: waiting for `<`.
    Outside,
    /// Reading a key that begins at `start`.
    Key { start: usize },
    /// Reading the value of the key `key_start..colon`.
    Value { key_start: usize, colon: usize },
}

/// A `(key, value)` pair read from a metadata string.
pub type TagPair = (Seq<char>, Seq<char>);

/// One step of the scanner over the character `t[i]`.
///
/// A key runs from `<` to `:` and holds no `<`, `>` or `:`; an empty key
/// or a key interrupted by `<` or `>` is dropped (a `<` starts a new key).
/// A value runs from `:` to the next `>`.
pub open spec fn scan_step(t: Seq<char>, i: int, st: TagState, pairs: Seq<TagPair>) -> (
    Seq<TagPair>,
    TagState,
) {
    let c = t[i];
    match st {
        TagState::Outside => if c == '<' {
            (pairs, TagState::Key { start: (i + 1) as usize })
        } else {
            (pairs, TagState::Outside)
        },
        TagState::Key { start } => if c == ':' {
            if i == start {
                (pairs, TagState::Outside)
            } else {
                (pairs, TagState::Value { key_start: start, colon: i as usize })
            }
        } else if c == '<' {
            (pairs, TagState::Key { start: (i + 1) as usize })
        } else if c == '>' {
            (pairs, TagState::Outside)
        } else {
            (pairs, st)
        },
        TagState::Value { key_start, colon } => if c == '>' {
            (
                pairs.push((t.subrange(key_start as int, colon as int), t.subrange(colon + 1, i))),
                TagState::Outside,
            )
        } else {
            (pairs, st)
        },
    }
}

/// The pairs completed, and the scanner state, after the first `n` characters of `t`.
pub open spec fn scan_prefix(t: Seq<char>, n: nat) -> (Seq<TagPair>, TagState)
    decreases n,
{
    if n == 0 {
        (Seq::empty(), TagState::Outside)
    } else {
        let (pairs, st) = scan_prefix(t, (n - 1) as nat);
        scan_step(t, n - 1, st, pairs)
    }
}

/// The complete `<KEY:VALUE>` pairs of `t`, in order; an unfinished tag at
/// the end is dropped.
pub open spec fn tag_pairs(t: Seq<char>) -> Seq<TagPair> {
    scan_prefix(t, t.len()).0
}

/// A metadata table: each key with all its values in order of appearance,
/// the keys in order of their first appearance.
pub type MetaTable = Seq<(Seq<char>, Seq<Seq<char>>)>;

/// Index of the first entry of `m` whose key is `k`, or -1.
pub open spec fn key_pos(m: MetaTable, k: Seq<char>) -> int
    decreases m.len(),
{
    if m.len() == 0 {
        -1
    } else {
        let p = key_pos(m.drop_last(), k);
        if p >= 0 {
            p
        } else if m.last().0 == k {
            m.len() - 1
        } else {
            -1
        }
    }
}

/// Once a key is found in a prefix, it is found there in the whole table.
pub proof fn lemma_key_pos_prefix(m: MetaTable, k: Seq<char>, n: int)
    requires
        0 <= n <= m.len(),
        key_pos(m.take(n), k) >= 0,
    ensures
        key_pos(m, k) == key_pos(m.take(n), k),
    decreases m.len(),
{
    if n == m.len() {
        assert(m.take(n) =~= m);
    } else {
        assert(m.drop_last().take(n) =~= m.take(n));
        lemma_key_pos_prefix(m.drop_last(), k, n);
    }
}

/// A found key position points at an entry with that key, and no earlier
/// entry has it; an absent key is in no entry.
pub proof fn lemma_key_pos(m: MetaTable, k: Seq<char>)
    ensures
        key_pos(m, k) >= 0 ==> key_pos(m, k) < m.len() && m[key_pos(m, k)].0 == k,
        forall|j: int| 0 <= j < m.len() && (key_pos(m, k) < 0 || j < key_pos(m, k)) ==> m[j].0 != k,
    decreases m.len(),
{
    if m.len() > 0 {
        lemma_key_pos(m.drop_last(), k);
        assert forall|j: int| 0 <= j < m.len() - 1 implies m[j] == m.drop_last()[j] by {}
    }
}

/// All values of `k` in `m`; empty when `k` is absent.
pub open spec fn values_of(m: MetaTable, k: Seq<char>) -> Seq<Seq<char>> {
    if key_pos(m, k) >= 0 {
        m[key_pos(m, k)].1
    } else {
        Seq::empty()
    }
}

/// The first value of `k`, or `default` when `k` has none.
pub open spec fn first_or(m: MetaTable, k: Seq<char>, default: Seq<char>) -> Seq<char> {
    if values_of(m, k).len() > 0 {
        values_of(m, k)[0]
    } else {
        default
    }
}

/// The first value of `k` read as an address.
pub open spec fn address_value(m: MetaTable, k: Seq<char>) -> Result<usize, Error> {
    let vs = values_of(m, k);
    if vs.len() == 0 {
        Err(Error::MissingKey)
    } else {
        match parse_uint(vs[0], usize::MAX as nat) {
            Some(a) => Ok(a as usize),
            None => Err(Error::InvalidNumber),
        }
    }
}

/// The metadata block at `offset` of `data`, or why it cannot be read.
pub open spec fn metadata_block(data: Seq<u8>, offset: int) -> Result<MetaTable, Error> {
    match block_frame(data, offset) {
        BlockFrame::Truncated => Err(Error::BlockTruncated { offset: offset as usize }),
        BlockFrame::TooLong(len) => Err(
            Error::BlockTooLong { offset: offset as usize, length: len as usize },
        ),
        BlockFrame::Within(start, end) => {
            let body = data.subrange(start, end);
            if valid_utf8(body) {
                Ok(metadata_of(decode_utf8(body)))
            } else {
                Err(Error::InvalidUtf8 { offset: offset as usize })
            }
        },
    }
}

/// `m` with the value `v` appended to the values of `k`.
pub open spec fn add_value(m: MetaTable, k: Seq<char>, v: Seq<char>) -> MetaTable {
    let p = key_pos(m, k);
    if p >= 0 {
        m.update(p, (k, m[p].1.push(v)))
    } else {
        m.push((k, seq![v]))
    }
}

/// The table of a sequence of pairs.
pub open spec fn table_of(pairs: Seq<TagPair>) -> MetaTable
    decreases pairs.len(),
{
    if pairs.len() == 0 {
        Seq::empty()
    } else {
        add_value(table_of(pairs.drop_last()), pairs.last().0, pairs.last().1)
    }
}

/// The metadata that the string `t` describes.
pub open spec fn metadata_of(t: Seq<char>) -> MetaTable {
    table_of(tag_pairs(t))
}

/// The values that the pairs with key `k` carry, in order.
pub open spec fn pair_values(pairs: Seq<TagPair>, k: Seq<char>) -> Seq<Seq<char>>
    decreases pairs.len(),
{
    if pairs.len() == 0 {
        Seq::empty()
    } else if pairs.last().0 == k {
        pair_values(pairs.drop_last(), k).push(pairs.last().1)
    } else {
        pair_values(pairs.drop_last(), k)
    }
}

/// No two entries of `m` have the same key.
pub open spec fn keys_distinct(m: MetaTable) -> bool {
    forall|i: int, j: int| 0 <= i < j < m.len() ==> #[trigger] m[i].0 != #[trigger] m[j].0
}

/// Replacing an entry by one with the same key moves no key.
proof fn lemma_key_pos_same_keys(m: MetaTable, m2: MetaTable, k: Seq<char>)
    requires
        m2.len() == m.len(),
        forall|j: int| 0 <= j < m.len() ==> #[trigger] m2[j].0 == m[j].0,
    ensures
        key_pos(m2, k) == key_pos(m, k),
{
    lemma_key_pos(m, k);
    lemma_key_pos(m2, k);
    let p = key_pos(m, k);
    let q = key_pos(m2, k);
    if p >= 0 && q >= 0 {
        if p < q {
            assert(m2[p].0 == m[p].0);
        } else if q < p {
            assert(m2[q].0 == m[q].0);
        }
    } else if p >= 0 {
        assert(m2[p].0 == m[p].0);
    } else if q >= 0 {
        assert(m2[q].0 == m[q].0);
    }
}

/// How adding a value moves the position of a key.
proof fn lemma_key_pos_add(m: MetaTable, k: Seq<char>, v: Seq<char>, k2: Seq<char>)
    ensures
        key_pos(add_value(m, k, v), k2) == (if key_pos(m, k2) >= 0 {
            key_pos(m, k2)
        } else if k == k2 {
            m.len() as int
        } else {
            -1
        }),
        add_value(m, k, v).len() == (if key_pos(m, k) >= 0 { m.len() } else { m.len() + 1 }),
{
    lemma_key_pos(m, k);
    let p = key_pos(m, k);
    if p >= 0 {
        let m2 = add_value(m, k, v);
        assert forall|j: int| 0 <= j < m.len() implies #[trigger] m2[j].0 == m[j].0 by {}
        lemma_key_pos_same_keys(m, m2, k2);
        lemma_key_pos(m, k2);
    } else {
        let m2 = m.push((k, seq![v]));
        assert(m2.drop_last() =~= m);
    }
}

/// The values of a key in a table built from pairs are the values of
/// the pairs with that key, and no key has two entries.
proof fn lemma_table_of(pairs: Seq<TagPair>, k: Seq<char>)
    ensures
        values_of(table_of(pairs), k) == pair_values(pairs, k),
        keys_distinct(table_of(pairs)),
    decreases pairs.len(),
{
    if pairs.len() > 0 {
        let prev = pairs.drop_last();
        let (pk, pv) = pairs.last();
        lemma_table_of(prev, k);
        let m = table_of(prev);
        let m2 = add_value(m, pk, pv);
        lemma_key_pos_add(m, pk, pv, k);
        lemma_key_pos(m, pk);
        lemma_key_pos(m, k);
        lemma_key_pos(m2, k);
        if key_pos(m, pk) < 0 {
            assert forall|i: int, j: int| 0 <= i < j < m2.len() implies #[trigger] m2[i].0
                != #[trigger] m2[j].0 by {
                if j == m.len() {
                    assert(m2[i] == m[i]);
                } else {
                    assert(m2[i] == m[i] && m2[j] == m[j]);
                }
            }
        } else {
            assert forall|i: int, j: int| 0 <= i < j < m2.len() implies #[trigger] m2[i].0
                != #[trigger] m2[j].0 by {
                assert(m2[i].0 == m[i].0 && m2[j].0 == m[j].0);
            }
        }
    }
}

/// Every key of a metadata string keeps all of its values, in the order
/// in which its tags appear, and each key has one entry.
pub proof fn law_repeated_keys_keep_values(t: Seq<char>, k: Seq<char>)
    ensures
        values_of(metadata_of(t), k) == pair_values(tag_pairs(t), k),
        keys_distinct(metadata_of(t)),
{
    lemma_table_of(tag_pairs(t), k);
}

/// The tag `<k:v>`.
pub open spec fn tag_text(k: Seq<char>, v: Seq<char>) -> Seq<char> {
    seq!['<'] + k + seq![':'] + v + seq!['>']
}

/// The tags of `pairs` written one after another.
pub open spec fn tags_text(pairs: Seq<TagPair>) -> Seq<char>
    decreases pairs.len(),
{
    if pairs.len() == 0 {
        Seq::empty()
    } else {
        tags_text(pairs.drop_last()) + tag_text(pairs.last().0, pairs.last().1)
    }
}

/// A pair that can be written as a tag: a non-empty key without `<`, `>`
/// or `:`, and a value without `>`.
pub open spec fn writable_pair(p: TagPair) -> bool {
    &&& p.0.len() > 0
    &&& forall|i: int| 0 <= i < p.0.len() ==> #[trigger] p.0[i] != '<' && p.0[i] != '>' && p.0[i] != ':'
    &&& forall|i: int| 0 <= i < p.1.len() ==> #[trigger] p.1[i] != '>'
}

/// `st` with every position in it moved `d` characters on.
pub open spec fn shift_state(st: TagState, d: int) -> TagState {
    match st {
        TagState::Outside => TagState::Outside,
        TagState::Key { start } => TagState::Key { start: (start + d) as usize },
        TagState::Value { key_start, colon } => TagState::Value {
            key_start: (key_start + d) as usize,
            colon: (colon + d) as usize,
        },
    }
}

/// The positions held by the scanner lie within what it has read.
proof fn lemma_scan_bounds(t: Seq<char>, n: nat)
    requires
        n <= t.len(),
        t.len() < usize::MAX,
    ensures
        match scan_prefix(t, n).1 {
            TagState::Outside => true,
            TagState::Key { start } => start <= n,
            TagState::Value { key_start, colon } => key_start < colon < n,
        },
    decreases n,
{
    if n > 0 {
        lemma_scan_bounds(t, (n - 1) as nat);
    }
}

/// Scanning a prefix of `a + b` is scanning the same prefix of `a`.
proof fn lemma_scan_front(a: Seq<char>, b: Seq<char>, n: nat)
    requires
        n <= a.len(),
        a.len() + b.len() < usize::MAX,
    ensures
        scan_prefix(a + b, n) == scan_prefix(a, n),
    decreases n,
{
    if n > 0 {
        lemma_scan_front(a, b, (n - 1) as nat);
        lemma_scan_bounds(a, (n - 1) as nat);
        let t = a + b;
        let i = n - 1;
        assert(t[i] == a[i]);
        match scan_prefix(a, (n - 1) as nat).1 {
            TagState::Value { key_start, colon } => {
                assert(t.subrange(key_start as int, colon as int) =~= a.subrange(key_start as int, colon as int));
                assert(t.subrange(colon + 1, i) =~= a.subrange(colon + 1, i));
            },
            _ => {},
        }
    }
}

/// After a text that ends between tags, scanning goes on in `b` as if
/// `b` stood alone, its positions moved by the length of `a`.
proof fn lemma_scan_back(a: Seq<char>, b: Seq<char>, n: nat)
    requires
        n <= b.len(),
        a.len() + b.len() < usize::MAX,
        scan_prefix(a, a.len()).1 == TagState::Outside,
    ensures
        scan_prefix(a + b, a.len() + n) == (
            scan_prefix(a, a.len()).0 + scan_prefix(b, n).0,
            shift_state(scan_prefix(b, n).1, a.len() as int),
        ),
    decreases n,
{
    let t = a + b;
    if n == 0 {
        lemma_scan_front(a, b, a.len());
        assert(scan_prefix(a, a.len()).0 + Seq::<TagPair>::empty() =~= scan_prefix(a, a.len()).0);
    } else {
        lemma_scan_back(a, b, (n - 1) as nat);
        lemma_scan_bounds(b, (n - 1) as nat);
        let i = n - 1;
        let d = a.len() as int;
        assert(t[d + i] == b[i]);
        let (pb, sb) = scan_prefix(b, (n - 1) as nat);
        let pa = scan_prefix(a, a.len()).0;
        match sb {
            TagState::Value { key_start, colon } => {
                assert(t.subrange(key_start + d, colon + d) =~= b.subrange(key_start as int, colon as int));
                assert(t.subrange(colon + d + 1, i + d) =~= b.subrange(colon + 1, i));
                if b[i] == '>' {
                    let x = (b.subrange(key_start as int, colon as int), b.subrange(colon + 1, i));
                    assert((pa + pb).push(x) =~= pa + pb.push(x));
                }
            },
            _ => {},
        }
    }
}

/// Inside the key of a single tag the scanner stays on that key.
proof fn lemma_scan_tag_key(k: Seq<char>, v: Seq<char>, n: nat)
    requires
        writable_pair((k, v)),
        1 <= n <= 1 + k.len(),
        tag_text(k, v).len() < usize::MAX,
    ensures
        scan_prefix(tag_text(k, v), n) == (Seq::<TagPair>::empty(), TagState::Key { start: 1 }),
    decreases n,
{
    let t = tag_text(k, v);
    if n > 1 {
        lemma_scan_tag_key(k, v, (n - 1) as nat);
        let c = k[n - 2];
        assert(t[n - 1] == c);
        assert(c != '<' && c != '>' && c != ':');
    } else {
        assert(scan_prefix(t, 0) == (Seq::<TagPair>::empty(), TagState::Outside));
        assert(t[0] == '<');
    }
}

/// Inside the value of a single tag the scanner stays on that value.
proof fn lemma_scan_tag_value(k: Seq<char>, v: Seq<char>, n: nat)
    requires
        writable_pair((k, v)),
        2 + k.len() <= n <= 2 + k.len() + v.len(),
        tag_text(k, v).len() < usize::MAX,
    ensures
        scan_prefix(tag_text(k, v), n) == (
            Seq::<TagPair>::empty(),
            TagState::Value { key_start: 1, colon: (1 + k.len()) as usize },
        ),
    decreases n,
{
    let t = tag_text(k, v);
    if n > 2 + k.len() {
        lemma_scan_tag_value(k, v, (n - 1) as nat);
        let j = n - 3 - k.len();
        let c = v[j];
        assert(t[n - 1] == c);
        let p = (k, v);
        assert(0 <= j < p.1.len());
        assert(p.1[j] != '>');
    } else {
        lemma_scan_tag_key(k, v, 1 + k.len());
        assert(t[1 + k.len() as int] == ':');
    }
}

/// A single tag reads as its pair and leaves the scanner between tags.
proof fn lemma_scan_tag(k: Seq<char>, v: Seq<char>)
    requires
        writable_pair((k, v)),
        tag_text(k, v).len() < usize::MAX,
    ensures
        scan_prefix(tag_text(k, v), tag_text(k, v).len()) == (seq![(k, v)], TagState::Outside),
{
    let t = tag_text(k, v);
    lemma_scan_tag_value(k, v, 2 + k.len() + v.len());
    let lk = k.len() as int;
    let lv = v.len() as int;
    assert(t[2 + lk + lv] == '>');
    assert(t.subrange(1, 1 + lk) =~= k);
    assert(t.subrange(2 + lk, 2 + lk + lv) =~= v);
    assert(Seq::<TagPair>::empty().push((k, v)) =~= seq![(k, v)]);
}

/// Written tags scan back to their pairs, ending between tags.
proof fn lemma_scan_tags(pairs: Seq<TagPair>)
    requires
        forall|i: int| 0 <= i < pairs.len() ==> writable_pair(#[trigger] pairs[i]),
        tags_text(pairs).len() < usize::MAX,
    ensures
        scan_prefix(tags_text(pairs), tags_text(pairs).len()) == (pairs, TagState::Outside),
    decreases pairs.len(),
{
    if pairs.len() == 0 {
        assert(scan_prefix(tags_text(pairs), 0).0 =~= pairs);
    } else {
        let prev = pairs.drop_last();
        let (k, v) = pairs.last();
        assert(writable_pair(pairs[pairs.len() - 1]));
        assert forall|i: int| 0 <= i < prev.len() implies writable_pair(#[trigger] prev[i]) by {
            assert(prev[i] == pairs[i]);
        }
        lemma_scan_tags(prev);
        lemma_scan_tag(k, v);
        let a = tags_text(prev);
        let b = tag_text(k, v);
        lemma_scan_back(a, b, b.len());
        assert(prev + seq![(k, v)] =~= pairs);
    }
}

/// Pairs written as `<KEY:VALUE>` tags read back as exactly those pairs,
/// and every key of the parsed metadata holds its values in the order in
/// which they were written.
pub proof fn law_tags_read_back(pairs: Seq<TagPair>, k: Seq<char>)
    requires
        forall|i: int| 0 <= i < pairs.len() ==> writable_pair(#[trigger] pairs[i]),
        tags_text(pairs).len() < usize::MAX,
    ensures
        tag_pairs(tags_text(pairs)) == pairs,
        values_of(metadata_of(tags_text(pairs)), k) == pair_values(pairs, k),
{
    lemma_scan_tags(pairs);
    law_repeated_keys_keep_values(tags_text(pairs), k);
}

/// A metadata block written as a little-endian length and UTF-8 text
/// reads back as the metadata of that text, wherever it stands in the data.
pub proof fn law_metadata_block_read_back(pre: Seq<u8>, text: Seq<u8>, post: Seq<u8>)
    requires
        text.len() <= u32::MAX,
        valid_utf8(text),
    ensures
        metadata_block(pre + le_bytes(text.len()) + text + post, pre.len() as int)
            == Ok::<MetaTable, Error>(metadata_of(decode_utf8(text))),
{
    law_block_frame_read_back(pre, text, post);
}

/// One key of a metadata block and all its values.
pub struct MetadataEntry {
    key: String,
    values: Vec<String>,
}

/// The parsed contents of a `<KEY:VALUE><KEY:VALUE>...` metadata block.
/// Keys may repeat in the block (the first-generation A5 format repeats `PAGE`),
/// so every key maps to the list of its values.
pub struct Metadata {
    entries: Vec<MetadataEntry>,
}

impl View for Metadata {
    type V = MetaTable;

    closed spec fn view(&self) -> MetaTable {
        self.entries@.map_values(
            |e: MetadataEntry| (e.key@, e.values@.map_values(|s: String| s@)),
        )
    }
}

impl Metadata {
    /// An empty table.
    pub fn new() -> (m: Metadata)
        ensures
            m@ == Seq::<(Seq<char>, Seq<Seq<char>>)>::empty(),
    {
        let m = Metadata { entries: Vec::new() };
        assert(m@ =~= Seq::<(Seq<char>, Seq<Seq<char>>)>::empty());
        m
    }

    /// The number of distinct keys.
    pub fn len(&self) -> (n: usize)
        ensures
            n == self@.len(),
    {
        self.entries.len()
    }

    /// The key of entry `i`.
    pub fn key(&self, i: usize) -> (k: &str)
        requires
            i < self@.len(),
        ensures
            k@ == self@[i as int].0,
    {
        self.entries[i].key.as_str()
    }

    /// Index of the first entry whose key is `key`.
    fn position(&self, key: &String) -> (r: Option<usize>)
        ensures
            match r {
                Some(i) => i == key_pos(self@, key@) && i < self@.len(),
                None => key_pos(self@, key@) < 0,
            },
    {
        let mut i: usize = 0;
        while i < self.entries.len()
            invariant
                i <= self@.len(),
                self@.len() == self.entries@.len(),
                key_pos(self@.take(i as int), key@) < 0,
            decreases self.entries@.len() - i,
        {
            proof {
                let m = self@.take(i as int + 1);
                assert(m.drop_last() =~= self@.take(i as int));
            }
            if self.entries[i].key == *key {
                proof {
                    let m = self@.take(i as int + 1);
                    assert(m.last().0 == key@);
                    lemma_key_pos_prefix(self@, key@, i as int + 1);
                }
                return Some(i);
            }
            i += 1;
        }
        assert(self@.take(i as int) =~= self@);
        None
    }

    /// Appends `value` to the values of `key`.
    fn add(&mut self, key: String, value: String)
        ensures
            final(self)@ == add_value(old(self)@, key@, value@),
    {
        match self.position(&key) {
            Some(i) => {
                let ghost old_entries = self.entries@;
                proof {
                    lemma_key_pos(old(self)@, key@);
                }
                let mut e = self.entries.remove(i);
                let ghost old_values = e.values@;
                e.values.push(value);
                assert(e.values@.map_values(|s: String| s@) =~= old_values.map_values(
                    |s: String| s@,
                ).push(value@));
                self.entries.insert(i, e);
                assert(self.entries@ =~= old_entries.update(i as int, e));
                assert(self@ =~= add_value(old(self)@, key@, value@));
            },
            None => {
                let mut values: Vec<String> = Vec::new();
                values.push(value);
                assert(values@.map_values(|s: String| s@) =~= seq![value@]);
                let ghost old_entries = self.entries@;
                let ghost kv = key@;
                self.entries.push(MetadataEntry { key, values });
                assert(self.entries@.last().key@ == kv);
                assert(self@ =~= add_value(old(self)@, kv, value@));
            },
        }
    }

    /// All values of `key`, or nothing when the key is absent.
    pub fn values(&self, key: &str) -> (r: &[String])
        ensures
            r@.map_values(|s: String| s@) == values_of(self@, key@),
    {
        let k = String::from_str(key);
        match self.position(&k) {
            Some(i) => self.entries[i].values.as_slice(),
            None => {
                let empty: &[String] = &[];
                assert(empty@.map_values(|s: String| s@) =~= Seq::<Seq<char>>::empty());
                empty
            },
        }
    }
}

/// Convenient access to metadata values.
pub trait MetadataExt {
    /// The first value of a key, or `None` when the key is absent.
    fn get_str(&self, key: &str) -> Option<&str>;

    /// The first value of a key, parsed as an address.
    fn get_address(&self, key: &str) -> Result<usize, Error>;

    /// All values of a key, or an empty slice when the key is absent.
    fn get_all(&self, key: &str) -> &[String];
}

impl MetadataExt for Metadata {
    fn get_str(&self, key: &str) -> (r: Option<&str>)
        ensures
            r is Some <==> values_of(self@, key@).len() > 0,
            r matches Some(s) ==> s@ == values_of(self@, key@)[0],
    {
        let vs = self.values(key);
        if vs.len() > 0 {
            assert(vs@.map_values(|s: String| s@)[0] == vs@[0]@);
            Some(vs[0].as_str())
        } else {
            None
        }
    }

    fn get_address(&self, key: &str) -> (r: Result<usize, Error>)
        ensures
            r == address_value(self@, key@),
    {
        match self.get_str(key) {
            None => Err(Error::MissingKey),
            Some(val) => match parse_usize(val) {
                Some(a) => Ok(a),
                None => Err(Error::InvalidNumber),
            },
        }
    }

    fn get_all(&self, key: &str) -> (r: &[String])
        ensures
            r@.map_values(|s: String| s@) == values_of(self@, key@),
    {
        self.values(key)
    }
}

/// Parses a `<KEY:VALUE><KEY:VALUE>...` metadata string.
///
/// Text outside tags is skipped; a tag with an empty key, or whose key is
/// interrupted by `<` or `>`, is dropped; an unterminated tag at the end is
/// dropped.  Repeated keys collect their values in order.
pub fn parse_metadata_string(text: &str) -> (m: Metadata)
    ensures
        m@ == metadata_of(text@),
        keys_distinct(m@),
{
    proof {
        law_repeated_keys_keep_values(text@, Seq::empty());
    }
    let chars = str_chars(text);
    let mut m = Metadata::new();
    let mut st = TagState::Outside;
    let mut i: usize = 0;
    let ghost mut pairs: Seq<TagPair> = Seq::empty();
    while i < chars.len()
        invariant
            chars@ == text@,
            i <= chars@.len(),
            (pairs, st) == scan_prefix(chars@, i as nat),
            m@ == table_of(pairs),
            match st {
                TagState::Outside => true,
                TagState::Key { start } => start <= i,
                TagState::Value { key_start, colon } => key_start < colon < i,
            },
        decreases chars@.len() - i,
    {
        let c = chars[i];
        match st {
            TagState::Outside => {
                if c == '<' {
                    st = TagState::Key { start: i + 1 };
                }
            },
            TagState::Key { start } => {
                if c == ':' {
                    if i == start {
                        st = TagState::Outside;
                    } else {
                        st = TagState::Value { key_start: start, colon: i };
                    }
                } else if c == '<' {
                    st = TagState::Key { start: i + 1 };
                } else if c == '>' {
                    st = TagState::Outside;
                }
            },
            TagState::Value { key_start, colon } => {
                if c == '>' {
                    let key = substring(text, key_start, colon);
                    let value = substring(text, colon + 1, i);
                    proof {
                        let np = pairs.push((key@, value@));
                        assert(np.drop_last() =~= pairs);
                        pairs = np;
                    }
                    m.add(key, value);
                    st = TagState::Outside;
                }
            },
        }
        i += 1;
    }
    m
}

/// Reads the length-prefixed metadata block at `offset`: a little-endian
/// `u32` length, then that many bytes of UTF-8 metadata text.
pub fn read_metadata_block(data: &[u8], offset: usize) -> (r: Result<Metadata, Error>)
    ensures
        match r {
            Ok(m) => metadata_block(data@, offset as int) == Ok::<MetaTable, Error>(m@),
            Err(e) => metadata_block(data@, offset as int) == Err::<MetaTable, Error>(e),
        },
{
    if offset > data.len() || data.len() - offset < 4 {
        return Err(Error::BlockTruncated { offset });
    }
    let block_len = read_le_u32(data, offset) as usize;
    let start = offset + 4;
    if block_len > data.len() - start {
        return Err(Error::BlockTooLong { offset, length: block_len });
    }
    let end = start + block_len;
    match str_from_utf8(vstd::slice::slice_subrange(data, start, end)) {
        Ok(text) => Ok(parse_metadata_string(text)),
        Err(_) => Err(Error::InvalidUtf8 { offset }),
    }
}

} // verus!
