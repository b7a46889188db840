//! Entry walker and frame encoder: serializes an ordered tree of archive
//! entries into a flat, self-describing, length-framed byte stream, siblings
//! sorted by raw path bytes and children following their parent depth-first.

use vstd::prelude::*;

use crate::strings::sanitize_spec;
use crate::strings::strings;

verus! {

/// Terminal classification of whether and how an entry's children were
/// produced; only `Success` carries further entries.
pub enum Status {
    Unnecessary,
    Unrecognised,
    TooNested,
    Unsupported,
    Error,
    Success(Vec<Entry>),
}

/// One node of the unpacked archive tree: a relative path in raw bytes, the
/// backing content if the entry is a concrete file, and the outcome of
/// attempting to expand it.
pub struct Entry {
    pub path: Vec<u8>,
    pub content: Option<Vec<u8>>,
    pub status: Status,
}

/// The larger of two lengths.
pub open spec fn nat_max(a: nat, b: nat) -> nat {
    if a > b {
        a
    } else {
        b
    }
}

/// Height of one entry: one more than the height of its children, if any.
pub open spec fn entry_height(e: Entry) -> nat
    decreases e,
{
    match e.status {
        Status::Success(children) => 1 + entries_height(children@),
        _ => 1,
    }
}

/// Height of a sibling set: the largest height among its entries.
pub open spec fn entries_height(es: Seq<Entry>) -> nat
    decreases es,
{
    if es.len() == 0 {
        0
    } else {
        nat_max(entry_height(es[0]), entries_height(es.skip(1)))
    }
}

/// Byte-wise lexicographic order on raw path bytes, the sibling sort order;
/// a prefix sorts before its extensions.
pub open spec fn lex_le(a: Seq<u8>, b: Seq<u8>) -> bool
    decreases a.len(),
{
    if a.len() == 0 {
        true
    } else if b.len() == 0 {
        false
    } else if a[0] < b[0] {
        true
    } else if a[0] > b[0] {
        false
    } else {
        lex_le(a.skip(1), b.skip(1))
    }
}

/// Inserts an entry into a sorted sibling sequence, after every entry whose
/// path sorts at or before its own (a stable insertion).
pub open spec fn insert_one(s: Seq<Entry>, x: Entry) -> Seq<Entry>
    decreases s.len(),
{
    if s.len() == 0 {
        seq![x]
    } else if lex_le(s.last().path@, x.path@) {
        s.push(x)
    } else {
        insert_one(s.drop_last(), x).push(s.last())
    }
}

/// Sorts a sibling sequence by raw path bytes, ascending and stable.
pub open spec fn sort_entries(s: Seq<Entry>) -> Seq<Entry>
    decreases s.len(),
{
    if s.len() == 0 {
        Seq::empty()
    } else {
        insert_one(sort_entries(s.drop_last()), s.last())
    }
}

/// Tag byte for the entry's expansion status; each variant has its own.
pub open spec fn status_tag(s: Status) -> u8 {
    match s {
        Status::Unnecessary => 3,
        Status::Unrecognised => 4,
        Status::TooNested => 5,
        Status::Unsupported => 6,
        Status::Error => 7,
        Status::Success(_) => 8,
    }
}

/// Tag byte for the entry's content: 0 when sanitization kept the length, 1
/// when it changed it, 2 when the entry has no backing content.
pub open spec fn content_tag(c: Option<Vec<u8>>) -> u8 {
    match c {
        Option::None => 2,
        Option::Some(bytes) => if sanitize_spec(bytes@).len() == bytes@.len() {
            0
        } else {
            1
        },
    }
}

/// The content bytes a frame carries: the sanitized backing content, or
/// nothing.
pub open spec fn data_bytes(c: Option<Vec<u8>>) -> Seq<u8> {
    match c {
        Option::None => Seq::empty(),
        Option::Some(bytes) => sanitize_spec(bytes@),
    }
}

/// The metadata block of one frame: content tag, status tag, the full path
/// (ancestor prefix then the entry's own path), and a closing NUL that keeps
/// the path distinguishable from adjoining content.
pub open spec fn meta_bytes(e: Entry, prefix: Seq<u8>) -> Seq<u8> {
    seq![content_tag(e.content), status_tag(e.status)] + prefix + e.path@ + seq![0u8]
}

/// One frame: an 8-byte little-endian total length covering everything after
/// itself plus its own 8-byte length field, an 8-byte little-endian metadata
/// length, the metadata block, then the content bytes.
pub open spec fn frame_bytes(e: Entry, prefix: Seq<u8>) -> Seq<u8> {
    let meta = meta_bytes(e, prefix);
    let data = data_bytes(e.content);
    vstd::bytes::spec_u64_to_le_bytes((8 + meta.len() + data.len()) as u64)
        + vstd::bytes::spec_u64_to_le_bytes(meta.len() as u64) + meta + data
}

/// Whether one entry's frame, and recursively its children's, stay within
/// what the 8-byte length fields can describe.
pub open spec fn entry_fits(e: Entry, prefix_len: nat) -> bool
    decreases e,
{
    &&& 11 + prefix_len + e.path@.len() + data_bytes(e.content).len() <= u64::MAX
    &&& match e.status {
        Status::Success(children) => entries_fit(
            children@,
            prefix_len + e.path@.len() + 1,
        ),
        _ => true,
    }
}

/// Whether every entry of a sibling set fits, under the given ancestor
/// prefix length.
pub open spec fn entries_fit(es: Seq<Entry>, prefix_len: nat) -> bool
    decreases es,
{
    if es.len() == 0 {
        true
    } else {
        entry_fits(es[0], prefix_len) && entries_fit(es.skip(1), prefix_len)
    }
}

#[via_fn]
proof fn encode_entry_decreases(e: Entry, prefix: Seq<u8>) {
    match e.status {
        Status::Success(children) => {
            lemma_sort_entries_height(children@);
        },
        _ => {},
    }
}

/// The serialized form of one entry: its frame, then — only for `Success` —
/// the complete subtree of its children's frames, sorted, under a prefix
/// extended by this entry's path and a NUL.
pub open spec fn encode_entry(e: Entry, prefix: Seq<u8>) -> Seq<u8>
    decreases entry_height(e), 0int,
        via encode_entry_decreases
{
    frame_bytes(e, prefix) + match e.status {
        Status::Success(children) => encode_seq(
            sort_entries(children@),
            prefix + e.path@ + seq![0u8],
        ),
        _ => Seq::<u8>::empty(),
    }
}

#[via_fn]
proof fn encode_seq_decreases(es: Seq<Entry>, prefix: Seq<u8>) {
    if es.len() > 0 {
        assert(entries_height(es) == nat_max(entry_height(es[0]), entries_height(es.skip(1))));
    }
}

/// The serialized form of an already-sorted sibling sequence, in order.
pub open spec fn encode_seq(es: Seq<Entry>, prefix: Seq<u8>) -> Seq<u8>
    decreases entries_height(es), es.len(),
        via encode_seq_decreases
{
    if es.len() == 0 {
        Seq::empty()
    } else {
        encode_entry(es[0], prefix) + encode_seq(es.skip(1), prefix)
    }
}

/// The serialized form of a sibling set: sorted by raw path bytes, then each
/// entry's frame and subtree in order.
pub open spec fn encode_tree(es: Seq<Entry>, prefix: Seq<u8>) -> Seq<u8> {
    encode_seq(sort_entries(es), prefix)
}

/// An entry appended to a sibling set raises the set's height to its own, if
/// larger.
proof fn lemma_entries_height_push(s: Seq<Entry>, x: Entry)
    ensures
        entries_height(s.push(x)) == nat_max(entries_height(s), entry_height(x)),
    decreases s.len(),
{
    if s.len() == 0 {
        assert(s.push(x)[0] == x);
        assert(s.push(x).skip(1) =~= Seq::<Entry>::empty());
        assert(entries_height(Seq::<Entry>::empty()) == 0);
        assert(entries_height(s.push(x)) == nat_max(entry_height(x), 0));
    } else {
        assert(s.push(x)[0] == s[0]);
        assert(s.push(x).skip(1) =~= s.skip(1).push(x));
        lemma_entries_height_push(s.skip(1), x);
        assert(entries_height(s.push(x)) == nat_max(
            entry_height(s[0]),
            entries_height(s.skip(1).push(x)),
        ));
        assert(entries_height(s) == nat_max(entry_height(s[0]), entries_height(s.skip(1))));
    }
}

/// Stable insertion keeps the combined height of the set and the new entry.
proof fn lemma_insert_one_height(s: Seq<Entry>, x: Entry)
    ensures
        entries_height(insert_one(s, x)) == nat_max(entries_height(s), entry_height(x)),
    decreases s.len(),
{
    if s.len() == 0 {
        assert(insert_one(s, x) =~= Seq::<Entry>::empty().push(x));
        lemma_entries_height_push(Seq::<Entry>::empty(), x);
    } else if lex_le(s.last().path@, x.path@) {
        lemma_entries_height_push(s, x);
    } else {
        lemma_insert_one_height(s.drop_last(), x);
        lemma_entries_height_push(insert_one(s.drop_last(), x), s.last());
        assert(s =~= s.drop_last().push(s.last()));
        lemma_entries_height_push(s.drop_last(), s.last());
    }
}

/// Sorting a sibling set keeps its height.
proof fn lemma_sort_entries_height(s: Seq<Entry>)
    ensures
        entries_height(sort_entries(s)) == entries_height(s),
    decreases s.len(),
{
    if s.len() > 0 {
        lemma_sort_entries_height(s.drop_last());
        lemma_insert_one_height(sort_entries(s.drop_last()), s.last());
        assert(s =~= s.drop_last().push(s.last()));
        lemma_entries_height_push(s.drop_last(), s.last());
    }
}

/// No entry of a sibling set is taller than the set.
proof fn lemma_entries_height_index(es: Seq<Entry>, i: int)
    requires
        0 <= i < es.len(),
    ensures
        entry_height(es[i]) <= entries_height(es),
    decreases i,
{
    if i == 0 {
    } else {
        lemma_entries_height_index(es.skip(1), i - 1);
        assert(es.skip(1)[i - 1] == es[i]);
    }
}

/// Every entry of a fitting sibling set fits.
proof fn lemma_entries_fit_index(es: Seq<Entry>, prefix_len: nat, i: int)
    requires
        entries_fit(es, prefix_len),
        0 <= i < es.len(),
    ensures
        entry_fits(es[i], prefix_len),
    decreases i,
{
    if i == 0 {
    } else {
        lemma_entries_fit_index(es.skip(1), prefix_len, i - 1);
        assert(es.skip(1)[i - 1] == es[i]);
    }
}

/// A stable insertion lands exactly at the first position from the right
/// whose entry sorts at or before the new one.
proof fn lemma_insert_one_at(s: Seq<Entry>, x: Entry, j: int)
    requires
        0 <= j <= s.len(),
        forall|k: int| j <= k < s.len() ==> !lex_le(#[trigger] s[k].path@, x.path@),
        j > 0 ==> lex_le(s[j - 1].path@, x.path@),
    ensures
        insert_one(s, x) == s.insert(j, x),
    decreases s.len(),
{
    if j == s.len() {
        if s.len() == 0 {
            assert(insert_one(s, x) =~= s.insert(j, x));
        } else {
            assert(s.last() == s[j - 1]);
            assert(insert_one(s, x) == s.push(x));
            assert(s.push(x) =~= s.insert(j, x));
        }
    } else {
        assert(!lex_le(s[s.len() - 1].path@, x.path@));
        let d = s.drop_last();
        assert(forall|k: int| j <= k < d.len() ==> #[trigger] d[k] == s[k]);
        lemma_insert_one_at(d, x, j);
        assert(insert_one(s, x) == insert_one(d, x).push(s.last()));
        assert(d.insert(j, x).push(s.last()) =~= s.insert(j, x));
    }
}

/// Encoding a concatenation of sorted sibling runs concatenates their
/// encodings.
proof fn lemma_encode_seq_concat(s: Seq<Entry>, t: Seq<Entry>, prefix: Seq<u8>)
    ensures
        encode_seq(s + t, prefix) == encode_seq(s, prefix) + encode_seq(t, prefix),
    decreases s.len(),
{
    if s.len() == 0 {
        assert(s + t =~= t);
        assert(encode_seq(s, prefix) == Seq::<u8>::empty());
        assert(encode_seq(s + t, prefix) =~= encode_seq(s, prefix) + encode_seq(t, prefix));
    } else {
        let st = s + t;
        assert(st[0] == s[0]);
        assert(st.skip(1) =~= s.skip(1) + t);
        lemma_encode_seq_concat(s.skip(1), t, prefix);
        assert(encode_seq(st, prefix) == encode_entry(s[0], prefix) + encode_seq(
            st.skip(1),
            prefix,
        ));
        assert(encode_seq(s, prefix) == encode_entry(s[0], prefix) + encode_seq(
            s.skip(1),
            prefix,
        ));
        assert(encode_seq(st, prefix) =~= encode_seq(s, prefix) + encode_seq(t, prefix));
    }
}

/// Byte-wise comparison of two raw paths, the sibling sort order.
fn path_le(a: &[u8], b: &[u8]) -> (r: bool)
    ensures
        r == lex_le(a@, b@),
    decreases a@.len(),
{
    if a.len() == 0 {
        true
    } else if b.len() == 0 {
        false
    } else if a[0] < b[0] {
        true
    } else if a[0] > b[0] {
        false
    } else {
        let r = path_le(
            vstd::slice::slice_subrange(a, 1, a.len()),
            vstd::slice::slice_subrange(b, 1, b.len()),
        );
        proof {
            assert(a@.subrange(1, a@.len() as int) =~= a@.skip(1));
            assert(b@.subrange(1, b@.len() as int) =~= b@.skip(1));
        }
        r
    }
}

/// Appends a byte slice to a vector.
fn extend_bytes(dst: &mut Vec<u8>, src: &[u8])
    ensures
        final(dst)@ == old(dst)@ + src@,
{
    proof {
        assert(dst@ =~= old(dst)@ + src@.take(0));
    }
    let mut i: usize = 0;
    while i < src.len()
        invariant
            i <= src@.len(),
            dst@ == old(dst)@ + src@.take(i as int),
        decreases src@.len() - i,
    {
        dst.push(src[i]);
        proof {
            assert((old(dst)@ + src@.take(i as int)).push(src@[i as int]) =~= old(dst)@
                + src@.take(i + 1));
        }
        i = i + 1;
    }
    proof {
        assert(src@.take(src@.len() as int) =~= src@);
    }
}

/// Appends the 8-byte little-endian form of a length to the output.
fn push_u64_le(out: &mut Vec<u8>, x: u64)
    ensures
        final(out)@ == old(out)@ + vstd::bytes::spec_u64_to_le_bytes(x),
{
    let mut b = vstd::bytes::u64_to_le_bytes(x);
    out.append(&mut b);
}

/// The entries a sequence of indices picks out, in order.
pub open spec fn picked(order: Seq<usize>, entries: Seq<Entry>) -> Seq<Entry> {
    order.map_values(|j: usize| entries[j as int])
}

/// Computes the order in which a sibling set is visited: indices into
/// `entries`, sorted by raw path bytes, ascending and stable.
fn sort_order(entries: &Vec<Entry>) -> (order: Vec<usize>)
    ensures
        order@.len() == entries@.len(),
        forall|k: int| 0 <= k < order@.len() ==> (#[trigger] order@[k]) < entries@.len(),
        picked(order@, entries@) == sort_entries(entries@),
{
    let mut order: Vec<usize> = Vec::new();
    proof {
        assert(entries@.take(0) =~= Seq::<Entry>::empty());
        assert(picked(order@, entries@) =~= sort_entries(entries@.take(0)));
    }
    let mut i: usize = 0;
    while i < entries.len()
        invariant
            i <= entries@.len(),
            order@.len() == i,
            forall|k: int| 0 <= k < order@.len() ==> (#[trigger] order@[k]) < i,
            picked(order@, entries@) == sort_entries(entries@.take(i as int)),
        decreases entries@.len() - i,
    {
        let ghost sorted_i = sort_entries(entries@.take(i as int));
        let mut j: usize = order.len();
        loop
            invariant
                j <= order@.len(),
                order@.len() == i,
                i < entries@.len(),
                forall|k: int| 0 <= k < order@.len() ==> (#[trigger] order@[k]) < i,
                picked(order@, entries@) == sorted_i,
                forall|k: int|
                    j <= k < order@.len() ==> !lex_le(
                        #[trigger] sorted_i[k].path@,
                        entries@[i as int].path@,
                    ),
            ensures
                j <= order@.len(),
                order@.len() == i,
                forall|k: int|
                    j <= k < order@.len() ==> !lex_le(
                        #[trigger] sorted_i[k].path@,
                        entries@[i as int].path@,
                    ),
                j > 0 ==> lex_le(sorted_i[j - 1].path@, entries@[i as int].path@),
            decreases j,
        {
            if j == 0 {
                break;
            }
            let prev = order[j - 1];
            if path_le(entries[prev].path.as_slice(), entries[i].path.as_slice()) {
                proof {
                    assert(sorted_i[j - 1] == entries@[prev as int]);
                }
                break;
            }
            proof {
                assert(sorted_i[j - 1] == entries@[prev as int]);
            }
            j = j - 1;
        }
        proof {
            lemma_insert_one_at(sorted_i, entries@[i as int], j as int);
        }
        order.insert(j, i);
        proof {
            assert(picked(order@, entries@) =~= sorted_i.insert(j as int, entries@[i as int]));
            assert(entries@.take(i + 1).drop_last() =~= entries@.take(i as int));
            assert(entries@.take(i + 1).last() == entries@[i as int]);
            assert(sort_entries(entries@.take(i + 1)) == insert_one(
                sorted_i,
                entries@[i as int],
            ));
        }
        i = i + 1;
    }
    proof {
        assert(entries@.take(entries@.len() as int) =~= entries@);
    }
    order
}

/// The error the walker reports when the unpacker's top level is not an
/// expanded archive.
#[derive(Clone, Copy, Debug, PartialEq, Eq, Structural)]
pub enum EncodeError {
    NotArchive,
}

/// Serializes a sibling set and every subtree below it: siblings sorted by
/// raw path bytes, each entry's frame followed depth-first by its children's
/// frames under a prefix extended by the entry's path and a NUL. Appends the
/// stream to `out`.
pub fn output(entries: &Vec<Entry>, prefix: &Vec<u8>, out: &mut Vec<u8>)
    requires
        entries_fit(entries@, prefix@.len()),
    ensures
        final(out)@ == old(out)@ + encode_tree(entries@, prefix@),
    decreases entries_height(entries@),
{
    let order = sort_order(entries);
    let ghost sorted = sort_entries(entries@);
    let ghost out0 = out@;
    proof {
        assert(sorted.take(0) =~= Seq::<Entry>::empty());
        assert(out@ =~= out0 + encode_seq(sorted.take(0), prefix@));
    }
    let mut k: usize = 0;
    while k < order.len()
        invariant
            k <= order@.len(),
            order@.len() == entries@.len(),
            forall|m: int| 0 <= m < order@.len() ==> (#[trigger] order@[m]) < entries@.len(),
            picked(order@, entries@) == sorted,
            sorted == sort_entries(entries@),
            entries_fit(entries@, prefix@.len()),
            out@ == out0 + encode_seq(sorted.take(k as int), prefix@),
        decreases order@.len() - k,
    {
        let idx = order[k];
        let e = &entries[idx];
        proof {
            assert(sorted[k as int] == entries@[idx as int]);
            lemma_entries_fit_index(entries@, prefix@.len(), idx as int);
            assert(entry_fits(*e, prefix@.len()));
        }
        let ghost frame_start = out@;

        // Sanitize the backing content and pick the content tag.
        let mut data: Vec<u8> = Vec::new();
        let ctag: u8;
        match &e.content {
            Option::Some(c) => {
                data = strings(c.as_slice());
                if data.len() == c.len() {
                    ctag = 0;
                } else {
                    ctag = 1;
                }
            },
            Option::None => {
                ctag = 2;
            },
        }
        proof {
            assert(data@ == data_bytes(e.content));
            assert(ctag == content_tag(e.content));
        }

        let stag: u8 = match &e.status {
            Status::Unnecessary => 3,
            Status::Unrecognised => 4,
            Status::TooNested => 5,
            Status::Unsupported => 6,
            Status::Error => 7,
            Status::Success(_) => 8,
        };

        // Metadata block: tags, full path, closing NUL.
        let mut meta: Vec<u8> = Vec::new();
        meta.push(ctag);
        meta.push(stag);
        extend_bytes(&mut meta, prefix.as_slice());
        extend_bytes(&mut meta, e.path.as_slice());
        meta.push(0u8);
        proof {
            assert(meta@ =~= meta_bytes(*e, prefix@));
        }

        // Length fields, metadata, then content.
        let meta_len: u64 = meta.len() as u64;
        let data_len: u64 = data.len() as u64;
        let total: u64 = 8 + meta_len + data_len;
        push_u64_le(out, total);
        push_u64_le(out, meta_len);
        out.append(&mut meta);
        out.append(&mut data);
        proof {
            assert(out@ =~= frame_start + frame_bytes(*e, prefix@));
        }

        // Depth-first: the children's subtree follows immediately.
        match &e.status {
            Status::Success(children) => {
                let mut child_prefix: Vec<u8> = Vec::new();
                extend_bytes(&mut child_prefix, prefix.as_slice());
                extend_bytes(&mut child_prefix, e.path.as_slice());
                child_prefix.push(0u8);
                proof {
                    assert(child_prefix@ =~= prefix@ + e.path@ + seq![0u8]);
                    lemma_entries_height_index(entries@, idx as int);
                    assert(entry_height(entries@[idx as int]) == 1 + entries_height(
                        children@,
                    ));
                }
                output(children, &child_prefix, out);
            },
            _ => {},
        }
        proof {
            assert(out@ =~= frame_start + encode_entry(*e, prefix@));
            assert(sorted.take(k + 1) =~= sorted.take(k as int) + seq![sorted[k as int]]);
            lemma_encode_seq_concat(sorted.take(k as int), seq![sorted[k as int]], prefix@);
            assert(seq![sorted[k as int]].skip(1) =~= Seq::<Entry>::empty());
            assert(seq![sorted[k as int]][0] == sorted[k as int]);
            assert(encode_seq(Seq::<Entry>::empty(), prefix@) == Seq::<u8>::empty());
            assert(encode_seq(seq![sorted[k as int]], prefix@) == encode_entry(
                sorted[k as int],
                prefix@,
            ) + encode_seq(Seq::<Entry>::empty(), prefix@));
            assert(encode_seq(seq![sorted[k as int]], prefix@) =~= encode_entry(
                sorted[k as int],
                prefix@,
            ));
            assert(out@ =~= out0 + encode_seq(sorted.take(k + 1), prefix@));
        }
        k = k + 1;
    }
    proof {
        assert(sorted.take(sorted.len() as int) =~= sorted);
    }
}

/// Serializes the unpacker's top-level outcome: an expanded archive becomes
/// the full frame stream of its entries; any other outcome is refused.
pub fn frame_stream(root: &Status) -> (r: Result<Vec<u8>, EncodeError>)
    requires
        root matches Status::Success(es) ==> entries_fit(es@, 0),
    ensures
        match r {
            Result::Ok(bytes) => root matches Status::Success(es) && bytes@ == encode_tree(
                es@,
                Seq::<u8>::empty(),
            ),
            Result::Err(err) => !(root is Success) && err == EncodeError::NotArchive,
        },
{
    match root {
        Status::Success(entries) => {
            let prefix: Vec<u8> = Vec::new();
            let mut out: Vec<u8> = Vec::new();
            output(entries, &prefix, &mut out);
            proof {
                assert(out@ =~= encode_tree(entries@, Seq::<u8>::empty()));
            }
            Result::Ok(out)
        },
        _ => Result::Err(EncodeError::NotArchive),
    }
}

/// Frame invariant: a frame is two 8-byte little-endian length fields, the
/// metadata block, then exactly the content bytes; the first field decodes
/// to 8 plus the metadata length plus the content length, the second to the
/// metadata length.
pub proof fn lemma_frame_invariant(e: Entry, prefix: Seq<u8>)
    requires
        entry_fits(e, prefix.len()),
    ensures
        frame_bytes(e, prefix).len() == 16 + meta_bytes(e, prefix).len() + data_bytes(
            e.content,
        ).len(),
        vstd::bytes::spec_u64_from_le_bytes(frame_bytes(e, prefix).take(8)) == 8 + meta_bytes(
            e,
            prefix,
        ).len() + data_bytes(e.content).len(),
        vstd::bytes::spec_u64_from_le_bytes(frame_bytes(e, prefix).subrange(8, 16)) == meta_bytes(
            e,
            prefix,
        ).len(),
        frame_bytes(e, prefix).skip(16) == meta_bytes(e, prefix) + data_bytes(e.content),
{
    vstd::bytes::lemma_auto_spec_u64_to_from_le_bytes();
    let meta = meta_bytes(e, prefix);
    let data = data_bytes(e.content);
    let total = (8 + meta.len() + data.len()) as u64;
    let mlen = meta.len() as u64;
    let frame = frame_bytes(e, prefix);
    assert(vstd::bytes::spec_u64_to_le_bytes(total).len() == 8);
    assert(vstd::bytes::spec_u64_to_le_bytes(mlen).len() == 8);
    assert(frame.take(8) =~= vstd::bytes::spec_u64_to_le_bytes(total));
    assert(frame.subrange(8, 16) =~= vstd::bytes::spec_u64_to_le_bytes(mlen));
    assert(frame.skip(16) =~= meta + data);
    assert(8 + meta.len() + data.len() <= u64::MAX);
    assert(total == 8 + meta.len() + data.len());
    assert(mlen == meta.len());
}

/// Status mapping exhaustiveness: the six status variants map to the six
/// distinct tag bytes 3 through 8 — equal tags mean the same variant.
pub proof fn lemma_status_tag_distinct(s1: Status, s2: Status)
    ensures
        3 <= status_tag(s1) <= 8,
        status_tag(s1) == status_tag(s2) ==> {
            &&& (s1 is Unnecessary <==> s2 is Unnecessary)
            &&& (s1 is Unrecognised <==> s2 is Unrecognised)
            &&& (s1 is TooNested <==> s2 is TooNested)
            &&& (s1 is Unsupported <==> s2 is Unsupported)
            &&& (s1 is Error <==> s2 is Error)
            &&& (s1 is Success <==> s2 is Success)
        },
{
}

/// Content mapping exhaustiveness: the three content conditions map to the
/// distinct tag bytes 0 through 2 — absent content to 2, content whose
/// sanitized form kept its length to 0, content whose length changed to 1.
pub proof fn lemma_content_tag_distinct(c: Option<Vec<u8>>)
    ensures
        content_tag(c) <= 2,
        content_tag(c) == 2 <==> c is None,
        c matches Some(b) ==> (content_tag(c) == 0 <==> sanitize_spec(b@).len() == b@.len()),
        c matches Some(b) ==> (content_tag(c) == 1 <==> sanitize_spec(b@).len() != b@.len()),
{
}

/// Determinism: the frame stream is a pure function of the entry tree and
/// the ancestor prefix; byte-identical trees serialize to byte-identical
/// streams.
pub proof fn lemma_encode_deterministic(a: Seq<Entry>, b: Seq<Entry>, p: Seq<u8>, q: Seq<u8>)
    requires
        a == b,
        p == q,
    ensures
        encode_tree(a, p) == encode_tree(b, q),
{
}


/// Whether a byte stream parses as consecutive frames: each starts with an
/// 8-byte little-endian total length of at least 8 plus its metadata length,
/// owns exactly that many bytes after its own length field, and is followed
/// by another well-formed frame or the end of the stream.
pub open spec fn parses_as_frames(s: Seq<u8>) -> bool
    decreases s.len(),
{
    if s.len() == 0 {
        true
    } else {
        &&& s.len() >= 16
        &&& {
            let total = vstd::bytes::spec_u64_from_le_bytes(s.take(8)) as int;
            let mlen = vstd::bytes::spec_u64_from_le_bytes(s.subrange(8, 16)) as int;
            &&& total >= 8 + mlen
            &&& s.len() >= 8 + total
            &&& parses_as_frames(s.skip(8 + total))
        }
    }
}

/// Two frame sequences in a row still parse as frames.
proof fn lemma_parses_concat(a: Seq<u8>, b: Seq<u8>)
    requires
        parses_as_frames(a),
        parses_as_frames(b),
    ensures
        parses_as_frames(a + b),
    decreases a.len(),
{
    if a.len() == 0 {
        assert(a + b =~= b);
    } else if b.len() == 0 {
        assert(a + b =~= a);
    } else {
        let ab = a + b;
        assert(ab.take(8) =~= a.take(8));
        assert(ab.subrange(8, 16) =~= a.subrange(8, 16));
        let total = vstd::bytes::spec_u64_from_le_bytes(a.take(8)) as int;
        assert(ab.skip(8 + total) =~= a.skip(8 + total) + b);
        lemma_parses_concat(a.skip(8 + total), b);
        assert(parses_as_frames(ab));
    }
}

/// Stable insertion keeps an elementwise property of the entries.
proof fn lemma_insert_one_all(s: Seq<Entry>, x: Entry, p: spec_fn(Entry) -> bool)
    requires
        forall|i: int| 0 <= i < s.len() ==> #[trigger] p(s[i]),
        p(x),
    ensures
        forall|i: int| 0 <= i < insert_one(s, x).len() ==> #[trigger] p(insert_one(s, x)[i]),
    decreases s.len(),
{
    if s.len() == 0 {
        assert forall|i: int| 0 <= i < insert_one(s, x).len() implies #[trigger] p(
            insert_one(s, x)[i],
        ) by {
            assert(insert_one(s, x)[i] == x);
        }
    } else if lex_le(s.last().path@, x.path@) {
        assert forall|i: int| 0 <= i < s.push(x).len() implies #[trigger] p(s.push(x)[i]) by {
            if i < s.len() {
                assert(s.push(x)[i] == s[i]);
            } else {
                assert(s.push(x)[i] == x);
            }
        }
    } else {
        let d = s.drop_last();
        assert forall|i: int| 0 <= i < d.len() implies #[trigger] p(d[i]) by {
            assert(d[i] == s[i]);
        }
        lemma_insert_one_all(d, x, p);
        let q = insert_one(d, x);
        assert forall|i: int| 0 <= i < q.push(s.last()).len() implies #[trigger] p(
            q.push(s.last())[i],
        ) by {
            if i < q.len() {
                assert(q.push(s.last())[i] == q[i]);
            } else {
                assert(q.push(s.last())[i] == s.last());
                assert(s.last() == s[s.len() - 1]);
            }
        }
    }
}

/// Sorting keeps an elementwise property of the entries.
proof fn lemma_sort_all(s: Seq<Entry>, p: spec_fn(Entry) -> bool)
    requires
        forall|i: int| 0 <= i < s.len() ==> #[trigger] p(s[i]),
    ensures
        forall|i: int| 0 <= i < sort_entries(s).len() ==> #[trigger] p(sort_entries(s)[i]),
    decreases s.len(),
{
    if s.len() > 0 {
        let d = s.drop_last();
        assert forall|i: int| 0 <= i < d.len() implies #[trigger] p(d[i]) by {
            assert(d[i] == s[i]);
        }
        lemma_sort_all(d, p);
        assert(p(s.last())) by {
            assert(s.last() == s[s.len() - 1]);
        }
        lemma_insert_one_all(sort_entries(d), s.last(), p);
    }
}

/// One entry's serialized form parses as frames: its own frame, then its
/// children's.
proof fn lemma_entry_parses(e: Entry, prefix: Seq<u8>)
    requires
        entry_fits(e, prefix.len()),
    ensures
        parses_as_frames(encode_entry(e, prefix)),
    decreases entry_height(e), 0int,
{
    lemma_frame_invariant(e, prefix);
    let frame = frame_bytes(e, prefix);
    let meta = meta_bytes(e, prefix);
    let data = data_bytes(e.content);
    let total = vstd::bytes::spec_u64_from_le_bytes(frame.take(8)) as int;
    assert(total == 8 + meta.len() + data.len());
    assert(frame.len() == 8 + total);
    assert(frame.skip(8 + total) =~= Seq::<u8>::empty());
    assert(parses_as_frames(Seq::<u8>::empty()));
    assert(parses_as_frames(frame));
    match e.status {
        Status::Success(children) => {
            let child_prefix = prefix + e.path@ + seq![0u8];
            assert(child_prefix.len() == prefix.len() + e.path@.len() + 1);
            let fits_here = |c: Entry| entry_fits(c, child_prefix.len());
            assert forall|i: int| 0 <= i < children@.len() implies #[trigger] fits_here(
                children@[i],
            ) by {
                lemma_entries_fit_index(children@, child_prefix.len(), i);
            }
            lemma_sort_all(children@, fits_here);
            let sorted = sort_entries(children@);
            assert forall|i: int| 0 <= i < sorted.len() implies entry_fits(
                #[trigger] sorted[i],
                child_prefix.len(),
            ) by {
                assert(fits_here(sorted[i]));
            }
            lemma_sort_entries_height(children@);
            lemma_seq_parses(sorted, child_prefix);
            lemma_parses_concat(frame, encode_seq(sorted, child_prefix));
        },
        _ => {
            assert(encode_entry(e, prefix) =~= frame);
        },
    }
}

/// An already-sorted sibling sequence's serialized form parses as frames.
proof fn lemma_seq_parses(es: Seq<Entry>, prefix: Seq<u8>)
    requires
        forall|i: int| 0 <= i < es.len() ==> entry_fits(#[trigger] es[i], prefix.len()),
    ensures
        parses_as_frames(encode_seq(es, prefix)),
    decreases entries_height(es), es.len(),
{
    if es.len() == 0 {
        assert(parses_as_frames(encode_seq(es, prefix)));
    } else {
        assert(entries_height(es) == nat_max(entry_height(es[0]), entries_height(es.skip(1))));
        lemma_entry_parses(es[0], prefix);
        assert forall|i: int| 0 <= i < es.skip(1).len() implies entry_fits(
            #[trigger] es.skip(1)[i],
            prefix.len(),
        ) by {
            assert(es.skip(1)[i] == es[i + 1]);
        }
        lemma_seq_parses(es.skip(1), prefix);
        lemma_parses_concat(encode_entry(es[0], prefix), encode_seq(es.skip(1), prefix));
    }
}

/// Frame invariant, whole stream: the serialized tree parses as consecutive
/// frames — each an 8-byte little-endian total length equal to 8 plus the
/// metadata length plus the content length, an 8-byte little-endian metadata
/// length no larger than that, then exactly the metadata and content bytes
/// the total accounts for, frame after frame to the end of the stream.
pub proof fn lemma_stream_parses(es: Seq<Entry>, prefix: Seq<u8>)
    requires
        entries_fit(es, prefix.len()),
    ensures
        parses_as_frames(encode_tree(es, prefix)),
{
    let fits_here = |c: Entry| entry_fits(c, prefix.len());
    assert forall|i: int| 0 <= i < es.len() implies #[trigger] fits_here(es[i]) by {
        lemma_entries_fit_index(es, prefix.len(), i);
    }
    lemma_sort_all(es, fits_here);
    let sorted = sort_entries(es);
    assert forall|i: int| 0 <= i < sorted.len() implies entry_fits(
        #[trigger] sorted[i],
        prefix.len(),
    ) by {
        assert(fits_here(sorted[i]));
    }
    lemma_seq_parses(sorted, prefix);
}

} // verus!


