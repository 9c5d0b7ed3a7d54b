//! The split file layout: a single object holding a header with the
//! magic and version, the concatenated inner files, and a trailer
//! describing each inner file's name, absolute offset and length. The
//! trailer is what a searcher fetches first, via a tail range read of
//! the footer offsets.

use vstd::prelude::*;

use vstd::bytes::{
    lemma_auto_spec_u32_to_from_le_bytes, lemma_auto_spec_u64_to_from_le_bytes,
    spec_u32_from_le_bytes, spec_u32_to_le_bytes, spec_u64_from_le_bytes, spec_u64_to_le_bytes,
    u32_from_le_bytes, u32_to_le_bytes, u64_from_le_bytes, u64_to_le_bytes,
};

use crate::storage::copy_bytes;
use crate::ErrorKind;

verus! {

broadcast use vstd::std_specs::vec::group_vec_axioms;

/// One entry of the trailer: an inner file's name, and the absolute
/// byte range it occupies in the bundle.
pub struct BundleEntry {
    pub name: Vec<u8>,
    pub offset: u64,
    pub length: u64,
}

/// Mathematical abstraction of a trailer entry.
pub struct BundleEntryView {
    pub name: Seq<u8>,
    pub offset: u64,
    pub length: u64,
}

impl View for BundleEntry {
    type V = BundleEntryView;

    open spec fn view(&self) -> BundleEntryView {
        BundleEntryView { name: self.name@, offset: self.offset, length: self.length }
    }
}

/// The abstractions of a list of trailer entries.
pub open spec fn entry_views(s: Seq<BundleEntry>) -> Seq<BundleEntryView> {
    s.map_values(|e: BundleEntry| e@)
}

/// A name fits in the length field the format gives it.
pub open spec fn entry_wf(e: BundleEntryView) -> bool {
    e.name.len() <= u32::MAX
}

/// The encoding of one trailer entry: the name length, the name, the
/// offset and the length.
pub open spec fn spec_encode_entry(e: BundleEntryView) -> Seq<u8> {
    spec_u32_to_le_bytes(e.name.len() as u32) + e.name + spec_u64_to_le_bytes(e.offset)
        + spec_u64_to_le_bytes(e.length)
}

/// The encoding of a list of trailer entries, in order.
pub open spec fn spec_encode_entries(es: Seq<BundleEntryView>) -> Seq<u8>
    decreases es.len(),
{
    if es.len() == 0 {
        Seq::empty()
    } else {
        spec_encode_entry(es[0]) + spec_encode_entries(es.drop_first())
    }
}

/// The encoding of the whole trailer: the entry count followed by the
/// entries.
pub open spec fn spec_encode_trailer(es: Seq<BundleEntryView>) -> Seq<u8> {
    spec_u32_to_le_bytes(es.len() as u32) + spec_encode_entries(es)
}

/// Appending an entry appends its encoding.
pub proof fn lemma_encode_entries_push(es: Seq<BundleEntryView>, e: BundleEntryView)
    ensures
        spec_encode_entries(es.push(e)) == spec_encode_entries(es) + spec_encode_entry(e),
    decreases es.len(),
{
    if es.len() == 0 {
        assert(es.push(e)[0] == e);
        assert(es.push(e).drop_first() =~= es);
        assert(spec_encode_entries(es.push(e)) =~= spec_encode_entries(es) + spec_encode_entry(
            e,
        ));
    } else {
        assert(es.push(e)[0] == es[0]);
        assert(es.push(e).drop_first() =~= es.drop_first().push(e));
        lemma_encode_entries_push(es.drop_first(), e);
        assert(spec_encode_entries(es.push(e)) =~= spec_encode_entries(es) + spec_encode_entry(
            e,
        ));
    }
}

/// One parsing step: the entry at the position, and the position after
/// it, or nothing when the bytes do not describe an entry there.
pub open spec fn spec_parse_entry(bytes: Seq<u8>, pos: int) -> Option<(BundleEntryView, int)> {
    if pos + 4 > bytes.len() {
        Option::None
    } else {
        let n = spec_u32_from_le_bytes(bytes.subrange(pos, pos + 4)) as int;
        if pos + 4 + n + 16 > bytes.len() {
            Option::None
        } else {
            Option::Some(
                (
                    BundleEntryView {
                        name: bytes.subrange(pos + 4, pos + 4 + n),
                        offset: spec_u64_from_le_bytes(bytes.subrange(pos + 4 + n, pos + 4 + n + 8)),
                        length: spec_u64_from_le_bytes(
                            bytes.subrange(pos + 4 + n + 8, pos + 4 + n + 16),
                        ),
                    },
                    pos + 4 + n + 16,
                ),
            )
        }
    }
}

/// Parses `count` entries starting at the position.
pub open spec fn spec_parse_entries(bytes: Seq<u8>, pos: int, count: nat) -> Option<
    (Seq<BundleEntryView>, int),
>
    decreases count,
{
    if count == 0 {
        Option::Some((Seq::empty(), pos))
    } else {
        match spec_parse_entry(bytes, pos) {
            Option::None => Option::None,
            Option::Some((e, p2)) => match spec_parse_entries(bytes, p2, (count - 1) as nat) {
                Option::None => Option::None,
                Option::Some((es, p3)) => Option::Some((seq![e] + es, p3)),
            },
        }
    }
}

/// Parses a whole trailer: the count, then exactly that many entries,
/// consuming every byte.
pub open spec fn spec_parse_trailer(bytes: Seq<u8>) -> Option<Seq<BundleEntryView>> {
    if bytes.len() < 4 {
        Option::None
    } else {
        let count = spec_u32_from_le_bytes(bytes.subrange(0, 4)) as nat;
        match spec_parse_entries(bytes, 4, count) {
            Option::None => Option::None,
            Option::Some((es, p)) => if p == bytes.len() {
                Option::Some(es)
            } else {
                Option::None
            },
        }
    }
}

/// Parsing an encoding recovers the entries: the entries encoded after
/// any prefix, and ending the byte sequence, parse back to themselves.
pub proof fn lemma_parse_entries_of_encoding(bytes: Seq<u8>, pos: int, es: Seq<BundleEntryView>)
    requires
        0 <= pos <= bytes.len(),
        forall|k: int| 0 <= k < es.len() ==> entry_wf(#[trigger] es[k]),
        bytes.subrange(pos, bytes.len() as int) == spec_encode_entries(es),
    ensures
        spec_parse_entries(bytes, pos, es.len() as nat) == Option::Some(
            (es, bytes.len() as int),
        ),
    decreases es.len(),
{
    lemma_auto_spec_u32_to_from_le_bytes();
    lemma_auto_spec_u64_to_from_le_bytes();
    let rest = bytes.subrange(pos, bytes.len() as int);
    if es.len() == 0 {
        assert(rest.len() == 0);
    } else {
        let e = es[0];
        let n = e.name.len() as int;
        let a = spec_u32_to_le_bytes(e.name.len() as u32);
        let b = e.name;
        let c = spec_u64_to_le_bytes(e.offset);
        let d = spec_u64_to_le_bytes(e.length);
        let enc = spec_encode_entry(e);
        let tail = spec_encode_entries(es.drop_first());
        assert(enc == a + b + c + d);
        assert(enc.len() == 4 + n + 16);
        assert(rest == enc + tail);
        assert(rest.len() == enc.len() + tail.len());
        assert(pos + 4 + n + 16 <= bytes.len());
        assert(bytes.subrange(pos, pos + 4) =~= a) by {
            assert forall|q: int| 0 <= q < 4 implies bytes[pos + q] == a[q] by {
                assert(bytes[pos + q] == rest[q]);
                assert(rest[q] == enc[q]);
                assert(enc[q] == (a + b)[q]);
                assert(((a + b) + c)[q] == (a + b)[q]);
                assert(enc[q] == ((a + b) + c)[q]);
            }
        }
        assert(spec_u32_from_le_bytes(bytes.subrange(pos, pos + 4)) == e.name.len() as u32);
        assert(bytes.subrange(pos + 4, pos + 4 + n) =~= b) by {
            assert forall|q: int| 0 <= q < n implies bytes[pos + 4 + q] == b[q] by {
                assert(bytes[pos + 4 + q] == rest[4 + q]);
                assert(rest[4 + q] == enc[4 + q]);
                assert((a + b)[4 + q] == b[q]);
                assert(((a + b) + c)[4 + q] == (a + b)[4 + q]);
                assert(enc[4 + q] == ((a + b) + c)[4 + q]);
            }
        }
        assert(bytes.subrange(pos + 4 + n, pos + 4 + n + 8) =~= c) by {
            assert forall|q: int| 0 <= q < 8 implies bytes[pos + 4 + n + q] == c[q] by {
                assert(bytes[pos + 4 + n + q] == rest[4 + n + q]);
                assert(rest[4 + n + q] == enc[4 + n + q]);
                assert(((a + b) + c)[4 + n + q] == c[q]);
                assert(enc[4 + n + q] == ((a + b) + c)[4 + n + q]);
            }
        }
        assert(bytes.subrange(pos + 4 + n + 8, pos + 4 + n + 16) =~= d) by {
            assert forall|q: int| 0 <= q < 8 implies bytes[pos + 4 + n + 8 + q] == d[q] by {
                assert(bytes[pos + 4 + n + 8 + q] == rest[4 + n + 8 + q]);
                assert(rest[4 + n + 8 + q] == enc[4 + n + 8 + q]);
                assert(enc[4 + n + 8 + q] == d[q]);
            }
        }
        let parsed = spec_parse_entry(bytes, pos);
        assert(parsed == Option::Some(
            (BundleEntryView { name: e.name, offset: e.offset, length: e.length }, pos + 4 + n
                + 16),
        ));
        assert(BundleEntryView { name: e.name, offset: e.offset, length: e.length } == e);
        let p2 = pos + 4 + n + 16;
        assert(bytes.subrange(p2, bytes.len() as int) =~= tail) by {
            assert forall|q: int| 0 <= q < bytes.len() - p2 implies bytes[p2 + q] == tail[q] by {
                assert(bytes[p2 + q] == rest[enc.len() + q]);
                assert(rest[enc.len() + q] == tail[q]);
            }
        }
        lemma_parse_entries_of_encoding(bytes, p2, es.drop_first());
        assert(seq![e] + es.drop_first() =~= es);
    }
}

/// Round trip through the trailer: every well-formed entry list parses
/// back from its own encoding.
pub proof fn lemma_trailer_round_trip(es: Seq<BundleEntryView>)
    requires
        es.len() <= u32::MAX,
        forall|k: int| 0 <= k < es.len() ==> entry_wf(#[trigger] es[k]),
    ensures
        spec_parse_trailer(spec_encode_trailer(es)) == Option::Some(es),
{
    lemma_auto_spec_u32_to_from_le_bytes();
    let bytes = spec_encode_trailer(es);
    assert(bytes.subrange(0, 4) =~= spec_u32_to_le_bytes(es.len() as u32));
    assert(spec_u32_from_le_bytes(bytes.subrange(0, 4)) == es.len() as u32);
    assert(bytes.subrange(4, bytes.len() as int) =~= spec_encode_entries(es));
    lemma_parse_entries_of_encoding(bytes, 4, es);
}

/// Encodes a trailer. Succeeds exactly when the entry count and every
/// name length fit the format's fields.
#[verifier::loop_isolation(false)]
pub fn encode_trailer(entries: &Vec<BundleEntry>) -> (r: Result<Vec<u8>, ErrorKind>)
    ensures
        ({
            let es = entry_views(entries@);
            if es.len() <= u32::MAX && (forall|k: int|
                0 <= k < es.len() ==> entry_wf(#[trigger] es[k])) {
                r matches Ok(bytes) && bytes@ == spec_encode_trailer(es)
            } else {
                r == Err::<Vec<u8>, ErrorKind>(ErrorKind::InvalidArgument)
            }
        }),
{
    let ghost es = entry_views(entries@);
    if entries.len() > u32::MAX as usize {
        return Err(ErrorKind::InvalidArgument);
    }
    let mut k: usize = 0;
    while k < entries.len()
        invariant
            k <= entries@.len(),
            forall|q: int| 0 <= q < k ==> entry_wf(#[trigger] es[q]),
        decreases entries@.len() - k,
    {
        if entries[k].name.len() > u32::MAX as usize {
            assert(!entry_wf(es[k as int]));
            return Err(ErrorKind::InvalidArgument);
        }
        k = k + 1;
    }
    let mut out = u32_to_le_bytes(entries.len() as u32);
    let ghost head = out@;
    let mut k: usize = 0;
    while k < entries.len()
        invariant
            k <= entries@.len(),
            forall|q: int| 0 <= q < entries@.len() ==> entry_wf(#[trigger] es[q]),
            out@ == head + spec_encode_entries(es.take(k as int)),
            head == spec_u32_to_le_bytes(entries@.len() as u32),
        decreases entries@.len() - k,
    {
        let ghost before = out@;
        let mut name_len = u32_to_le_bytes(entries[k].name.len() as u32);
        out.append(&mut name_len);
        let mut name = copy_bytes(&entries[k].name);
        out.append(&mut name);
        let mut off = u64_to_le_bytes(entries[k].offset);
        out.append(&mut off);
        let mut len = u64_to_le_bytes(entries[k].length);
        out.append(&mut len);
        proof {
            assert(out@ =~= before + spec_encode_entry(es[k as int]));
            lemma_encode_entries_push(es.take(k as int), es[k as int]);
            assert(es.take(k + 1) =~= es.take(k as int).push(es[k as int]));
            assert(out@ =~= head + spec_encode_entries(es.take(k + 1)));
        }
        k = k + 1;
    }
    proof {
        assert(es.take(es.len() as int) =~= es);
    }
    Ok(out)
}

/// Reads the little-endian word of four bytes at the position.
fn read_u32_at(bytes: &Vec<u8>, pos: usize) -> (r: u32)
    requires
        pos + 4 <= bytes@.len(),
    ensures
        r == spec_u32_from_le_bytes(bytes@.subrange(pos as int, pos + 4)),
{
    let n = bytes.len();
    assert(pos + 4 <= n);
    let mut word: Vec<u8> = Vec::new();
    word.push(bytes[pos]);
    word.push(bytes[pos + 1]);
    word.push(bytes[pos + 2]);
    word.push(bytes[pos + 3]);
    proof {
        assert(word@ =~= bytes@.subrange(pos as int, pos + 4));
    }
    u32_from_le_bytes(word.as_slice())
}

/// Reads the little-endian word of eight bytes at the position.
fn read_u64_at(bytes: &Vec<u8>, pos: usize) -> (r: u64)
    requires
        pos + 8 <= bytes@.len(),
    ensures
        r == spec_u64_from_le_bytes(bytes@.subrange(pos as int, pos + 8)),
{
    let n = bytes.len();
    assert(pos + 8 <= n);
    let mut word: Vec<u8> = Vec::new();
    word.push(bytes[pos]);
    word.push(bytes[pos + 1]);
    word.push(bytes[pos + 2]);
    word.push(bytes[pos + 3]);
    word.push(bytes[pos + 4]);
    word.push(bytes[pos + 5]);
    word.push(bytes[pos + 6]);
    word.push(bytes[pos + 7]);
    proof {
        assert(word@ =~= bytes@.subrange(pos as int, pos + 8));
    }
    u64_from_le_bytes(word.as_slice())
}

/// Decodes a trailer. Succeeds exactly on the byte sequences the
/// trailer grammar accepts, and recovers the entries the bytes
/// describe; anything else is rejected as an invalid argument.
#[verifier::loop_isolation(false)]
#[verifier::rlimit(30)]
pub fn decode_trailer(bytes: &Vec<u8>) -> (r: Result<Vec<BundleEntry>, ErrorKind>)
    ensures
        match r {
            Ok(entries) => spec_parse_trailer(bytes@) == Option::Some(entry_views(entries@)),
            Err(e) => e == ErrorKind::InvalidArgument && spec_parse_trailer(bytes@) is None,
        },
{
    if bytes.len() < 4 {
        return Err(ErrorKind::InvalidArgument);
    }
    let count = read_u32_at(bytes, 0);
    let ghost total = count as nat;
    let mut out: Vec<BundleEntry> = Vec::new();
    let mut pos: usize = 4;
    let mut parsed: u32 = 0;
    while parsed < count
        invariant
            parsed <= count,
            4 <= pos <= bytes@.len(),
            count == spec_u32_from_le_bytes(bytes@.subrange(0, 4)),
            out@.len() == parsed,
            spec_parse_entries(bytes@, 4, total) == (match spec_parse_entries(
                bytes@,
                pos as int,
                (total - parsed as nat) as nat,
            ) {
                Option::None => Option::None::<(Seq<BundleEntryView>, int)>,
                Option::Some((rest, p)) => Option::Some((entry_views(out@) + rest, p)),
            }),
        decreases count - parsed,
    {
        let ghost remaining = (total - parsed as nat) as nat;
        if pos > bytes.len() - 4 || bytes.len() < 4 {
            proof {
                assert(spec_parse_entry(bytes@, pos as int) is None);
            }
            return Err(ErrorKind::InvalidArgument);
        }
        let name_len_u32 = read_u32_at(bytes, pos);
        let name_len = name_len_u32 as usize;
        if name_len > bytes.len() - pos - 4 || bytes.len() - pos - 4 - name_len < 16 {
            proof {
                assert(spec_parse_entry(bytes@, pos as int) is None);
            }
            return Err(ErrorKind::InvalidArgument);
        }
        let mut name: Vec<u8> = Vec::new();
        let mut q: usize = 0;
        while q < name_len
            invariant
                q <= name_len,
                pos + 4 + name_len <= bytes@.len(),
                name@ =~= bytes@.subrange(pos + 4, pos + 4 + q),
            decreases name_len - q,
        {
            name.push(bytes[pos + 4 + q]);
            proof {
                assert(name@ =~= bytes@.subrange(pos + 4, pos + 4 + q + 1));
            }
            q = q + 1;
        }
        let offset = read_u64_at(bytes, pos + 4 + name_len);
        let length = read_u64_at(bytes, pos + 4 + name_len + 8);
        let entry = BundleEntry { name, offset, length };
        let ghost prev_out = out@;
        let ghost next_pos = pos + 4 + name_len + 16;
        proof {
            assert(spec_parse_entry(bytes@, pos as int) == Option::Some(
                (entry@, next_pos as int),
            ));
            assert(remaining > 0);
        }
        let ghost ev = entry@;
        out.push(entry);
        proof {
            assert(entry_views(out@) =~= entry_views(prev_out).push(ev));
            assert forall|rest: Seq<BundleEntryView>| #[trigger] (entry_views(prev_out) + (seq![ev]
                + rest)) =~= (entry_views(out@) + rest) by {}
        }
        pos = pos + 4 + name_len + 16;
        parsed = parsed + 1;
    }
    proof {
        assert(spec_parse_entries(bytes@, pos as int, 0) == Option::Some(
            (Seq::<BundleEntryView>::empty(), pos as int),
        ));
        assert(entry_views(out@) + Seq::<BundleEntryView>::empty() =~= entry_views(out@));
    }
    if pos != bytes.len() {
        return Err(ErrorKind::InvalidArgument);
    }
    Ok(out)
}


/// The magic the bundle starts with.
pub open spec fn spec_bundle_magic() -> Seq<u8> {
    seq![0x51u8, 0x53u8, 0x50u8, 0x4cu8]
}

/// The header of a bundle: the magic followed by the format version.
pub open spec fn spec_bundle_header(version: u32) -> Seq<u8> {
    spec_bundle_magic() + spec_u32_to_le_bytes(version)
}

/// Builds the header of a bundle.
pub fn bundle_header(version: u32) -> (r: Vec<u8>)
    ensures
        r@ == spec_bundle_header(version),
{
    let mut out: Vec<u8> = Vec::new();
    out.push(0x51);
    out.push(0x53);
    out.push(0x50);
    out.push(0x4c);
    let mut v = u32_to_le_bytes(version);
    out.append(&mut v);
    proof {
        assert(out@ =~= spec_bundle_header(version));
    }
    out
}

/// Reads the absolute byte range a trailer entry names, the way a
/// searcher reads one inner file of the bundle.
pub fn read_range(bundle: &Vec<u8>, offset: u64, length: u64) -> (r: Result<Vec<u8>, ErrorKind>)
    ensures
        match r {
            Ok(data) => offset + length <= bundle@.len() && data@ == bundle@.subrange(
                offset as int,
                offset + length,
            ),
            Err(e) => e == ErrorKind::InvalidArgument && offset + length > bundle@.len(),
        },
{
    let n = bundle.len();
    if offset > n as u64 || length > (n as u64) - offset {
        return Err(ErrorKind::InvalidArgument);
    }
    let start = offset as usize;
    let end = start + (length as usize);
    let mut out: Vec<u8> = Vec::new();
    let mut q: usize = start;
    while q < end
        invariant
            start <= q <= end <= bundle@.len(),
            out@ =~= bundle@.subrange(start as int, q as int),
        decreases end - q,
    {
        out.push(bundle[q]);
        proof {
            assert(out@ =~= bundle@.subrange(start as int, q + 1));
        }
        q = q + 1;
    }
    Ok(out)
}

} // verus!
