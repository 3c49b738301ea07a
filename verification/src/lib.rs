//! A small tar-like archiver: it packs a set of files, each a relative
//! forward-slash path with owned byte content, into one container buffer, and
//! decodes such a buffer back into the same in-memory package model.
//!
//! The container layout is, in order: a four-byte magic constant, a four-byte
//! version, a two-byte compression tag, a name table of `name NUL offset size`
//! records ended by a lone NUL, and the concatenated payload bytes that the
//! table's offsets point into. All integers are little-endian.
//!
//! [`encode_package`] produces that layout from a [`Package`] and
//! [`decode_package`] validates and parses it back; both are exact with
//! respect to the specification functions in this file, and
//! [`lemma_encode_decode`] proves that decoding an encoded package restores
//! it unchanged.

use vstd::prelude::*;

pub mod err;
pub mod key;
pub mod package;

pub use err::{ParseError, PathError, UnpackError, UnsupportedError};
pub use package::{Compression, DataInfo, FileInfo, Package, PackageVersion};

use vstd::bytes::{spec_u64_from_le_bytes, spec_u64_to_le_bytes};
use vstd::utf8::{decode_utf8, encode_scalar, encode_utf8, valid_utf8};

use crate::key::{check_key, valid_key};
use crate::package::{contains_name, spec_insert, views_of, wf_entries, EntryView, PackageView};

verus! {

/// The four magic bytes that open every container.
pub open spec fn magic() -> Seq<u8> {
    seq![0xffu8, 0x69u8, 0xffu8, 0x69u8]
}

/// The wire form of a version: its four components in order.
pub open spec fn version_bytes(v: PackageVersion) -> Seq<u8> {
    seq![v.ver.0, v.ver.1, v.ver.2, v.ver.3]
}

/// The one version this library writes and reads.
pub open spec fn supported_version() -> PackageVersion {
    PackageVersion { ver: (0, 0, 0, 1) }
}

/// The wire form of a compression tag: two bytes, both zero for the only
/// implemented scheme.
pub open spec fn compression_bytes(c: Compression) -> Seq<u8> {
    match c {
        Compression::Uncompressed => seq![0u8, 0u8],
    }
}

/// One record of the name table: the key's UTF-8 bytes, a NUL terminator,
/// then the entry's payload offset and byte count, each as eight
/// little-endian bytes.
pub open spec fn record_bytes(e: EntryView, off: int) -> Seq<u8> {
    encode_utf8(e.0) + seq![0u8] + spec_u64_to_le_bytes(off as u64) + spec_u64_to_le_bytes(
        e.1.len() as u64,
    )
}

/// The name table of a sequence of entries, with offsets assigned in entry
/// order starting at `off`.
pub open spec fn table_bytes(entries: Seq<EntryView>, off: int) -> Seq<u8>
    decreases entries.len(),
{
    if entries.len() == 0 {
        seq![]
    } else {
        record_bytes(entries[0], off) + table_bytes(entries.drop_first(), off + entries[0].1.len())
    }
}

/// The payload: every entry's bytes concatenated in entry order.
pub open spec fn payload_bytes(entries: Seq<EntryView>) -> Seq<u8>
    decreases entries.len(),
{
    if entries.len() == 0 {
        seq![]
    } else {
        entries[0].1 + payload_bytes(entries.drop_first())
    }
}

/// The complete container for a package: magic, version, compression tag,
/// name table, table terminator, payload.
pub open spec fn spec_encode(p: PackageView) -> Seq<u8> {
    magic() + version_bytes(p.version) + compression_bytes(p.compression) + table_bytes(
        p.entries,
        0,
    ) + seq![0u8] + payload_bytes(p.entries)
}

/// Appending an entry appends its bytes to the payload.
pub proof fn lemma_payload_push(entries: Seq<EntryView>, e: EntryView)
    ensures
        payload_bytes(entries.push(e)) == payload_bytes(entries) + e.1,
    decreases entries.len(),
{
    if entries.len() == 0 {
        assert(entries.push(e).drop_first() =~= entries);
        assert(payload_bytes(entries.push(e)) =~= payload_bytes(entries) + e.1);
    } else {
        assert(entries.push(e).drop_first() =~= entries.drop_first().push(e));
        lemma_payload_push(entries.drop_first(), e);
        assert(payload_bytes(entries.push(e)) =~= payload_bytes(entries) + e.1);
    }
}

/// Appending an entry appends one record to the table, at the offset where
/// the payload so far ends.
pub proof fn lemma_table_push(entries: Seq<EntryView>, e: EntryView, off: int)
    ensures
        table_bytes(entries.push(e), off) == table_bytes(entries, off) + record_bytes(
            e,
            off + payload_bytes(entries).len(),
        ),
    decreases entries.len(),
{
    if entries.len() == 0 {
        assert(entries.push(e).drop_first() =~= entries);
        assert(entries.push(e)[0] == e);
        assert(payload_bytes(entries).len() == 0);
        assert(table_bytes(entries.push(e), off) == record_bytes(e, off) + table_bytes(
            entries,
            off + e.1.len(),
        ));
        assert(table_bytes(entries.push(e), off) =~= table_bytes(entries, off) + record_bytes(
            e,
            off,
        ));
    } else {
        assert(entries.push(e).drop_first() =~= entries.drop_first().push(e));
        lemma_table_push(entries.drop_first(), e, off + entries[0].1.len());
        assert(table_bytes(entries.push(e), off) =~= table_bytes(entries, off) + record_bytes(
            e,
            off + payload_bytes(entries).len(),
        ));
    }
}

/// The view of one raw name-table record: the key's undecoded bytes, the
/// payload offset, and the byte count.
pub type RecordView = (Seq<u8>, u64, u64);

/// The position of the first NUL byte of `s` at or after `i`, or the length
/// of `s` when no NUL follows.
pub open spec fn find_nul(s: Seq<u8>, i: int) -> int
    decreases s.len() - i when 0 <= i <= s.len()
{
    if i >= s.len() {
        i
    } else if s[i] == 0 {
        i
    } else {
        find_nul(s, i + 1)
    }
}

/// Bounds and characterization of [`find_nul`]: it never moves backwards,
/// never passes the end, skips only non-NUL bytes, and stops on a NUL.
pub proof fn lemma_find_nul_bounds(s: Seq<u8>, i: int)
    requires
        0 <= i <= s.len(),
    ensures
        i <= find_nul(s, i) <= s.len(),
        forall|k: int| i <= k < find_nul(s, i) ==> s[k] != 0,
        find_nul(s, i) < s.len() ==> s[find_nul(s, i)] == 0,
    decreases s.len() - i,
{
    if i < s.len() && s[i] != 0 {
        lemma_find_nul_bounds(s, i + 1);
    }
}

/// [`find_nul`] finds exactly the first NUL: a stretch of non-NUL bytes from
/// `i` up to a position `j` that is the end or holds a NUL pins the result.
pub proof fn lemma_find_nul_exact(s: Seq<u8>, i: int, j: int)
    requires
        0 <= i <= j <= s.len(),
        forall|k: int| i <= k < j ==> s[k] != 0,
        j == s.len() || s[j] == 0,
    ensures
        find_nul(s, i) == j,
    decreases j - i,
{
    if i < j {
        lemma_find_nul_exact(s, i + 1, j);
    }
}

/// Parses the name table of `s` starting at position `i`: a cycle of name
/// bytes up to a NUL, then eight offset bytes, then eight size bytes, ended
/// by a name that is empty at once. Returns the records and the position
/// just past the table's terminator, or the parse error of the first field
/// that is truncated.
pub open spec fn spec_parse_table(s: Seq<u8>, i: int) -> Result<(Seq<RecordView>, int), ParseError>
    decreases s.len() - i when 0 <= i <= s.len() via spec_parse_table_decreases
{
    if i >= s.len() {
        Err(ParseError::Name)
    } else if s[i] == 0 {
        Ok((seq![], i + 1))
    } else {
        let j = find_nul(s, i);
        if j >= s.len() {
            Err(ParseError::Name)
        } else if j + 9 > s.len() {
            Err(ParseError::Index)
        } else if j + 17 > s.len() {
            Err(ParseError::Size)
        } else {
            let name = s.subrange(i, j);
            let index = spec_u64_from_le_bytes(s.subrange(j + 1, j + 9));
            let size = spec_u64_from_le_bytes(s.subrange(j + 9, j + 17));
            match spec_parse_table(s, j + 17) {
                Ok((rest, end)) => Ok((seq![(name, index, size)] + rest, end)),
                Err(e) => Err(e),
            }
        }
    }
}

#[via_fn]
proof fn spec_parse_table_decreases(s: Seq<u8>, i: int) {
    if 0 <= i < s.len() && s[i] != 0 {
        lemma_find_nul_bounds(s, i);
    }
}

/// Turns raw table records into package entries against a payload: each name
/// must decode as UTF-8, pass the path policy, and point inside the payload;
/// the entries are then accumulated with [`spec_insert`], so among records
/// that share a key the last one wins.
pub open spec fn spec_build_entries(
    recs: Seq<RecordView>,
    payload: Seq<u8>,
    acc: Seq<EntryView>,
) -> Result<Seq<EntryView>, UnpackError>
    decreases recs.len(),
{
    if recs.len() == 0 {
        Ok(acc)
    } else {
        let (nb, index, size) = recs[0];
        if !valid_utf8(nb) {
            Err(UnpackError::Utf8)
        } else {
            let name = decode_utf8(nb);
            match check_key(name) {
                Some(e) => Err(UnpackError::Path(e)),
                None => {
                    if index + size > payload.len() {
                        Err(UnpackError::ParseError(ParseError::Range))
                    } else {
                        let content = payload.subrange(index as int, index + size);
                        spec_build_entries(
                            recs.drop_first(),
                            payload,
                            spec_insert(acc, name, content),
                        )
                    }
                },
            }
        }
    }
}

/// Decodes a container byte buffer: the result of [`decode_package`], as a
/// total function of the bytes. A buffer shorter than the smallest container
/// or with the wrong magic is invalid; a well-formed header with an
/// unrecognized version or compression tag is unsupported, naming the axis;
/// then the name table is parsed and the entries are built against the
/// payload, which is everything after the table.
pub open spec fn spec_decode(s: Seq<u8>) -> Result<PackageView, UnpackError> {
    if s.len() < 11 {
        Err(UnpackError::InvalidFile)
    } else if s.subrange(0, 4) != magic() {
        Err(UnpackError::InvalidFile)
    } else if s.subrange(4, 8) != version_bytes(supported_version()) {
        Err(UnpackError::UnsupportedFormat(UnsupportedError::Version))
    } else if s.subrange(8, 10) != compression_bytes(Compression::Uncompressed) {
        Err(UnpackError::UnsupportedFormat(UnsupportedError::Compression))
    } else {
        match spec_parse_table(s, 10) {
            Err(e) => Err(UnpackError::ParseError(e)),
            Ok((recs, end)) => {
                match spec_build_entries(recs, s.subrange(end, s.len() as int), seq![]) {
                    Err(e) => Err(e),
                    Ok(entries) => Ok(
                        PackageView {
                            entries,
                            version: supported_version(),
                            compression: Compression::Uncompressed,
                        },
                    ),
                }
            },
        }
    }
}

/// Serializes a package into one container byte buffer, laying the entries
/// out in the package's storage order. Encoding is a pure function of the
/// package's content.
#[verifier::loop_isolation(false)]
pub fn encode_package(package: &Package) -> (r: Vec<u8>)
    ensures
        r@ == spec_encode(package@),
{
    let entries = package.raw_entries();
    let version = package.version();
    let mut buf: Vec<u8> = Vec::new();
    buf.push(0xff);
    buf.push(0x69);
    buf.push(0xff);
    buf.push(0x69);
    buf.push(version.ver.0);
    buf.push(version.ver.1);
    buf.push(version.ver.2);
    buf.push(version.ver.3);
    match package.compression() {
        Compression::Uncompressed => {
            buf.push(0x00);
            buf.push(0x00);
        },
    }
    assert(buf@ =~= magic() + version_bytes(package@.version) + compression_bytes(
        package@.compression,
    ));
    let mut table: Vec<u8> = Vec::new();
    let mut payload: Vec<u8> = Vec::new();
    let n = entries.len();
    let mut k: usize = 0;
    while k < n
        invariant
            k <= n,
            table@ == table_bytes(package@.entries.take(k as int), 0),
            payload@ == payload_bytes(package@.entries.take(k as int)),
        decreases n - k,
    {
        let ghost done = package@.entries.take(k as int);
        let e = &entries[k];
        proof {
            assert(e@ == package@.entries[k as int]);
        }
        let mut name_bytes = vstd::slice::slice_to_vec(e.path().as_str().as_bytes());
        table.append(&mut name_bytes);
        table.push(0x00);
        let info = DataInfo::new(payload.len() as u64, e.data().len() as u64);
        let mut record_tail = info.to_le_bytes();
        table.append(&mut record_tail);
        let mut content = vstd::slice::slice_to_vec(e.data().as_slice());
        payload.append(&mut content);
        proof {
            lemma_table_push(done, e@, 0);
            lemma_payload_push(done, e@);
            assert(package@.entries.take(k + 1) =~= done.push(e@));
            assert(table@ =~= table_bytes(package@.entries.take(k + 1), 0));
            assert(payload@ =~= payload_bytes(package@.entries.take(k + 1)));
        }
        k = k + 1;
    }
    proof {
        assert(package@.entries.take(n as int) =~= package@.entries);
    }
    buf.append(&mut table);
    buf.push(0x00);
    buf.append(&mut payload);
    proof {
        assert(buf@ =~= spec_encode(package@));
    }
    buf
}

/// The UTF-8 encoding of a character other than NUL contains no zero byte
/// and at least one byte.
proof fn lemma_encode_scalar_no_nul(c: char)
    requires
        c != '\0',
    ensures
        1 <= encode_scalar(c as u32).len(),
        forall|j: int|
            0 <= j < encode_scalar(c as u32).len() ==> #[trigger] encode_scalar(c as u32)[j] != 0,
{
    vstd::utf8::char_is_scalar(c);
    let v = c as u32;
    assert(v != 0) by {
        if v == 0 {
            vstd::utf8::char_u32_cast(c, v);
            assert('\0' as u32 == 0);
            vstd::utf8::char_u32_cast('\0', 0);
        }
    }
    if vstd::utf8::has_width_1_encoding(v) {
        assert((v & 0x7F) as u8 != 0) by (bit_vector)
            requires
                v != 0 && v <= 0x7F,
        ;
    } else {
        assert(0xC0 | ((v >> 6) & 0x1F) as u8 != 0) by (bit_vector);
        assert(0xE0 | ((v >> 12) & 0x0F) as u8 != 0) by (bit_vector);
        assert(0xF0 | ((v >> 18) & 0x7) as u8 != 0) by (bit_vector);
        assert(0x80 | (v & 0x3F) as u8 != 0) by (bit_vector);
        assert(0x80 | ((v >> 6) & 0x3F) as u8 != 0) by (bit_vector);
        assert(0x80 | ((v >> 12) & 0x3F) as u8 != 0) by (bit_vector);
    }
}

/// The UTF-8 encoding of a NUL-free character sequence contains no zero byte
/// and at least one byte per character.
pub proof fn lemma_encode_utf8_no_nul(s: Seq<char>)
    requires
        forall|i: int| 0 <= i < s.len() ==> s[i] != '\0',
    ensures
        s.len() <= encode_utf8(s).len(),
        forall|j: int| 0 <= j < encode_utf8(s).len() ==> #[trigger] encode_utf8(s)[j] != 0,
    decreases s.len(),
{
    if s.len() > 0 {
        lemma_encode_scalar_no_nul(s[0]);
        lemma_encode_utf8_no_nul(s.drop_first());
        let head = encode_scalar(s[0] as u32);
        let tail = encode_utf8(s.drop_first());
        assert forall|j: int| 0 <= j < encode_utf8(s).len() implies #[trigger] encode_utf8(s)[j]
            != 0 by {
            if j < head.len() {
                assert(encode_utf8(s)[j] == head[j]);
            } else {
                assert(encode_utf8(s)[j] == tail[j - head.len()]);
            }
        }
    }
}

/// The raw table records that encoding a sequence of entries produces, with
/// offsets assigned in entry order starting at `off`.
pub open spec fn recs_of(entries: Seq<EntryView>, off: int) -> Seq<RecordView>
    decreases entries.len(),
{
    if entries.len() == 0 {
        seq![]
    } else {
        seq![(encode_utf8(entries[0].0), off as u64, entries[0].1.len() as u64)] + recs_of(
            entries.drop_first(),
            off + entries[0].1.len(),
        )
    }
}

/// Parsing an encoded name table recovers its records: wherever a buffer
/// holds the table of a sequence of validly named entries followed by the
/// table terminator, the parser succeeds with exactly those records and
/// stops just past the terminator.
pub proof fn lemma_parse_table_encoded(s: Seq<u8>, i: int, entries: Seq<EntryView>, off: int)
    requires
        0 <= i,
        i + table_bytes(entries, off).len() + 1 <= s.len(),
        s.subrange(i, i + table_bytes(entries, off).len() + 1) == table_bytes(entries, off)
            + seq![0u8],
        forall|t: int| 0 <= t < entries.len() ==> valid_key((#[trigger] entries[t]).0),
        0 <= off,
        off + payload_bytes(entries).len() <= u64::MAX,
    ensures
        spec_parse_table(s, i) == Ok::<_, ParseError>(
            (recs_of(entries, off), i + table_bytes(entries, off).len() + 1),
        ),
    decreases entries.len(),
{
    let tb = table_bytes(entries, off);
    assert(forall|x: int| 0 <= x < tb.len() + 1 ==> #[trigger] s[i + x] == (tb + seq![0u8])[x]) by {
        assert(forall|x: int|
            0 <= x < tb.len() + 1 ==> #[trigger] s.subrange(i, i + tb.len() + 1)[x] == s[i + x]);
        assert(forall|x: int|
            0 <= x < tb.len() + 1 ==> #[trigger] s[i + x] == s.subrange(i, i + tb.len() + 1)[x]);
    }
    if entries.len() == 0 {
        assert(s[i] == 0);
        assert(spec_parse_table(s, i) == Ok::<_, ParseError>((Seq::<RecordView>::empty(), i + 1)));
        assert(recs_of(entries, off) =~= Seq::<RecordView>::empty());
    } else {
        let e = entries[0];
        let rest = entries.drop_first();
        let nb = encode_utf8(e.0);
        let sz = e.1.len() as u64;
        let record = record_bytes(e, off);
        let off2 = off + e.1.len();
        let tb2 = table_bytes(rest, off2);
        assert(tb == record + tb2);
        crate::key::lemma_valid_key_shape(e.0);
        lemma_encode_utf8_no_nul(e.0);
        vstd::bytes::lemma_auto_spec_u64_to_from_le_bytes();
        assert(record.len() == nb.len() + 17);
        let n = nb.len() as int;
        let j = i + n;
        // the name bytes, their terminator, and both integer fields of the
        // first record stand at their places in `s`
        assert forall|k: int| 0 <= k < n implies s[i + k] == nb[k] && s[i + k] != 0 by {
            assert(s[i + k] == (tb + seq![0u8])[k]);
            assert((tb + seq![0u8])[k] == record[k]);
            assert(record[k] == nb[k]);
        }
        assert(s[i + n] == (tb + seq![0u8])[n]);
        assert(record[n] == 0);
        assert(s[j] == 0);
        assert forall|k: int| i <= k < j implies s[k] != 0 by {
            assert(s[i + (k - i)] != 0);
        }
        lemma_find_nul_exact(s, i, j);
        assert(s[i] == nb[0]);
        assert(s[i] != 0);
        assert(j + 17 <= s.len());
        assert(s.subrange(i, j) =~= nb);
        assert(s.subrange(j + 1, j + 9) =~= spec_u64_to_le_bytes(off as u64)) by {
            assert forall|k: int|
                0 <= k < 8 implies #[trigger] s.subrange(j + 1, j + 9)[k] == spec_u64_to_le_bytes(
                off as u64,
            )[k] by {
                assert(s[i + (n + 1 + k)] == (tb + seq![0u8])[n + 1 + k]);
                assert((tb + seq![0u8])[n + 1 + k] == record[n + 1 + k]);
                assert(record[n + 1 + k] == spec_u64_to_le_bytes(off as u64)[k]);
            }
        }
        assert(s.subrange(j + 9, j + 17) =~= spec_u64_to_le_bytes(sz)) by {
            assert forall|k: int|
                0 <= k < 8 implies #[trigger] s.subrange(j + 9, j + 17)[k] == spec_u64_to_le_bytes(
                sz,
            )[k] by {
                assert(s[i + (n + 9 + k)] == (tb + seq![0u8])[n + 9 + k]);
                assert((tb + seq![0u8])[n + 9 + k] == record[n + 9 + k]);
                assert(record[n + 9 + k] == spec_u64_to_le_bytes(sz)[k]);
            }
        }
        assert(spec_u64_from_le_bytes(s.subrange(j + 1, j + 9)) == off as u64);
        assert(spec_u64_from_le_bytes(s.subrange(j + 9, j + 17)) == sz);
        // the rest of the table stands right after the first record
        let i2 = j + 17;
        assert(s.subrange(i2, i2 + tb2.len() + 1) =~= tb2 + seq![0u8]) by {
            assert forall|x: int|
                0 <= x < tb2.len() + 1 implies #[trigger] s.subrange(i2, i2 + tb2.len() + 1)[x]
                == (tb + seq![0u8])[x + record.len()] by {
                assert(s[i + (x + record.len())] == (tb + seq![0u8])[x + record.len()]);
            }
            assert(forall|x: int|
                0 <= x < tb2.len() + 1 ==> (tb + seq![0u8])[x + record.len()] == (tb2
                    + seq![0u8])[x]);
        }
        assert(payload_bytes(entries) == e.1 + payload_bytes(rest));
        lemma_parse_table_encoded(s, i2, rest, off2);
        assert(recs_of(entries, off) == seq![(nb, off as u64, sz)] + recs_of(rest, off2));
        assert(spec_parse_table(s, i) == Ok::<_, ParseError>(
            (recs_of(entries, off), i + tb.len() + 1),
        ));
    }
}

/// Building entries from the records of an encoded table recovers the
/// entries: against a payload that holds their concatenated bytes at the
/// assigned offsets, every record decodes, passes the path policy, and lands
/// appended behind the accumulator.
pub proof fn lemma_build_encoded(
    entries: Seq<EntryView>,
    off: int,
    acc: Seq<EntryView>,
    payload: Seq<u8>,
)
    requires
        crate::package::unique_names(acc + entries),
        forall|t: int| 0 <= t < entries.len() ==> valid_key((#[trigger] entries[t]).0),
        0 <= off,
        off + payload_bytes(entries).len() <= payload.len(),
        payload.len() <= u64::MAX,
        payload.subrange(off, off + payload_bytes(entries).len()) == payload_bytes(entries),
    ensures
        spec_build_entries(recs_of(entries, off), payload, acc) == Ok::<_, UnpackError>(
            acc + entries,
        ),
    decreases entries.len(),
{
    if entries.len() == 0 {
        assert(recs_of(entries, off) =~= Seq::<RecordView>::empty());
        assert(acc + entries =~= acc);
    } else {
        let e = entries[0];
        let rest = entries.drop_first();
        let nb = encode_utf8(e.0);
        let off2 = off + e.1.len();
        vstd::utf8::encode_utf8_valid_utf8(e.0);
        vstd::utf8::encode_utf8_decode_utf8(e.0);
        let recs = recs_of(entries, off);
        assert(recs[0] == (nb, off as u64, e.1.len() as u64));
        assert(recs.drop_first() =~= recs_of(rest, off2));
        assert(payload_bytes(entries) == e.1 + payload_bytes(rest));
        // the first record's bytes stand at its offset
        assert(payload.subrange(off, off + e.1.len()) =~= e.1) by {
            assert(forall|x: int|
                0 <= x < payload_bytes(entries).len() ==> payload[off + x] == payload_bytes(
                    entries,
                )[x]) by {
                assert(forall|x: int|
                    0 <= x < payload_bytes(entries).len() ==> #[trigger] payload.subrange(
                        off,
                        off + payload_bytes(entries).len(),
                    )[x] == payload[off + x]);
            }
        }
        // the first entry's key is new to the accumulator
        assert(!contains_name(acc, e.0)) by {
            if contains_name(acc, e.0) {
                let x = choose|x: int| 0 <= x < acc.len() && (#[trigger] acc[x]).0 == e.0;
                assert((acc + entries)[x].0 == e.0);
                assert((acc + entries)[acc.len() as int].0 == e.0);
            }
        }
        crate::package::lemma_spec_insert_absent(acc, e.0, e.1);
        let acc2 = acc.push(e);
        assert(acc2 + rest =~= acc + entries);
        // the remaining payload stays aligned
        assert(payload.subrange(off2, off2 + payload_bytes(rest).len()) =~= payload_bytes(
            rest,
        )) by {
            assert forall|x: int|
                0 <= x < payload_bytes(rest).len() implies #[trigger] payload.subrange(
                off2,
                off2 + payload_bytes(rest).len(),
            )[x] == payload_bytes(rest)[x] by {
                assert(payload.subrange(off, off + payload_bytes(entries).len())[e.1.len() + x]
                    == payload[off + (e.1.len() + x)]);
                assert(payload_bytes(entries)[e.1.len() + x] == payload_bytes(rest)[x]);
            }
        }
        lemma_build_encoded(rest, off2, acc2, payload);
        assert(spec_build_entries(recs, payload, acc) == spec_build_entries(
            recs.drop_first(),
            payload,
            acc2,
        ));
    }
}

/// The round trip of the codec: decoding the container that encodes a
/// well-formed package of the supported version restores that package
/// exactly, entries, order and all. The payload-length bound only rules out
/// mathematical packages too large for the container's sixty-four-bit size
/// fields; a package held in memory always satisfies it.
pub proof fn lemma_encode_decode(p: PackageView)
    requires
        wf_entries(p.entries),
        p.version == supported_version(),
        payload_bytes(p.entries).len() <= u64::MAX,
    ensures
        spec_decode(spec_encode(p)) == Ok::<PackageView, UnpackError>(p),
{
    let s = spec_encode(p);
    let tb = table_bytes(p.entries, 0);
    let pl = payload_bytes(p.entries);
    assert(p.compression == Compression::Uncompressed);
    let head = magic() + version_bytes(p.version) + compression_bytes(p.compression);
    assert(head.len() == 10);
    assert(s == head + tb + seq![0u8] + pl);
    assert(s.len() == 11 + tb.len() + pl.len());
    assert(forall|x: int| 0 <= x < 10 ==> s[x] == head[x]);
    assert(s.subrange(0, 4) =~= magic());
    assert(s.subrange(4, 8) =~= version_bytes(supported_version()));
    assert(s.subrange(8, 10) =~= compression_bytes(Compression::Uncompressed));
    assert(s.subrange(10, 10 + tb.len() as int + 1) =~= tb + seq![0u8]) by {
        assert(forall|x: int| 0 <= x < tb.len() ==> s[10 + x] == tb[x]);
        assert(s[10 + tb.len() as int] == 0);
    }
    lemma_parse_table_encoded(s, 10, p.entries, 0);
    let end = 11 + tb.len() as int;
    let payload = s.subrange(end, s.len() as int);
    assert(payload =~= pl) by {
        assert(forall|x: int| 0 <= x < pl.len() ==> s[end + x] == pl[x]);
    }
    assert(Seq::<EntryView>::empty() + p.entries =~= p.entries);
    assert(payload.subrange(0, payload_bytes(p.entries).len() as int) =~= payload_bytes(
        p.entries,
    ));
    lemma_build_encoded(p.entries, 0, Seq::empty(), payload);
    assert(spec_decode(s) == Ok::<PackageView, UnpackError>(
        PackageView {
            entries: p.entries,
            version: supported_version(),
            compression: Compression::Uncompressed,
        },
    ));
}

/// Header rejection: a buffer whose first four bytes differ from the magic
/// constant decodes to `InvalidFile`, whatever the rest of the buffer holds.
pub proof fn lemma_header_rejection(s: Seq<u8>)
    requires
        s.len() >= 4,
        s.subrange(0, 4) != magic(),
    ensures
        spec_decode(s) == Err::<PackageView, UnpackError>(UnpackError::InvalidFile),
{
}

/// Version and compression gating: a buffer that is long enough and opens
/// with the magic constant, but whose version field or compression field
/// names something unrecognized, decodes to `UnsupportedFormat` naming that
/// axis, never to a parse error.
pub proof fn lemma_format_gating(s: Seq<u8>)
    requires
        s.len() >= 11,
        s.subrange(0, 4) == magic(),
    ensures
        s.subrange(4, 8) != version_bytes(supported_version()) ==> spec_decode(s) == Err::<
            PackageView,
            UnpackError,
        >(UnpackError::UnsupportedFormat(UnsupportedError::Version)),
        s.subrange(4, 8) == version_bytes(supported_version()) && s.subrange(8, 10)
            != compression_bytes(Compression::Uncompressed) ==> spec_decode(s) == Err::<
            PackageView,
            UnpackError,
        >(UnpackError::UnsupportedFormat(UnsupportedError::Compression)),
{
}

/// Truncated offset field: a container with a sound header whose name table
/// holds one name and its terminator but then ends with fewer than the eight
/// bytes of the offset field decodes to the offset-specific parse error, not
/// a generic one.
pub proof fn lemma_truncated_offset(s: Seq<u8>, nb: Seq<u8>, t: Seq<u8>)
    requires
        s.len() >= 11,
        s.subrange(0, 4) == magic(),
        s.subrange(4, 8) == version_bytes(supported_version()),
        s.subrange(8, 10) == compression_bytes(Compression::Uncompressed),
        s.subrange(10, s.len() as int) == nb + seq![0u8] + t,
        nb.len() > 0,
        forall|k: int| 0 <= k < nb.len() ==> nb[k] != 0,
        t.len() < 8,
    ensures
        spec_decode(s) == Err::<PackageView, UnpackError>(
            UnpackError::ParseError(ParseError::Index),
        ),
{
    let body = nb + seq![0u8] + t;
    assert(s.len() == 10 + body.len());
    assert forall|x: int| 0 <= x < body.len() implies #[trigger] s[10 + x] == body[x] by {
        assert(s.subrange(10, s.len() as int)[x] == s[10 + x]);
    }
    let j = 10 + nb.len() as int;
    assert forall|k: int| 10 <= k < j implies s[k] != 0 by {
        assert(s[10 + (k - 10)] == body[k - 10]);
        assert(body[k - 10] == nb[k - 10]);
    }
    assert(s[10 + nb.len() as int] == body[nb.len() as int]);
    assert(body[nb.len() as int] == 0);
    lemma_find_nul_exact(s, 10, j);
    assert(s[10 + 0int] == body[0]);
    assert(s[10] != 0);
    assert(j + 9 > s.len());
    assert(spec_parse_table(s, 10) == Err::<(Seq<RecordView>, int), ParseError>(ParseError::Index));
}

/// Relies on `String::from_utf8`: it succeeds exactly on input that is valid
/// UTF-8, and then returns the string whose characters are the input's UTF-8
/// decoding.
#[verifier::external_body]
fn bytes_to_string(v: &[u8]) -> (r: Option<String>)
    ensures
        r is Some <==> valid_utf8(v@),
        r matches Some(s) ==> s@ == decode_utf8(v@),
{
    match String::from_utf8(v.to_vec()) {
        Ok(s) => Some(s),
        Err(_) => None,
    }
}

/// One parsed record of the name table, before its name bytes are decoded.
struct TableRec {
    name: Vec<u8>,
    info: DataInfo,
}

/// The views of parsed records.
spec fn rec_views(rs: Seq<TableRec>) -> Seq<RecordView> {
    rs.map_values(|r: TableRec| (r.name@, r.info.index, r.info.size))
}

/// Prefixes already-parsed records onto the outcome of parsing the rest of
/// the table.
spec fn prepend_records(
    pre: Seq<RecordView>,
    r: Result<(Seq<RecordView>, int), ParseError>,
) -> Result<(Seq<RecordView>, int), ParseError> {
    match r {
        Ok((recs, end)) => Ok((pre + recs, end)),
        Err(e) => Err(e),
    }
}

/// Parses the name table of `bytes` from position `start` on, with the
/// three-state cycle of [`spec_parse_table`]: name bytes up to a NUL, eight
/// offset bytes, eight size bytes, until a name that is empty at once ends
/// the table.
#[verifier::loop_isolation(false)]
fn read_data_table(bytes: &[u8], start: usize) -> (r: Result<(Vec<TableRec>, usize), ParseError>)
    requires
        start <= bytes@.len(),
    ensures
        match r {
            Ok((recs, end)) => spec_parse_table(bytes@, start as int) == Ok::<_, ParseError>(
                (rec_views(recs@), end as int),
            ) && start < end <= bytes@.len(),
            Err(e) => spec_parse_table(bytes@, start as int) == Err::<(Seq<RecordView>, int), _>(
                e,
            ),
        },
{
    let n = bytes.len();
    let mut recs: Vec<TableRec> = Vec::new();
    let mut i: usize = start;
    proof {
        assert(rec_views(recs@) =~= Seq::<RecordView>::empty());
        assert(prepend_records(Seq::empty(), spec_parse_table(bytes@, start as int))
            == spec_parse_table(bytes@, start as int)) by {
            match spec_parse_table(bytes@, start as int) {
                Ok((rest, end)) => {
                    assert(Seq::<RecordView>::empty() + rest =~= rest);
                },
                Err(_) => {},
            }
        }
    }
    loop
        invariant
            start <= i <= n,
            spec_parse_table(bytes@, start as int) == prepend_records(
                rec_views(recs@),
                spec_parse_table(bytes@, i as int),
            ),
        decreases n - i,
    {
        if i >= n {
            return Err(ParseError::Name);
        }
        if bytes[i] == 0 {
            proof {
                assert(rec_views(recs@) + Seq::<RecordView>::empty() =~= rec_views(recs@));
            }
            return Ok((recs, i + 1));
        }
        let mut j: usize = i;
        while j < n && bytes[j] != 0
            invariant
                i <= j <= n,
                forall|k: int| i <= k < j ==> bytes@[k] != 0,
            decreases n - j,
        {
            j = j + 1;
        }
        proof {
            lemma_find_nul_exact(bytes@, i as int, j as int);
        }
        if j >= n {
            return Err(ParseError::Name);
        }
        if n - (j + 1) < 8 {
            return Err(ParseError::Index);
        }
        let index = vstd::bytes::u64_from_le_bytes(vstd::slice::slice_subrange(bytes, j + 1, j + 9));
        if n - (j + 9) < 8 {
            return Err(ParseError::Size);
        }
        let size = vstd::bytes::u64_from_le_bytes(vstd::slice::slice_subrange(bytes, j + 9, j + 17));
        let name = vstd::slice::slice_to_vec(vstd::slice::slice_subrange(bytes, i, j));
        let ghost pre = rec_views(recs@);
        let ghost rv: RecordView = (name@, index, size);
        recs.push(TableRec { name, info: DataInfo::new(index, size) });
        proof {
            assert(rec_views(recs@) =~= pre.push(rv));
            let tail = spec_parse_table(bytes@, (j + 17) as int);
            assert(spec_parse_table(bytes@, i as int) == prepend_records(seq![rv], tail));
            assert(prepend_records(pre, prepend_records(seq![rv], tail)) == prepend_records(
                pre.push(rv),
                tail,
            )) by {
                match tail {
                    Ok((rest, end)) => {
                        assert(pre + (seq![rv] + rest) =~= pre.push(rv) + rest);
                    },
                    Err(_) => {},
                }
            }
        }
        i = j + 17;
    }
}

/// Validates and parses a container byte buffer back into a package, or
/// classifies why the buffer is not a container this library reads. The
/// result is exactly [`spec_decode`] of the bytes; in particular a buffer
/// whose first four bytes are not the magic constant is invalid whatever
/// follows them, and a well-formed header naming an unrecognized version or
/// compression tag is unsupported rather than a parse error.
#[verifier::loop_isolation(false)]
pub fn decode_package(bytes: &[u8]) -> (r: Result<Package, UnpackError>)
    ensures
        match r {
            Ok(p) => spec_decode(bytes@) == Ok::<PackageView, UnpackError>(p@) && p.wf(),
            Err(e) => spec_decode(bytes@) == Err::<PackageView, UnpackError>(e),
        },
{
    let n = bytes.len();
    if n < 11 {
        return Err(UnpackError::InvalidFile);
    }
    if !(bytes[0] == 0xff && bytes[1] == 0x69 && bytes[2] == 0xff && bytes[3] == 0x69) {
        proof {
            if bytes@.subrange(0, 4) == magic() {
                assert(bytes@[0] == magic()[0]);
                assert(bytes@[1] == magic()[1]);
                assert(bytes@[2] == magic()[2]);
                assert(bytes@[3] == magic()[3]);
            }
        }
        return Err(UnpackError::InvalidFile);
    }
    proof {
        assert(bytes@.subrange(0, 4) =~= magic());
    }
    if !(bytes[4] == 0 && bytes[5] == 0 && bytes[6] == 0 && bytes[7] == 1) {
        proof {
            let vb = version_bytes(supported_version());
            if bytes@.subrange(4, 8) == vb {
                assert(bytes@[4] == vb[0] && bytes@[5] == vb[1] && bytes@[6] == vb[2] && bytes@[7]
                    == vb[3]);
            }
        }
        return Err(UnpackError::UnsupportedFormat(UnsupportedError::Version));
    }
    proof {
        assert(bytes@.subrange(4, 8) =~= version_bytes(supported_version()));
    }
    if !(bytes[8] == 0 && bytes[9] == 0) {
        proof {
            let cb = compression_bytes(Compression::Uncompressed);
            if bytes@.subrange(8, 10) == cb {
                assert(bytes@[8] == cb[0] && bytes@[9] == cb[1]);
            }
        }
        return Err(UnpackError::UnsupportedFormat(UnsupportedError::Compression));
    }
    proof {
        assert(bytes@.subrange(8, 10) =~= compression_bytes(Compression::Uncompressed));
    }
    let (recs, end) = match read_data_table(bytes, 10) {
        Ok(x) => x,
        Err(e) => {
            return Err(UnpackError::ParseError(e));
        },
    };
    let payload = vstd::slice::slice_subrange(bytes, end, n);
    let ghost all_recs = rec_views(recs@);
    let m = recs.len();
    let mut entries: Vec<FileInfo> = Vec::new();
    let mut k: usize = 0;
    proof {
        assert(views_of(entries@) =~= Seq::<EntryView>::empty());
        assert(all_recs.skip(0) =~= all_recs);
    }
    while k < m
        invariant
            k <= m,
            wf_entries(views_of(entries@)),
            spec_build_entries(all_recs, payload@, Seq::empty()) == spec_build_entries(
                all_recs.skip(k as int),
                payload@,
                views_of(entries@),
            ),
        decreases m - k,
    {
        let ghost acc = views_of(entries@);
        let ghost rv = all_recs[k as int];
        proof {
            assert(all_recs.skip(k as int)[0] == rv);
            assert(all_recs.skip(k as int).drop_first() =~= all_recs.skip(k as int + 1));
        }
        let rec = &recs[k];
        let name = match bytes_to_string(rec.name.as_slice()) {
            Some(s) => s,
            None => {
                return Err(UnpackError::Utf8);
            },
        };
        match crate::key::validate_key(name.as_str()) {
            Some(e) => {
                return Err(UnpackError::Path(e));
            },
            None => {},
        }
        let index = rec.info.index;
        let size = rec.info.size;
        let plen = payload.len() as u64;
        if size > plen || index > plen - size {
            return Err(UnpackError::ParseError(ParseError::Range));
        }
        let content = vstd::slice::slice_to_vec(
            vstd::slice::slice_subrange(payload, index as usize, (index + size) as usize),
        );
        proof {
            crate::package::lemma_spec_insert_wf(acc, name@, content@);
        }
        crate::package::insert_entry(&mut entries, name, content);
        k = k + 1;
    }
    proof {
        assert(all_recs.skip(m as int) =~= Seq::<RecordView>::empty());
    }
    let package = Package::raw_package(
        entries,
        PackageVersion { ver: (0, 0, 0, 1) },
        Compression::Uncompressed,
    );
    proof {
        assert(spec_decode(bytes@) == Ok::<PackageView, UnpackError>(package@));
    }
    Ok(package)
}

} // verus!
