use vstd::prelude::*;
use vstd::slice::slice_subrange;
use vstd::utf8::{decode_utf8, encode_utf8, encode_utf8_decode_utf8, encode_utf8_valid_utf8, valid_utf8};

use crate::entry::{entries_view, Entry, EntryView};
use crate::error::{Error, ErrorView};

verus! {

/// Length of one binary record.
pub const RECORD_LEN: usize = 32;
/// Length of the name field of a record.
pub const NAME_LEN: usize = 16;

/// Record `i` of the buffer `b`.
pub open spec fn record(b: Seq<u8>, i: int) -> Seq<u8> {
    b.subrange(32 * i, 32 * i + 32)
}

/// The end marker: a record of 0xFF bytes only.
pub open spec fn end_marker() -> Seq<u8> {
    Seq::new(32, |k: int| 0xFFu8)
}

pub open spec fn end_at(b: Seq<u8>, k: int) -> bool {
    0 <= k < b.len() / 32 && record(b, k) == end_marker()
}

pub open spec fn is_first_end(b: Seq<u8>, k: int) -> bool {
    end_at(b, k) && forall|j: int| 0 <= j < k ==> !#[trigger] end_at(b, j)
}

/// A record carries the two entry magic bytes.
pub open spec fn magic_ok(r: Seq<u8>) -> bool {
    r[0] == 0xAA && r[1] == 0x50
}

/// The bytes of `s` before its first zero byte (all of `s` without one).
pub open spec fn until_nul(s: Seq<u8>) -> Seq<u8>
    decreases s.len(),
{
    if s.len() == 0 {
        s
    } else if s[0] == 0 {
        Seq::empty()
    } else {
        seq![s[0]] + until_nul(s.drop_first())
    }
}

/// The name bytes of a record: its 16-byte name field up to the first zero.
pub open spec fn name_bytes(r: Seq<u8>) -> Seq<u8> {
    until_nul(r.subrange(12, 28))
}

pub open spec fn record_ok(r: Seq<u8>) -> bool {
    magic_ok(r) && valid_utf8(name_bytes(r))
}

/// Record `i`, before the end marker at `k`, cannot be read as an entry.
pub open spec fn bad_at(b: Seq<u8>, k: int, i: int) -> bool {
    0 <= i < k && !record_ok(record(b, i))
}

pub open spec fn is_first_bad(b: Seq<u8>, k: int, i: int) -> bool {
    bad_at(b, k, i) && forall|j: int| 0 <= j < i ==> !#[trigger] bad_at(b, k, j)
}

/// The little-endian 32-bit number at `r[at..at + 4]`.
pub open spec fn le_u32(r: Seq<u8>, at: int) -> u32 {
    (r[at] as u32) | ((r[at + 1] as u32) << 8u32) | ((r[at + 2] as u32) << 16u32) | ((
    r[at + 3] as u32) << 24u32)
}

/// The four little-endian bytes of `v`.
pub open spec fn le_bytes(v: u32) -> Seq<u8> {
    seq![
        (v & 0xff) as u8,
        ((v >> 8u32) & 0xff) as u8,
        ((v >> 16u32) & 0xff) as u8,
        ((v >> 24u32) & 0xff) as u8,
    ]
}

/// The entry that a record holds.
pub open spec fn entry_of(r: Seq<u8>) -> EntryView {
    EntryView {
        name: decode_utf8(name_bytes(r)),
        ty: r[2],
        subtype: r[3],
        offset: le_u32(r, 4),
        size: le_u32(r, 8),
        flags: le_u32(r, 28),
    }
}

/// A checksum record follows the end marker at `k`.
pub open spec fn checksum_at(b: Seq<u8>, k: int) -> bool {
    k + 1 < b.len() / 32 && record(b, k + 1)[0] == 0xEB && record(b, k + 1)[1] == 0xEB
}

/// The digest stored in a checksum record.
pub open spec fn stored_digest(r: Seq<u8>) -> Seq<u8> {
    r.subrange(16, 32)
}

/// The MD5 digest of a byte sequence.
pub uninterp spec fn md5_of(data: Seq<u8>) -> Seq<u8>;

/// What decoding the buffer `b` gives: the entries before the first end
/// marker, or the error of the first step that fails (length, end marker,
/// the first unreadable record, the checksum that follows the end marker).
pub open spec fn decode_spec(b: Seq<u8>) -> Result<Seq<EntryView>, ErrorView> {
    if b.len() % 32 != 0 {
        Err(ErrorView::LengthNotMultipleOf32)
    } else if !exists|k: int| end_at(b, k) {
        Err(ErrorView::NoEndMarker)
    } else {
        let k = choose|k: int| is_first_end(b, k);
        if exists|i: int| bad_at(b, k, i) {
            let i = choose|i: int| is_first_bad(b, k, i);
            if !magic_ok(record(b, i)) {
                Err(ErrorView::MalformedRecord)
            } else {
                Err(ErrorView::FromUtf8Error)
            }
        } else if checksum_at(b, k) && stored_digest(record(b, k + 1)) != md5_of(
            b.subrange(0, 32 * k),
        ) {
            Err(
                ErrorView::InvalidChecksum {
                    expected: stored_digest(record(b, k + 1)),
                    computed: md5_of(b.subrange(0, 32 * k)),
                },
            )
        } else {
            Ok(Seq::new(k as nat, |i: int| entry_of(record(b, i))))
        }
    }
}

/// The 16-byte name field that holds `name`: its UTF-8 bytes, cut at 16 and
/// padded with zeros.
pub open spec fn name_field(name: Seq<char>) -> Seq<u8> {
    let bytes = encode_utf8(name);
    let kept = if bytes.len() > 16 {
        bytes.subrange(0, 16)
    } else {
        bytes
    };
    kept + Seq::new((16 - kept.len()) as nat, |k: int| 0u8)
}

/// A name that its field keeps whole: at most 16 UTF-8 bytes, none of them zero.
pub open spec fn name_fits(name: Seq<char>) -> bool {
    encode_utf8(name).len() <= 16 && forall|k: int|
        0 <= k < encode_utf8(name).len() ==> #[trigger] encode_utf8(name)[k] != 0
}

/// The record that holds an entry.
pub open spec fn record_of(e: EntryView) -> Seq<u8> {
    seq![0xAAu8, 0x50u8, e.ty, e.subtype] + le_bytes(e.offset) + le_bytes(e.size) + name_field(
        e.name,
    ) + le_bytes(e.flags)
}

/// The records of a sequence of entries, one after the other.
pub open spec fn records_of(s: Seq<EntryView>) -> Seq<u8>
    decreases s.len(),
{
    if s.len() == 0 {
        Seq::empty()
    } else {
        records_of(s.drop_last()) + record_of(s.last())
    }
}

/// The checksum record that carries `digest`.
pub open spec fn checksum_record(digest: Seq<u8>) -> Seq<u8> {
    seq![0xEBu8, 0xEBu8] + Seq::new(14, |k: int| 0xFFu8) + digest
}

/// The encoding of `s`: its records, the end marker, and a checksum record
/// with the MD5 digest of the records.
pub open spec fn encode_spec(s: Seq<EntryView>) -> Seq<u8> {
    records_of(s) + end_marker() + checksum_record(md5_of(records_of(s)))
}

/// Relies on md5::compute: the 16-byte MD5 digest of `data`, which depends
/// on the bytes alone.
#[verifier::external_body]
fn md5_digest(data: &[u8]) -> (r: Vec<u8>)
    ensures
        r@ == md5_of(data@),
        r@.len() == 16,
{
    md5::compute(data).0.to_vec()
}

/// Relies on String::from_utf8: `Ok` exactly when the bytes are valid UTF-8,
/// holding the characters they encode.
#[verifier::external_body]
fn string_from_utf8(bytes: Vec<u8>) -> (r: Result<String, std::string::FromUtf8Error>)
    ensures
        match r {
            Ok(s) => valid_utf8(bytes@) && s@ == decode_utf8(bytes@),
            Err(_) => !valid_utf8(bytes@),
        },
{
    String::from_utf8(bytes)
}

pub proof fn lemma_until_nul(s: Seq<u8>, i: int)
    requires
        0 <= i <= s.len(),
        forall|j: int| 0 <= j < i ==> s[j] != 0,
        i == s.len() || s[i] == 0,
    ensures
        until_nul(s) == s.subrange(0, i),
    decreases s.len(),
{
    if s.len() == 0 {
    } else if s[0] == 0 {
        assert(i == 0);
    } else {
        lemma_until_nul(s.drop_first(), i - 1);
        assert(seq![s[0]] + s.drop_first().subrange(0, i - 1) =~= s.subrange(0, i));
    }
}

proof fn lemma_le_round_trip(v: u32)
    ensures
        le_u32(le_bytes(v), 0) == v,
{
    let b = le_bytes(v);
    let b0 = (v & 0xff) as u8;
    let b1 = ((v >> 8u32) & 0xff) as u8;
    let b2 = ((v >> 16u32) & 0xff) as u8;
    let b3 = ((v >> 24u32) & 0xff) as u8;
    assert(b[0] == b0 && b[1] == b1 && b[2] == b2 && b[3] == b3);
    assert((b0 as u32) | ((b1 as u32) << 8u32) | ((b2 as u32) << 16u32) | ((b3 as u32)
        << 24u32) == v) by (bit_vector)
        requires
            b0 == (v & 0xff) as u8,
            b1 == ((v >> 8u32) & 0xff) as u8,
            b2 == ((v >> 16u32) & 0xff) as u8,
            b3 == ((v >> 24u32) & 0xff) as u8,
    ;
}

/// A copy of `b[from..to]`.
fn copy_range(b: &[u8], from: usize, to: usize) -> (r: Vec<u8>)
    requires
        from <= to <= b@.len(),
    ensures
        r@ == b@.subrange(from as int, to as int),
{
    let mut r: Vec<u8> = Vec::new();
    let mut i: usize = from;
    while i < to
        invariant
            from <= i <= to <= b@.len(),
            r@ == b@.subrange(from as int, i as int),
        decreases to - i,
    {
        r.push(b[i]);
        i += 1;
    }
    r
}

/// The little-endian number at `b[at..at + 4]`.
fn read_u32(b: &[u8], at: usize) -> (r: u32)
    requires
        at + 4 <= b@.len(),
    ensures
        r == le_u32(b@, at as int),
{
    (b[at] as u32) | ((b[at + 1] as u32) << 8u32) | ((b[at + 2] as u32) << 16u32) | ((b[at
        + 3] as u32) << 24u32)
}

/// Whether record `i` of `b` is the end marker.
fn is_end_record(b: &[u8], i: usize) -> (r: bool)
    requires
        32 * i + 32 <= b@.len(),
    ensures
        r == (record(b@, i as int) == end_marker()),
{
    let len = b.len();
    let start = 32 * i;
    let mut j: usize = 0;
    while j < 32
        invariant
            start == 32 * i,
            start + 32 <= b@.len(),
            j <= 32,
            forall|k: int| 0 <= k < j ==> #[trigger] record(b@, i as int)[k] == 0xFF,
        decreases 32 - j,
    {
        if b[start + j] != 0xFF {
            assert(record(b@, i as int)[j as int] != end_marker()[j as int]);
            return false;
        }
        j += 1;
    }
    assert(record(b@, i as int) =~= end_marker());
    true
}

/// Position of the first end marker among the records of `b`.
fn find_end_marker(b: &[u8]) -> (r: Option<usize>)
    requires
        b@.len() % 32 == 0,
    ensures
        match r {
            Some(k) => is_first_end(b@, k as int),
            None => forall|k: int| !end_at(b@, k),
        },
{
    let n = b.len() / 32;
    let mut k: usize = 0;
    while k < n
        invariant
            n == b@.len() / 32,
            b@.len() % 32 == 0,
            k <= n,
            forall|j: int| 0 <= j < k ==> !#[trigger] end_at(b@, j),
        decreases n - k,
    {
        if is_end_record(b, k) {
            return Some(k);
        }
        k += 1;
    }
    None
}

/// Reads record `i` of `b` as an entry.
fn decode_record(b: &[u8], i: usize) -> (r: Result<Entry, Error>)
    requires
        32 * i + 32 <= b@.len(),
    ensures
        match r {
            Ok(e) => record_ok(record(b@, i as int)) && e@ == entry_of(record(b@, i as int)),
            Err(e) => !record_ok(record(b@, i as int)) && e@ == (if !magic_ok(
                record(b@, i as int),
            ) {
                ErrorView::MalformedRecord
            } else {
                ErrorView::FromUtf8Error
            }),
        },
{
    let ghost rec = record(b@, i as int);
    let len = b.len();
    let start = 32 * i;
    if b[start] != 0xAA || b[start + 1] != 0x50 {
        return Err(Error::MalformedRecord);
    }
    let ghost field = rec.subrange(12, 28);
    let mut name: Vec<u8> = Vec::new();
    let mut j: usize = 0;
    while j < NAME_LEN && b[start + 12 + j] != 0
        invariant
            start == 32 * i,
            start + 32 <= b@.len(),
            rec == record(b@, i as int),
            field == rec.subrange(12, 28),
            j <= 16,
            name@ == field.subrange(0, j as int),
            forall|k: int| 0 <= k < j ==> field[k] != 0,
        decreases 16 - j,
    {
        name.push(b[start + 12 + j]);
        j += 1;
    }
    proof {
        lemma_until_nul(field, j as int);
    }
    match string_from_utf8(name) {
        Ok(s) => Ok(
            Entry {
                name: s,
                ty: b[start + 2],
                subtype: b[start + 3],
                offset: read_u32(b, start + 4),
                size: read_u32(b, start + 8),
                flags: read_u32(b, start + 28),
            },
        ),
        Err(e) => Err(Error::FromUtf8Error(e)),
    }
}

/// Whether two byte vectors hold the same bytes.
fn same_bytes(a: &Vec<u8>, b: &Vec<u8>) -> (r: bool)
    ensures
        r == (a@ == b@),
{
    if a.len() != b.len() {
        return false;
    }
    let mut i: usize = 0;
    while i < a.len()
        invariant
            a@.len() == b@.len(),
            i <= a@.len(),
            forall|k: int| 0 <= k < i ==> a@[k] == b@[k],
        decreases a@.len() - i,
    {
        if a[i] != b[i] {
            return false;
        }
        i += 1;
    }
    assert(a@ =~= b@);
    true
}

/// Decodes a binary partition table into its entries. The entries are not
/// validated.
pub fn decode_entries(b: &[u8]) -> (r: Result<Vec<Entry>, Error>)
    ensures
        match r {
            Ok(v) => decode_spec(b@) == Ok::<Seq<EntryView>, ErrorView>(entries_view(v@)),
            Err(e) => decode_spec(b@) == Err::<Seq<EntryView>, ErrorView>(e@),
        },
{
    if b.len() % 32 != 0 {
        return Err(Error::LengthNotMultipleOf32);
    }
    let k = match find_end_marker(b) {
        Some(k) => k,
        None => {
            return Err(Error::NoEndMarker);
        },
    };
    proof {
        let m = choose|m: int| is_first_end(b@, m);
        assert(m == k);
    }
    let mut entries: Vec<Entry> = Vec::new();
    let mut i: usize = 0;
    while i < k
        invariant
            is_first_end(b@, k as int),
            b@.len() % 32 == 0,
            i <= k,
            forall|j: int| 0 <= j < i ==> !#[trigger] bad_at(b@, k as int, j),
            entries_view(entries@) =~= Seq::new(i as nat, |j: int| entry_of(record(b@, j))),
        decreases k - i,
    {
        match decode_record(b, i) {
            Ok(e) => {
                let ghost before = entries@;
                entries.push(e);
                proof {
                    assert(entries@ == before.push(e));
                    assert(entries_view(entries@) =~= entries_view(before).push(e@));
                }
            },
            Err(e) => {
                proof {
                    assert(is_first_bad(b@, k as int, i as int));
                    let m = choose|m: int| is_first_bad(b@, k as int, m);
                    assert(m == i);
                }
                return Err(e);
            },
        }
        i += 1;
    }
    let n = b.len() / 32;
    if k + 1 < n && b[32 * k + 32] == 0xEB && b[32 * k + 33] == 0xEB {
        let expected = copy_range(b, 32 * k + 48, 32 * k + 64);
        let computed = md5_digest(slice_subrange(b, 0, 32 * k));
        assert(expected@ =~= stored_digest(record(b@, k + 1)));
        if !same_bytes(&expected, &computed) {
            return Err(Error::InvalidChecksum { expected, computed });
        }
    }
    Ok(entries)
}


/// Appends the little-endian bytes of `v`.
fn push_u32(out: &mut Vec<u8>, v: u32)
    ensures
        final(out)@ == old(out)@ + le_bytes(v),
{
    out.push((v & 0xff) as u8);
    out.push(((v >> 8u32) & 0xff) as u8);
    out.push(((v >> 16u32) & 0xff) as u8);
    out.push(((v >> 24u32) & 0xff) as u8);
    assert(final(out)@ =~= old(out)@ + le_bytes(v));
}

/// Appends `count` copies of `byte`.
fn push_repeated(out: &mut Vec<u8>, byte: u8, count: usize)
    ensures
        final(out)@ == old(out)@ + Seq::new(count as nat, |k: int| byte),
{
    let mut i: usize = 0;
    while i < count
        invariant
            i <= count,
            out@ == old(out)@ + Seq::new(i as nat, |k: int| byte),
        decreases count - i,
    {
        out.push(byte);
        i += 1;
        assert(out@ =~= old(out)@ + Seq::new(i as nat, |k: int| byte));
    }
}

/// Appends the 16-byte name field of `name`.
fn push_name(out: &mut Vec<u8>, name: &String)
    ensures
        final(out)@ == old(out)@ + name_field(name@),
{
    let bytes = name.as_str().as_bytes();
    let ghost enc = encode_utf8(name@);
    assert(bytes@ == enc);
    let kept: usize = if bytes.len() > NAME_LEN { NAME_LEN } else { bytes.len() };
    let mut i: usize = 0;
    while i < kept
        invariant
            kept <= bytes@.len(),
            kept <= 16,
            i <= kept,
            out@ == old(out)@ + bytes@.subrange(0, i as int),
        decreases kept - i,
    {
        out.push(bytes[i]);
        i += 1;
        assert(out@ =~= old(out)@ + bytes@.subrange(0, i as int));
    }
    push_repeated(out, 0, NAME_LEN - kept);
    proof {
        let k = if enc.len() > 16 { enc.subrange(0, 16) } else { enc };
        assert(k =~= bytes@.subrange(0, kept as int));
        assert(final(out)@ =~= old(out)@ + name_field(name@));
    }
}

/// Appends the record of `e`.
fn push_record(out: &mut Vec<u8>, e: &Entry)
    ensures
        final(out)@ == old(out)@ + record_of(e@),
{
    out.push(0xAA);
    out.push(0x50);
    out.push(e.ty);
    out.push(e.subtype);
    push_u32(out, e.offset);
    push_u32(out, e.size);
    push_name(out, &e.name);
    push_u32(out, e.flags);
    assert(final(out)@ =~= old(out)@ + record_of(e@));
}

/// Encodes entries as a binary partition table: one record per entry, the
/// end marker, and a checksum record with the MD5 digest of the records.
pub fn encode_entries(v: &Vec<Entry>) -> (r: Vec<u8>)
    ensures
        r@ == encode_spec(entries_view(v@)),
        md5_of(records_of(entries_view(v@))).len() == 16,
{
    let ghost s = entries_view(v@);
    let mut out: Vec<u8> = Vec::new();
    let mut i: usize = 0;
    while i < v.len()
        invariant
            s == entries_view(v@),
            i <= v@.len(),
            out@ == records_of(s.subrange(0, i as int)),
        decreases v@.len() - i,
    {
        push_record(&mut out, &v[i]);
        proof {
            assert(s.subrange(0, i + 1).drop_last() =~= s.subrange(0, i as int));
            assert(s[i as int] == v@[i as int]@);
        }
        i += 1;
    }
    assert(s.subrange(0, v@.len() as int) =~= s);
    let digest = md5_digest(out.as_slice());
    push_repeated(&mut out, 0xFF, RECORD_LEN);
    out.push(0xEB);
    out.push(0xEB);
    push_repeated(&mut out, 0xFF, 14);
    let mut j: usize = 0;
    let ghost before = out@;
    while j < digest.len()
        invariant
            j <= digest@.len(),
            out@ == before + digest@.subrange(0, j as int),
        decreases digest@.len() - j,
    {
        out.push(digest[j]);
        j += 1;
        assert(out@ =~= before + digest@.subrange(0, j as int));
    }
    assert(digest@.subrange(0, digest@.len() as int) =~= digest@);
    assert(out@ =~= encode_spec(s));
    out
}

proof fn lemma_record_round_trip(e: EntryView)
    requires
        name_fits(e.name),
    ensures
        record_of(e).len() == 32,
        magic_ok(record_of(e)),
        record_ok(record_of(e)),
        entry_of(record_of(e)) == e,
{
    let r = record_of(e);
    let enc = encode_utf8(e.name);
    let field = name_field(e.name);
    assert(field.len() == 16);
    assert(r.len() == 32);
    assert(r.subrange(12, 28) =~= field);
    lemma_until_nul(field, enc.len() as int);
    assert(field.subrange(0, enc.len() as int) =~= enc);
    encode_utf8_valid_utf8(e.name);
    encode_utf8_decode_utf8(e.name);
    lemma_le_round_trip(e.offset);
    lemma_le_round_trip(e.size);
    lemma_le_round_trip(e.flags);
    assert(r.subrange(4, 8) =~= le_bytes(e.offset));
    assert(r.subrange(8, 12) =~= le_bytes(e.size));
    assert(r.subrange(28, 32) =~= le_bytes(e.flags));
    assert(le_u32(r, 4) == le_u32(r.subrange(4, 8), 0));
    assert(le_u32(r, 8) == le_u32(r.subrange(8, 12), 0));
    assert(le_u32(r, 28) == le_u32(r.subrange(28, 32), 0));
}

proof fn lemma_records_of(s: Seq<EntryView>)
    requires
        forall|i: int| 0 <= i < s.len() ==> name_fits(#[trigger] s[i].name),
    ensures
        records_of(s).len() == 32 * s.len(),
        forall|i: int| 0 <= i < s.len() ==> #[trigger] record(records_of(s), i) == record_of(s[i]),
    decreases s.len(),
{
    if s.len() > 0 {
        let init = s.drop_last();
        lemma_records_of(init);
        lemma_record_round_trip(s.last());
        let r = records_of(s);
        assert forall|i: int| 0 <= i < s.len() implies #[trigger] record(r, i) == record_of(s[i]) by {
            if i < init.len() {
                assert(record(r, i) =~= record(records_of(init), i));
                assert(init[i] == s[i]);
            } else {
                assert(record(r, i) =~= record_of(s.last()));
            }
        }
    }
}

/// Decoding the encoding of entries whose names fit their field gives the
/// entries back (the digest being the 16 bytes that MD5 yields).
pub proof fn lemma_binary_round_trip(s: Seq<EntryView>)
    requires
        forall|i: int| 0 <= i < s.len() ==> name_fits(#[trigger] s[i].name),
        md5_of(records_of(s)).len() == 16,
    ensures
        decode_spec(encode_spec(s)) == Ok::<Seq<EntryView>, ErrorView>(s),
{
    let rs = records_of(s);
    let b = encode_spec(s);
    let n = s.len() as int;
    lemma_records_of(s);
    assert(b.len() == 32 * (n + 2));
    assert(b.len() / 32 == n + 2) by (nonlinear_arith)
        requires b.len() == 32 * (n + 2), n >= 0;
    assert(b.len() % 32 == 0) by (nonlinear_arith)
        requires b.len() == 32 * (n + 2), n >= 0;
    assert forall|i: int| 0 <= i < n implies #[trigger] record(b, i) == record_of(s[i]) by {
        assert(record(b, i) =~= record(rs, i));
        lemma_record_round_trip(s[i]);
    }
    assert(record(b, n) =~= end_marker());
    assert forall|j: int| 0 <= j < n implies !#[trigger] end_at(b, j) by {
        lemma_record_round_trip(s[j]);
        assert(record(b, j)[0] != end_marker()[0]);
    }
    assert(is_first_end(b, n));
    let k = choose|k: int| is_first_end(b, k);
    assert(k == n);
    assert forall|i: int| 0 <= i < n implies !#[trigger] bad_at(b, n, i) by {
        lemma_record_round_trip(s[i]);
    }
    assert(record(b, n + 1) =~= checksum_record(md5_of(rs)));
    assert(stored_digest(record(b, n + 1)) =~= md5_of(rs));
    assert(b.subrange(0, 32 * n) =~= rs);
    assert forall|i: int| 0 <= i < n implies #[trigger] entry_of(record(b, i)) == s[i] by {
        lemma_record_round_trip(s[i]);
    }
    assert(Seq::new(n as nat, |i: int| entry_of(record(b, i))) =~= s);
}


/// A buffer whose length is not a multiple of 32 fails with the length
/// error; one of a good length without an end marker record fails with the
/// missing end marker error.
pub proof fn lemma_bad_framing_rejected(b: Seq<u8>)
    ensures
        b.len() % 32 != 0 ==> decode_spec(b) == Err::<Seq<EntryView>, ErrorView>(
            ErrorView::LengthNotMultipleOf32,
        ),
        b.len() % 32 == 0 && (forall|k: int| 0 <= k < b.len() / 32 ==> record(b, k) != end_marker())
            ==> decode_spec(b) == Err::<Seq<EntryView>, ErrorView>(ErrorView::NoEndMarker),
{
}

} // verus!
