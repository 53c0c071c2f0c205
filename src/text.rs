use vstd::prelude::*;

use crate::entry::{
    alignment_of, end_of, entries_view, Entry, EntryView, APP_ALIGNMENT, APP_TYPE,
    DATA_ALIGNMENT,
};
use crate::error::{Error, ErrorView};
use crate::names::{
    flags_keyword, flags_label, lemma_subtype_label_injective, subtype_code, subtype_keyword,
    subtype_label, type_code, type_keyword, type_label,
};

verus! {

/// The value of a digit in base `radix` (10 or 16).
pub open spec fn digit_value(c: char, radix: nat) -> Option<nat> {
    if '0' <= c && c <= '9' {
        Some((c as nat - '0' as nat) as nat)
    } else if radix == 16 && 'a' <= c && c <= 'f' {
        Some((c as nat - 'a' as nat + 10) as nat)
    } else if radix == 16 && 'A' <= c && c <= 'F' {
        Some((c as nat - 'A' as nat + 10) as nat)
    } else {
        None
    }
}

pub open spec fn all_digits(s: Seq<char>, radix: nat) -> bool {
    forall|i: int| 0 <= i < s.len() ==> #[trigger] digit_value(s[i], radix) is Some
}

/// The number that the digits `s` write in base `radix`.
pub open spec fn digits_value(s: Seq<char>, radix: nat) -> nat
    decreases s.len(),
{
    if s.len() == 0 {
        0
    } else {
        digits_value(s.drop_last(), radix) * radix + match digit_value(s.last(), radix) {
            Some(d) => d,
            None => 0,
        }
    }
}

/// How many trailing characters are a size suffix (`K` or `M`, either case).
pub open spec fn suffix_len(f: Seq<char>) -> int {
    if f.len() > 0 && (f.last() == 'K' || f.last() == 'k' || f.last() == 'M' || f.last() == 'm') {
        1
    } else {
        0
    }
}

/// The factor of the size suffix.
pub open spec fn multiplier(f: Seq<char>) -> nat {
    if suffix_len(f) == 0 {
        1
    } else if f.last() == 'K' || f.last() == 'k' {
        1024
    } else {
        1048576
    }
}

/// Whether the number starts with a `0x` prefix.
pub open spec fn is_hex(f: Seq<char>) -> bool {
    f.len() - suffix_len(f) > 2 && f[0] == '0' && (f[1] == 'x' || f[1] == 'X')
}

/// The digits of a numeric field, between its prefix and its suffix.
pub open spec fn digits_of(f: Seq<char>) -> Seq<char> {
    f.subrange(if is_hex(f) { 2 } else { 0 }, f.len() - suffix_len(f))
}

pub open spec fn radix_of(f: Seq<char>) -> nat {
    if is_hex(f) {
        16
    } else {
        10
    }
}

/// The value of a numeric field: decimal, or hexadecimal after `0x`,
/// optionally followed by `K` (times 1024) or `M` (times 1024 * 1024); `None`
/// where the field is not such a number or the value exceeds 32 bits.
pub open spec fn number_value(f: Seq<char>) -> Option<u32> {
    let d = digits_of(f);
    if d.len() > 0 && all_digits(d, radix_of(f)) && digits_value(d, radix_of(f)) * multiplier(f)
        <= u32::MAX {
        Some((digits_value(d, radix_of(f)) * multiplier(f)) as u32)
    } else {
        None
    }
}

proof fn lemma_digits_prefix(s: Seq<char>, i: int, radix: nat)
    requires
        0 <= i <= s.len(),
        radix >= 1,
    ensures
        digits_value(s.subrange(0, i), radix) <= digits_value(s, radix),
    decreases s.len(),
{
    if i < s.len() {
        let init = s.drop_last();
        lemma_digits_prefix(init, i, radix);
        assert(init.subrange(0, i) =~= s.subrange(0, i));
        let x = digits_value(init, radix);
        assert(x <= x * radix) by (nonlinear_arith)
            requires radix >= 1;
    } else {
        assert(s.subrange(0, i) =~= s);
    }
}

/// The characters of `s`.
pub fn chars_of(s: &str) -> (r: Vec<char>)
    ensures
        r@ == s@,
{
    let n = s.unicode_len();
    let mut r: Vec<char> = Vec::new();
    let mut i: usize = 0;
    while i < n
        invariant
            n == s@.len(),
            i <= n,
            r@ == s@.subrange(0, i as int),
        decreases n - i,
    {
        r.push(s.get_char(i));
        i += 1;
        assert(r@ =~= s@.subrange(0, i as int));
    }
    assert(r@ =~= s@);
    r
}

/// Whether `a` and `b` hold the same characters.
pub fn same_chars(a: &Vec<char>, b: &Vec<char>) -> (r: bool)
    ensures
        r == (a@ == b@),
{
    if a.len() != b.len() {
        return false;
    }
    let mut i: usize = 0;
    while i < a.len()
        invariant
            a@.len() == b@.len(),
            i <= a@.len(),
            forall|k: int| 0 <= k < i ==> a@[k] == b@[k],
        decreases a@.len() - i,
    {
        if a[i] != b[i] {
            return false;
        }
        i += 1;
    }
    assert(a@ =~= b@);
    true
}

fn digit(c: char, radix: u64) -> (r: Option<u64>)
    requires
        radix == 10 || radix == 16,
    ensures
        match r {
            Some(d) => digit_value(c, radix as nat) == Some(d as nat) && d < radix,
            None => digit_value(c, radix as nat) is None,
        },
{
    if '0' <= c && c <= '9' {
        Some(c as u64 - '0' as u64)
    } else if radix == 16 && 'a' <= c && c <= 'f' {
        Some(c as u64 - 'a' as u64 + 10)
    } else if radix == 16 && 'A' <= c && c <= 'F' {
        Some(c as u64 - 'A' as u64 + 10)
    } else {
        None
    }
}

/// Reads a numeric field.
pub fn parse_number(f: &Vec<char>) -> (r: Option<u32>)
    ensures
        r == number_value(f@),
{
    let len = f.len();
    let mut end = len;
    let mut mult: u64 = 1;
    if len > 0 {
        let c = f[len - 1];
        if c == 'K' || c == 'k' {
            end = len - 1;
            mult = 1024;
        } else if c == 'M' || c == 'm' {
            end = len - 1;
            mult = 1048576;
        }
    }
    let hex = end > 2 && f[0] == '0' && (f[1] == 'x' || f[1] == 'X');
    let start: usize = if hex { 2 } else { 0 };
    let radix: u64 = if hex { 16 } else { 10 };
    let ghost d = f@.subrange(start as int, end as int);
    assert(end == f@.len() - suffix_len(f@));
    assert(mult == multiplier(f@));
    assert(hex == is_hex(f@));
    assert(d == digits_of(f@));
    if start >= end {
        return None;
    }
    let mut acc: u64 = 0;
    let mut i: usize = start;
    while i < end
        invariant
            start <= i <= end <= f@.len(),
            d == f@.subrange(start as int, end as int),
            radix == 10 || radix == 16,
            radix as nat == radix_of(f@),
            mult as nat == multiplier(f@),
            mult >= 1,
            d == digits_of(f@),
            acc as nat == digits_value(d.subrange(0, i - start), radix as nat),
            acc <= u32::MAX,
            all_digits(d.subrange(0, i - start), radix as nat),
        decreases end - i,
    {
        let dv = match digit(f[i], radix) {
            Some(v) => v,
            None => {
                assert(d[i - start] == f@[i as int]);
                assert(!all_digits(d, radix as nat));
                return None;
            },
        };
        let next = acc * radix + dv;
        proof {
            let p = d.subrange(0, i - start + 1);
            assert(p.drop_last() =~= d.subrange(0, i - start));
            assert(p.last() == f@[i as int]);
            assert forall|k: int| 0 <= k < p.len() implies #[trigger] digit_value(p[k], radix as nat) is Some by {
                if k < p.len() - 1 {
                    assert(p[k] == d.subrange(0, i - start)[k]);
                }
            }
        }
        if next > 0xFFFF_FFFF {
            proof {
                lemma_digits_prefix(d, i - start + 1, radix as nat);
                let v = digits_value(d, radix as nat);
                assert(v * mult >= v) by (nonlinear_arith)
                    requires mult >= 1;
            }
            return None;
        }
        acc = next;
        i += 1;
    }
    assert(d.subrange(0, end - start) =~= d);
    let total = acc * mult;
    if total > 0xFFFF_FFFF {
        return None;
    }
    Some(total as u32)
}


/// Where placement starts when the first entry leaves its offset blank.
pub const FIRST_OFFSET: u32 = 0x9000;

/// A code given by a field: its symbolic name, else a number below 256.
pub open spec fn small_number(f: Seq<char>) -> Option<u8> {
    match number_value(f) {
        Some(v) => if v <= 255 {
            Some(v as u8)
        } else {
            None
        },
        None => None,
    }
}

pub open spec fn type_value(f: Seq<char>) -> Option<u8> {
    if type_label(APP_TYPE) == Some(f) {
        Some(APP_TYPE)
    } else if type_label(1) == Some(f) {
        Some(1)
    } else {
        small_number(f)
    }
}

/// `c` is the first code whose subtype name under `ty` is `f`.
pub open spec fn is_first_subtype_code(ty: u8, f: Seq<char>, c: u8) -> bool {
    subtype_label(ty, c) == Some(f) && forall|d: u8| d < c ==> #[trigger] subtype_label(ty, d) != Some(f)
}

pub open spec fn subtype_value(ty: u8, f: Seq<char>) -> Option<u8> {
    if exists|c: u8| subtype_label(ty, c) == Some(f) {
        Some(choose|c: u8| is_first_subtype_code(ty, f, c))
    } else {
        small_number(f)
    }
}

pub open spec fn flags_value(f: Seq<char>) -> Option<u32> {
    if flags_label(0) == Some(f) {
        Some(0)
    } else if flags_label(1) == Some(f) {
        Some(1)
    } else if flags_label(2) == Some(f) {
        Some(2)
    } else if flags_label(3) == Some(f) {
        Some(3)
    } else {
        number_value(f)
    }
}

/// `x` rounded up to a multiple of `a`.
pub open spec fn round_up(x: nat, a: nat) -> nat {
    if a == 0 {
        x
    } else {
        ((x + a - 1) as nat / a * a) as nat
    }
}

/// Where an entry of type `ty` with a blank offset goes.
pub open spec fn placed_offset(prev_end: nat, ty: u8) -> Option<u32> {
    let o = round_up(prev_end, alignment_of(ty) as nat);
    if o <= u32::MAX {
        Some(o as u32)
    } else {
        None
    }
}

/// The entry a row gives: fields name, type, subtype, offset, size and an
/// optional flags field; `prev_end` is where the previous entry ends.
pub open spec fn row_entry(row: Seq<Seq<char>>, prev_end: nat) -> Option<EntryView> {
    if row.len() != 5 && row.len() != 6 {
        None
    } else {
        match type_value(row[1]) {
            None => None,
            Some(ty) => match subtype_value(ty, row[2]) {
                None => None,
                Some(subtype) => match (if row[3].len() == 0 {
                    placed_offset(prev_end, ty)
                } else {
                    number_value(row[3])
                }) {
                    None => None,
                    Some(offset) => match number_value(row[4]) {
                        None => None,
                        Some(size) => match (if row.len() == 6 {
                            flags_value(row[5])
                        } else {
                            Some(0u32)
                        }) {
                            None => None,
                            Some(flags) => Some(
                                EntryView { name: row[0], ty, subtype, offset, size, flags },
                            ),
                        },
                    },
                },
            },
        }
    }
}

/// Where the last of `es` ends, or the start of placement.
pub open spec fn prev_end(es: Seq<EntryView>) -> nat {
    if es.len() == 0 {
        FIRST_OFFSET as nat
    } else {
        end_of(es.last()) as nat
    }
}

/// The entries of the rows, or the position of the first row that cannot be read.
pub open spec fn rows_entries(rows: Seq<Seq<Seq<char>>>) -> Result<Seq<EntryView>, nat>
    decreases rows.len(),
{
    if rows.len() == 0 {
        Ok(Seq::empty())
    } else {
        match rows_entries(rows.drop_last()) {
            Err(i) => Err(i),
            Ok(es) => match row_entry(rows.last(), prev_end(es)) {
                Some(e) => Ok(es.push(e)),
                None => Err((rows.len() - 1) as nat),
            },
        }
    }
}

/// The name field of a row.
pub open spec fn row_name(row: Seq<Seq<char>>) -> Seq<char> {
    if row.len() > 0 {
        row[0]
    } else {
        Seq::empty()
    }
}

/// Row `j` repeats the name of an earlier row.
pub open spec fn row_dup_at(rows: Seq<Seq<Seq<char>>>, j: int) -> bool {
    0 <= j < rows.len() && exists|i: int|
        0 <= i < j && #[trigger] row_name(rows[i]) == row_name(rows[j])
}

pub open spec fn is_first_row_dup(rows: Seq<Seq<Seq<char>>>, j: int) -> bool {
    row_dup_at(rows, j) && forall|k: int| 0 <= k < j ==> !#[trigger] row_dup_at(rows, k)
}

/// What the rows of a CSV table decode to: the first repeated name, checked
/// before any row is read, else the first row error, else the entries.
pub open spec fn rows_decode_spec(rows: Seq<Seq<Seq<char>>>) -> Result<Seq<EntryView>, ErrorView> {
    if exists|j: int| row_dup_at(rows, j) {
        Err(ErrorView::DuplicatePartitions(row_name(rows[choose|j: int| is_first_row_dup(rows, j)])))
    } else {
        match rows_entries(rows) {
            Err(i) => Err(ErrorView::InvalidCsvRow(i)),
            Ok(es) => Ok(es),
        }
    }
}

/// The fields of a row of strings.
pub open spec fn row_view(row: Vec<String>) -> Seq<Seq<char>> {
    Seq::new(row@.len(), |j: int| row@[j]@)
}

/// The rows of strings as sequences of fields.
pub open spec fn rows_view(rows: Seq<Vec<String>>) -> Seq<Seq<Seq<char>>> {
    Seq::new(rows.len(), |i: int| row_view(rows[i]))
}

/// The rows, and the fields of each, that the CSV reader finds in a text;
/// `None` where it reports an error.
pub uninterp spec fn csv_records(text: Seq<char>) -> Option<Seq<Seq<Seq<char>>>>;

/// Relies on csv::ReaderBuilder (comments after `#`, no header row, fields
/// trimmed, rows of any width) and its records iterator: the rows of `text`,
/// which depend on the text alone, or the message of the error it reports.
#[verifier::external_body]
fn read_csv_rows(text: &str) -> (r: Result<Vec<Vec<String>>, String>)
    ensures
        match r {
            Ok(rows) => csv_records(text@) == Some(rows_view(rows@)),
            Err(_) => csv_records(text@) is None,
        },
{
    let mut builder = csv::ReaderBuilder::new();
    builder.comment(Some(b'#')).has_headers(false).trim(csv::Trim::All).flexible(true);
    builder.from_reader(text.as_bytes()).records().map(
        |rec| rec.map(|fields| fields.iter().map(String::from).collect()),
    ).collect::<Result<Vec<Vec<String>>, _>>().map_err(|e| e.to_string())
}

fn type_from_field(field: &str, f: &Vec<char>) -> (r: Option<u8>)
    requires
        f@ == field@,
    ensures
        r == type_value(f@),
{
    match type_code(field) {
        Some(c) => Some(c),
        None => small_number_of(f),
    }
}

fn small_number_of(f: &Vec<char>) -> (r: Option<u8>)
    ensures
        r == small_number(f@),
{
    match parse_number(f) {
        Some(v) => if v <= 255 {
            Some(v as u8)
        } else {
            None
        },
        None => None,
    }
}

fn subtype_from_field(ty: u8, field: &str, f: &Vec<char>) -> (r: Option<u8>)
    requires
        f@ == field@,
    ensures
        r == subtype_value(ty, f@),
{
    match subtype_code(ty, field) {
        Some(c) => {
            proof {
                assert(is_first_subtype_code(ty, f@, c)) by {
                    assert forall|d: u8| d < c implies #[trigger] subtype_label(ty, d) != Some(f@) by {
                        lemma_subtype_label_injective(ty, d, c);
                    }
                }
                let m = choose|m: u8| is_first_subtype_code(ty, f@, m);
                lemma_subtype_label_injective(ty, m, c);
            }
            Some(c)
        },
        None => small_number_of(f),
    }
}

fn flags_from_field(f: &Vec<char>) -> (r: Option<u32>)
    ensures
        r == flags_value(f@),
{
    let mut c: u32 = 0;
    while c < 4
        invariant
            c <= 4,
            forall|d: u32| d < c ==> #[trigger] flags_label(d) != Some(f@),
        decreases 4 - c,
    {
        let k = chars_of(flags_keyword(c).unwrap());
        if same_chars(&k, f) {
            return Some(c);
        }
        c += 1;
    }
    assert(flags_label(0) != Some(f@) && flags_label(1) != Some(f@));
    assert(flags_label(2) != Some(f@) && flags_label(3) != Some(f@));
    parse_number(f)
}

fn place(prev: u64, ty: u8) -> (r: Option<u32>)
    requires
        prev <= 0x2_0000_0000,
    ensures
        r == placed_offset(prev as nat, ty),
{
    let a: u64 = if ty == APP_TYPE { APP_ALIGNMENT as u64 } else { DATA_ALIGNMENT as u64 };
    let o = (prev + a - 1) / a * a;
    if o > 0xFFFF_FFFF {
        None
    } else {
        Some(o as u32)
    }
}

/// Reads one row; `prev` is where the previous entry ends.
pub fn parse_row(row: &Vec<String>, prev: u64) -> (r: Option<Entry>)
    requires
        prev <= 0x2_0000_0000,
    ensures
        match r {
            Some(e) => row_entry(row_view(*row), prev as nat) == Some(e@),
            None => row_entry(row_view(*row), prev as nat) is None,
        },
{
    if row.len() != 5 && row.len() != 6 {
        return None;
    }
    let f1 = chars_of(row[1].as_str());
    let ty = match type_from_field(row[1].as_str(), &f1) {
        Some(t) => t,
        None => {
            return None;
        },
    };
    let f2 = chars_of(row[2].as_str());
    let subtype = match subtype_from_field(ty, row[2].as_str(), &f2) {
        Some(t) => t,
        None => {
            return None;
        },
    };
    let f3 = chars_of(row[3].as_str());
    let offset = if f3.len() == 0 {
        place(prev, ty)
    } else {
        parse_number(&f3)
    };
    let offset = match offset {
        Some(o) => o,
        None => {
            return None;
        },
    };
    let f4 = chars_of(row[4].as_str());
    let size = match parse_number(&f4) {
        Some(s) => s,
        None => {
            return None;
        },
    };
    let flags = if row.len() == 6 {
        let f5 = chars_of(row[5].as_str());
        flags_from_field(&f5)
    } else {
        Some(0)
    };
    let flags = match flags {
        Some(f) => f,
        None => {
            return None;
        },
    };
    Some(Entry { name: row[0].clone(), ty, subtype, offset, size, flags })
}

/// Position of the first row that repeats the name of an earlier row.
fn find_row_duplicate(rows: &Vec<Vec<String>>) -> (r: Option<usize>)
    ensures
        match r {
            Some(j) => is_first_row_dup(rows_view(rows@), j as int),
            None => forall|j: int| !row_dup_at(rows_view(rows@), j),
        },
{
    let ghost all = rows_view(rows@);
    let empty = String::new();
    let mut j: usize = 0;
    while j < rows.len()
        invariant
            all == rows_view(rows@),
            empty@ == Seq::<char>::empty(),
            j <= rows@.len(),
            forall|k: int| 0 <= k < j ==> !#[trigger] row_dup_at(all, k),
        decreases rows@.len() - j,
    {
        let name_j = if rows[j].len() > 0 { &rows[j][0] } else { &empty };
        assert(name_j@ == row_name(all[j as int]));
        let mut i: usize = 0;
        while i < j
            invariant
                all == rows_view(rows@),
                empty@ == Seq::<char>::empty(),
                i <= j < rows@.len(),
                name_j@ == row_name(all[j as int]),
                forall|k: int| 0 <= k < j ==> !#[trigger] row_dup_at(all, k),
                forall|k: int| 0 <= k < i ==> row_name(all[k]) != row_name(all[j as int]),
            decreases j - i,
        {
            let name_i = if rows[i].len() > 0 { &rows[i][0] } else { &empty };
            assert(name_i@ == row_name(all[i as int]));
            if *name_i == *name_j {
                assert(row_dup_at(all, j as int));
                return Some(j);
            }
            i += 1;
        }
        j += 1;
    }
    None
}

/// Decodes the rows of a CSV table: names must be unique; then each row
/// gives an entry, a blank offset placing it after the previous entry at the
/// alignment of its type. The entries are not validated further.
pub fn entries_from_rows(rows: &Vec<Vec<String>>) -> (r: Result<Vec<Entry>, Error>)
    ensures
        match r {
            Ok(v) => rows_decode_spec(rows_view(rows@)) == Ok::<Seq<EntryView>, ErrorView>(
                entries_view(v@),
            ),
            Err(e) => rows_decode_spec(rows_view(rows@)) == Err::<Seq<EntryView>, ErrorView>(
                e@,
            ),
        },
{
    let ghost all = rows_view(rows@);
    match find_row_duplicate(rows) {
        Some(j) => {
            proof {
                let m = choose|m: int| is_first_row_dup(all, m);
                assert(m == j);
            }
            let name = if rows[j].len() > 0 { rows[j][0].clone() } else { String::new() };
            return Err(Error::DuplicatePartitions(name));
        },
        None => {},
    }
    assert(!exists|j: int| row_dup_at(all, j));
    let mut entries: Vec<Entry> = Vec::new();
    let mut i: usize = 0;
    assert(all.subrange(0, 0) =~= Seq::<Seq<Seq<char>>>::empty());
    assert(entries_view(entries@) =~= Seq::<EntryView>::empty());
    while i < rows.len()
        invariant
            all == rows_view(rows@),
            !exists|j: int| row_dup_at(all, j),
            i <= rows@.len(),
            rows_entries(all.subrange(0, i as int)) == Ok::<Seq<EntryView>, nat>(
                entries_view(entries@),
            ),
        decreases rows@.len() - i,
    {
        let ghost es = entries_view(entries@);
        let prev: u64 = if entries.len() == 0 {
            FIRST_OFFSET as u64
        } else {
            let last = &entries[entries.len() - 1];
            last.offset as u64 + last.size as u64
        };
        assert(prev == prev_end(es));
        proof {
            assert(all.subrange(0, i + 1).drop_last() =~= all.subrange(0, i as int));
            assert(all[i as int] == row_view(rows@[i as int]));
        }
        match parse_row(&rows[i], prev) {
            Some(e) => {
                let ghost before = entries@;
                entries.push(e);
                assert(entries_view(entries@) =~= entries_view(before).push(e@));
            },
            None => {
                proof {
                    lemma_rows_entries_err(all, i + 1, i as nat);
                    assert(all.subrange(0, all.len() as int) =~= all);
                }
                return Err(Error::InvalidCsvRow(i));
            },
        }
        i += 1;
    }
    assert(all.subrange(0, rows@.len() as int) =~= all);
    Ok(entries)
}

proof fn lemma_rows_entries_err(rows: Seq<Seq<Seq<char>>>, n: int, i: nat)
    requires
        0 <= n <= rows.len(),
        rows_entries(rows.subrange(0, n)) == Err::<Seq<EntryView>, nat>(i),
    ensures
        rows_entries(rows) == Err::<Seq<EntryView>, nat>(i),
    decreases rows.len() - n,
{
    if n < rows.len() {
        assert(rows.subrange(0, n + 1).drop_last() =~= rows.subrange(0, n));
        lemma_rows_entries_err(rows, n + 1, i);
    } else {
        assert(rows.subrange(0, n) =~= rows);
    }
}

/// The header row: the names of the six columns.
pub open spec fn header_fields() -> Seq<Seq<char>> {
    seq![seq!['n', 'a', 'm', 'e'], seq!['t', 'y', 'p', 'e'], seq!['s', 'u', 'b', 't', 'y', 'p', 'e'], seq!['o', 'f', 'f', 's', 'e', 't'], seq!['s', 'i', 'z', 'e'], seq!['f', 'l', 'a', 'g', 's']]
}

/// The rows that hold entries: all of them, but for a leading header row.
pub open spec fn data_rows(rows: Seq<Seq<Seq<char>>>) -> Seq<Seq<Seq<char>>> {
    if rows.len() > 0 && rows[0] == header_fields() {
        rows.drop_first()
    } else {
        rows
    }
}

fn field_is(row: &Vec<String>, i: usize, word: &str) -> (r: bool)
    requires
        i < row@.len(),
    ensures
        r == (row_view(*row)[i as int] == word@),
{
    same_chars(&chars_of(row[i].as_str()), &chars_of(word))
}

fn is_header_row(row: &Vec<String>) -> (r: bool)
    ensures
        r == (row_view(*row) == header_fields()),
{
    proof {
        reveal_strlit("name");
        reveal_strlit("type");
        reveal_strlit("subtype");
        reveal_strlit("offset");
        reveal_strlit("size");
        reveal_strlit("flags");
    }
    assert(header_fields().len() == 6);
    if row.len() != 6 {
        assert(row_view(*row).len() != 6);
        return false;
    }
    let r = field_is(row, 0, "name") && field_is(row, 1, "type") && field_is(row, 2, "subtype") && field_is(row, 3, "offset") && field_is(row, 4, "size") && field_is(row, 5, "flags");
    proof {
        assert("name"@ =~= seq!['n', 'a', 'm', 'e']);
        assert("type"@ =~= seq!['t', 'y', 'p', 'e']);
        assert("subtype"@ =~= seq!['s', 'u', 'b', 't', 'y', 'p', 'e']);
        assert("offset"@ =~= seq!['o', 'f', 'f', 's', 'e', 't']);
        assert("size"@ =~= seq!['s', 'i', 'z', 'e']);
        assert("flags"@ =~= seq!['f', 'l', 'a', 'g', 's']);
        if r {
            assert(row_view(*row) =~= header_fields());
        }
    }
    r
}

/// Decodes a CSV partition table; a header row, commented or not, is skipped.
pub fn decode_csv_entries(text: &str) -> (r: Result<Vec<Entry>, Error>)
    ensures
        match csv_records(text@) {
            None => r matches Err(e) && e@ is CsvError,
            Some(rows) => match r {
                Ok(v) => rows_decode_spec(data_rows(rows)) == Ok::<Seq<EntryView>, ErrorView>(
                    entries_view(v@),
                ),
                Err(e) => rows_decode_spec(data_rows(rows)) == Err::<Seq<EntryView>, ErrorView>(
                    e@,
                ),
            },
        },
{
    match read_csv_rows(text) {
        Ok(mut rows) => {
            let ghost all = rows@;
            if rows.len() > 0 && is_header_row(&rows[0]) {
                rows.remove(0);
                assert(rows_view(rows@) =~= rows_view(all).drop_first());
            }
            entries_from_rows(&rows)
        },
        Err(m) => Err(Error::CsvError(m)),
    }
}


/// The lowercase hexadecimal digit of `d < 16`.
pub open spec fn hex_digit_char(d: nat) -> char {
    seq!['0', '1', '2', '3', '4', '5', '6', '7', '8', '9', 'a', 'b', 'c', 'd', 'e', 'f'][d as int]
}

/// The hexadecimal digits of `v`, most significant first, without leading zeros.
pub open spec fn hex_digits(v: nat) -> Seq<char>
    decreases v,
{
    if v < 16 {
        seq![hex_digit_char(v)]
    } else {
        hex_digits(v / 16).push(hex_digit_char(v % 16))
    }
}

/// `v` written as `0x` and its hexadecimal digits.
pub open spec fn hex_text(v: nat) -> Seq<char> {
    seq!['0', 'x'] + hex_digits(v)
}

/// A code written by its symbolic name where it has one, else in hexadecimal.
pub open spec fn code_text(label: Option<Seq<char>>, v: nat) -> Seq<char> {
    match label {
        Some(l) => l,
        None => hex_text(v),
    }
}

/// The fields of the line that holds an entry: name, type, subtype,
/// offset, size and flags.
pub open spec fn row_fields(e: EntryView) -> Seq<Seq<char>> {
    seq![
        e.name,
        code_text(type_label(e.ty), e.ty as nat),
        code_text(subtype_label(e.ty, e.subtype), e.subtype as nat),
        hex_text(e.offset as nat),
        hex_text(e.size as nat),
        code_text(flags_label(e.flags), e.flags as nat),
    ]
}

/// The line that holds an entry: its fields, separated by commas.
pub open spec fn row_text(e: EntryView) -> Seq<char> {
    let f = row_fields(e);
    f[0] + seq![','] + f[1] + seq![','] + f[2] + seq![','] + f[3] + seq![','] + f[4] + seq![',']
        + f[5] + seq!['\n']
}

/// The header line, written as a comment.
pub open spec fn header_text() -> Seq<char> {
    seq!['#', ' ', 'n', 'a', 'm', 'e', ',', 't', 'y', 'p', 'e', ',', 's', 'u', 'b', 't', 'y', 'p', 'e', ',', 'o', 'f', 'f', 's', 'e', 't', ',', 's', 'i', 'z', 'e', ',', 'f', 'l', 'a', 'g', 's', '\n']
}

/// The lines of the entries, one after the other.
pub open spec fn rows_text(s: Seq<EntryView>) -> Seq<char>
    decreases s.len(),
{
    if s.len() == 0 {
        Seq::empty()
    } else {
        rows_text(s.drop_last()) + row_text(s.last())
    }
}

/// The CSV text of a table: the header line, then one line per entry.
pub open spec fn csv_text(s: Seq<EntryView>) -> Seq<char> {
    header_text() + rows_text(s)
}

fn hex_digit_str(d: u32) -> (r: &'static str)
    requires
        d < 16,
    ensures
        r@ == seq![hex_digit_char(d as nat)],
{
    if d == 0 {
        proof {
            reveal_strlit("0");
        }
        "0"
    } else if d == 1 {
        proof {
            reveal_strlit("1");
        }
        "1"
    } else if d == 2 {
        proof {
            reveal_strlit("2");
        }
        "2"
    } else if d == 3 {
        proof {
            reveal_strlit("3");
        }
        "3"
    } else if d == 4 {
        proof {
            reveal_strlit("4");
        }
        "4"
    } else if d == 5 {
        proof {
            reveal_strlit("5");
        }
        "5"
    } else if d == 6 {
        proof {
            reveal_strlit("6");
        }
        "6"
    } else if d == 7 {
        proof {
            reveal_strlit("7");
        }
        "7"
    } else if d == 8 {
        proof {
            reveal_strlit("8");
        }
        "8"
    } else if d == 9 {
        proof {
            reveal_strlit("9");
        }
        "9"
    } else if d == 10 {
        proof {
            reveal_strlit("a");
        }
        "a"
    } else if d == 11 {
        proof {
            reveal_strlit("b");
        }
        "b"
    } else if d == 12 {
        proof {
            reveal_strlit("c");
        }
        "c"
    } else if d == 13 {
        proof {
            reveal_strlit("d");
        }
        "d"
    } else if d == 14 {
        proof {
            reveal_strlit("e");
        }
        "e"
    } else {
        proof {
            reveal_strlit("f");
        }
        "f"
    }
}

fn push_hex_digits(out: &mut String, v: u32)
    ensures
        final(out)@ == old(out)@ + hex_digits(v as nat),
    decreases v,
{
    if v >= 16 {
        push_hex_digits(out, v / 16);
    }
    out.append(hex_digit_str(v % 16));
    assert(final(out)@ =~= old(out)@ + hex_digits(v as nat));
}

fn push_hex(out: &mut String, v: u32)
    ensures
        final(out)@ == old(out)@ + hex_text(v as nat),
{
    proof {
        reveal_strlit("0x");
    }
    out.append("0x");
    push_hex_digits(out, v);
    assert(final(out)@ =~= old(out)@ + hex_text(v as nat));
}

fn push_code(out: &mut String, label: Option<&'static str>, v: u32)
    ensures
        final(out)@ == old(out)@ + code_text(
            match label {
                Some(l) => Some(l@),
                None => None,
            },
            v as nat,
        ),
{
    match label {
        Some(l) => out.append(l),
        None => push_hex(out, v),
    }
}

fn push_separator(out: &mut String)
    ensures
        final(out)@ == old(out)@ + seq![','],
{
    proof {
        reveal_strlit(",");
    }
    out.append(",");
}

fn push_row(out: &mut String, e: &Entry)
    ensures
        final(out)@ == old(out)@ + row_text(e@),
{
    out.append(e.name.as_str());
    push_separator(out);
    push_code(out, type_keyword(e.ty), e.ty as u32);
    push_separator(out);
    push_code(out, subtype_keyword(e.ty, e.subtype), e.subtype as u32);
    push_separator(out);
    push_hex(out, e.offset);
    push_separator(out);
    push_hex(out, e.size);
    push_separator(out);
    push_code(out, flags_keyword(e.flags), e.flags);
    proof {
        reveal_strlit("\n");
    }
    out.append("\n");
    assert(final(out)@ =~= old(out)@ + row_text(e@));
}

/// Encodes entries as CSV text: the header line as a comment, then one line
/// per entry with symbolic names where the codes have them and offsets,
/// sizes and other codes in hexadecimal.
pub fn encode_csv_entries(v: &Vec<Entry>) -> (r: String)
    ensures
        r@ == csv_text(entries_view(v@)),
{
    let ghost s = entries_view(v@);
    proof {
        reveal_strlit("# name,type,subtype,offset,size,flags\n");
    }
    let mut out = String::from_str("# name,type,subtype,offset,size,flags\n");
    assert(out@ =~= header_text());
    let mut i: usize = 0;
    while i < v.len()
        invariant
            s == entries_view(v@),
            i <= v@.len(),
            out@ == header_text() + rows_text(s.subrange(0, i as int)),
        decreases v@.len() - i,
    {
        push_row(&mut out, &v[i]);
        proof {
            assert(s.subrange(0, i + 1).drop_last() =~= s.subrange(0, i as int));
            assert(s[i as int] == v@[i as int]@);
            assert(out@ =~= header_text() + rows_text(s.subrange(0, i + 1)));
        }
        i += 1;
    }
    assert(s.subrange(0, v@.len() as int) =~= s);
    out
}


proof fn lemma_hex_digit(d: nat)
    requires
        d < 16,
    ensures
        digit_value(hex_digit_char(d), 16) == Some(d),
        hex_digit_char(d) != 'K' && hex_digit_char(d) != 'k',
        hex_digit_char(d) != 'M' && hex_digit_char(d) != 'm',
{
    if d == 0 {
    } else if d == 1 {
    } else if d == 2 {
    } else if d == 3 {
    } else if d == 4 {
    } else if d == 5 {
    } else if d == 6 {
    } else if d == 7 {
    } else if d == 8 {
    } else if d == 9 {
    } else if d == 10 {
    } else if d == 11 {
    } else if d == 12 {
    } else if d == 13 {
    } else if d == 14 {
    } else if d == 15 {
    }
}

proof fn lemma_hex_digits(v: nat)
    ensures
        hex_digits(v).len() >= 1,
        all_digits(hex_digits(v), 16),
        digits_value(hex_digits(v), 16) == v,
        suffix_len(hex_digits(v)) == 0,
    decreases v,
{
    let s = hex_digits(v);
    if v < 16 {
        lemma_hex_digit(v);
        assert(s.drop_last() =~= Seq::<char>::empty());
        assert(digits_value(s.drop_last(), 16) == 0);
        assert(s.last() == hex_digit_char(v));
    } else {
        let q = v / 16;
        let r = v % 16;
        lemma_hex_digits(q);
        lemma_hex_digit(r);
        let init = hex_digits(q);
        assert(s.drop_last() =~= init);
        assert(s.last() == hex_digit_char(r));
        assert forall|i: int| 0 <= i < s.len() implies #[trigger] digit_value(s[i], 16) is Some by {
            if i < init.len() {
                assert(s[i] == init[i]);
            }
        }
        assert(digits_value(s, 16) == digits_value(init, 16) * 16 + r);
        assert(q * 16 + r == v);
    }
}

/// A number written by the encoder reads back as itself.
pub proof fn lemma_hex_text_value(v: nat)
    requires
        v <= u32::MAX,
    ensures
        number_value(hex_text(v)) == Some(v as u32),
        hex_text(v).len() > 2,
        hex_text(v)[0] == '0',
{
    let t = hex_text(v);
    lemma_hex_digits(v);
    assert(t.last() == hex_digits(v).last());
    assert(suffix_len(t) == 0);
    assert(is_hex(t));
    assert(digits_of(t) =~= hex_digits(v));
}

proof fn lemma_type_text(ty: u8)
    ensures
        type_value(code_text(type_label(ty), ty as nat)) == Some(ty),
{
    lemma_hex_text_value(ty as nat);
}

proof fn lemma_subtype_text(ty: u8, st: u8)
    ensures
        subtype_value(ty, code_text(subtype_label(ty, st), st as nat)) == Some(st),
{
    let f = code_text(subtype_label(ty, st), st as nat);
    lemma_hex_text_value(st as nat);
    lemma_subtype_label_injective(ty, st, st);
    match subtype_label(ty, st) {
        Some(l) => {
            assert(subtype_label(ty, st) == Some(f));
            assert(is_first_subtype_code(ty, f, st)) by {
                assert forall|d: u8| d < st implies #[trigger] subtype_label(ty, d) != Some(f) by {
                    lemma_subtype_label_injective(ty, d, st);
                }
            }
            let c = choose|c: u8| is_first_subtype_code(ty, f, c);
            lemma_subtype_label_injective(ty, c, st);
        },
        None => {
            assert forall|c: u8| subtype_label(ty, c) != Some(f) by {
                lemma_subtype_label_injective(ty, c, c);
            }
        },
    }
}

proof fn lemma_flags_text(flags: u32)
    ensures
        flags_value(code_text(flags_label(flags), flags as nat)) == Some(flags),
{
    lemma_hex_text_value(flags as nat);
}

/// Reading the fields that the CSV line of an entry holds gives the entry
/// back, wherever the previous entry ends: the encoder and the row reader
/// agree. The text round trip also needs the CSV reader to split the line
/// into these fields, which holds where the name has no separator, quote,
/// comment mark, line break or surrounding space.
pub proof fn lemma_row_fields_round_trip(e: EntryView, prev: nat)
    ensures
        row_entry(row_fields(e), prev) == Some(e),
{
    let f = row_fields(e);
    lemma_hex_text_value(e.offset as nat);
    lemma_hex_text_value(e.size as nat);
    lemma_type_text(e.ty);
    lemma_subtype_text(e.ty, e.subtype);
    lemma_flags_text(e.flags);
}

} // verus!
