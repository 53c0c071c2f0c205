use vstd::prelude::*;

use crate::binary::{decode_entries, decode_spec, encode_entries, encode_spec, md5_of, records_of};
use crate::entry::{entries_view, Entry, EntryView};
use crate::error::{Error, ErrorView};
use crate::text::{
    csv_records, csv_text, data_rows, decode_csv_entries, encode_csv_entries, rows_decode_spec,
};
use crate::validate::{validate_entries, validation_result};

verus! {

/// A partition table: its entries in on-flash order.
#[derive(Debug, Clone)]
pub struct Table {
    entries: Vec<Entry>,
}

impl View for Table {
    type V = Seq<EntryView>;

    closed spec fn view(&self) -> Seq<EntryView> {
        entries_view(self.entries@)
    }
}

/// Position of the first entry named `name`.
pub open spec fn is_first_named(s: Seq<EntryView>, name: Seq<char>, i: int) -> bool {
    0 <= i < s.len() && s[i].name == name && forall|k: int| 0 <= k < i ==> #[trigger] s[k].name != name
}

impl Table {
    /// A table holding `entries`, in that order. Nothing is validated.
    pub fn new(entries: Vec<Entry>) -> (r: Table)
        ensures
            r@ == entries_view(entries@),
    {
        Table { entries }
    }

    /// The entries, in order.
    pub fn entries(&self) -> (r: &Vec<Entry>)
        ensures
            entries_view(r@) == self@,
    {
        &self.entries
    }

    /// Number of entries.
    pub fn len(&self) -> (r: usize)
        ensures
            r == self@.len(),
    {
        self.entries.len()
    }

    /// Appends an entry at the end of the table.
    pub fn add(&mut self, e: Entry)
        ensures
            final(self)@ == old(self)@.push(e@),
    {
        let ghost before = self.entries@;
        self.entries.push(e);
        assert(entries_view(self.entries@) =~= entries_view(before).push(e@));
    }

    /// Position of the first entry named `name`, if any.
    pub fn find(&self, name: &str) -> (r: Option<usize>)
        ensures
            match r {
                Some(i) => is_first_named(self@, name@, i as int),
                None => forall|k: int| 0 <= k < self@.len() ==> #[trigger] self@[k].name != name@,
            },
    {
        let target: String = name.to_owned();
        let mut i: usize = 0;
        while i < self.entries.len()
            invariant
                target@ == name@,
                i <= self@.len(),
                forall|k: int| 0 <= k < i ==> #[trigger] self@[k].name != name@,
            decreases self@.len() - i,
        {
            assert(self@[i as int] == self.entries@[i as int]@);
            if self.entries[i].name == target {
                return Some(i);
            }
            i += 1;
        }
        None
    }

    /// The first entry named `name`, if any.
    pub fn find_by_name(&self, name: &str) -> (r: Option<&Entry>)
        ensures
            match r {
                Some(e) => exists|i: int| is_first_named(self@, name@, i) && e@ == self@[i],
                None => forall|k: int| 0 <= k < self@.len() ==> #[trigger] self@[k].name != name@,
            },
    {
        match self.find(name) {
            Some(i) => Some(&self.entries[i]),
            None => None,
        }
    }

    /// Removes the first entry named `name` and returns it; the table is
    /// unchanged when no entry has that name.
    pub fn remove(&mut self, name: &str) -> (r: Option<Entry>)
        ensures
            match r {
                Some(e) => exists|i: int|
                    is_first_named(old(self)@, name@, i) && e@ == old(self)@[i] && final(self)@
                        == old(self)@.remove(i),
                None => final(self)@ == old(self)@ && forall|k: int|
                    0 <= k < old(self)@.len() ==> #[trigger] old(self)@[k].name != name@,
            },
    {
        match self.find(name) {
            Some(i) => {
                let ghost before = self.entries@;
                let e = self.entries.remove(i);
                assert(entries_view(self.entries@) =~= entries_view(before).remove(i as int));
                Some(e)
            },
            None => None,
        }
    }

    /// Decodes a binary partition table. The entries are not validated.
    pub fn decode_binary(b: &[u8]) -> (r: Result<Table, Error>)
        ensures
            match r {
                Ok(t) => decode_spec(b@) == Ok::<Seq<EntryView>, ErrorView>(t@),
                Err(e) => decode_spec(b@) == Err::<Seq<EntryView>, ErrorView>(e@),
            },
    {
        match decode_entries(b) {
            Ok(entries) => Ok(Table { entries }),
            Err(e) => Err(e),
        }
    }

    /// Encodes the table in the binary format: the records, the end marker
    /// and the checksum record.
    pub fn encode_binary(&self) -> (r: Vec<u8>)
        ensures
            r@ == encode_spec(self@),
            md5_of(records_of(self@)).len() == 16,
    {
        encode_entries(&self.entries)
    }

    /// Decodes a CSV partition table; a header row, commented or not, is
    /// skipped. The entries are not validated beyond the uniqueness of their
    /// names.
    pub fn decode_csv(text: &str) -> (r: Result<Table, Error>)
        ensures
            match csv_records(text@) {
                None => r matches Err(e) && e@ is CsvError,
                Some(rows) => match r {
                    Ok(t) => rows_decode_spec(data_rows(rows)) == Ok::<Seq<EntryView>, ErrorView>(t@),
                    Err(e) => rows_decode_spec(data_rows(rows)) == Err::<Seq<EntryView>, ErrorView>(
                        e@,
                    ),
                },
            },
    {
        match decode_csv_entries(text) {
            Ok(entries) => Ok(Table { entries }),
            Err(e) => Err(e),
        }
    }

    /// Encodes the table as CSV text.
    pub fn encode_csv(&self) -> (r: String)
        ensures
            r@ == csv_text(self@),
    {
        encode_csv_entries(&self.entries)
    }

    /// Checks the table and reports the first violation found.
    pub fn validate(&self) -> (r: Result<(), Error>)
        ensures
            validation_result(self@, r),
    {
        validate_entries(&self.entries)
    }
}

} // verus!
