use vstd::prelude::*;

verus! {

/// Type code of application partitions.
pub const APP_TYPE: u8 = 0x00;
/// Type code of data partitions.
pub const DATA_TYPE: u8 = 0x01;
/// Subtype code of the factory application (type app).
pub const FACTORY_SUBTYPE: u8 = 0x00;
/// Subtype code of the OTA selection data (type data).
pub const OTADATA_SUBTYPE: u8 = 0x00;
/// Offset alignment of application partitions.
pub const APP_ALIGNMENT: u32 = 0x10000;
/// Offset alignment of all other partitions.
pub const DATA_ALIGNMENT: u32 = 0x1000;
/// Largest size a partition may have.
pub const MAX_PARTITION_SIZE: u32 = 0x1000000;
/// The one size an OTA data partition may have.
pub const OTADATA_SIZE: u32 = 0x2000;
/// Flag bit of encrypted partitions.
pub const FLAG_ENCRYPTED: u32 = 0x1;
/// Flag bit of read-only partitions.
pub const FLAG_READONLY: u32 = 0x2;

/// One partition record.
#[derive(Debug, Clone)]
pub struct Entry {
    pub name: String,
    pub ty: u8,
    pub subtype: u8,
    pub offset: u32,
    pub size: u32,
    pub flags: u32,
}

/// The mathematical value of an [`Entry`].
pub struct EntryView {
    pub name: Seq<char>,
    pub ty: u8,
    pub subtype: u8,
    pub offset: u32,
    pub size: u32,
    pub flags: u32,
}

impl View for Entry {
    type V = EntryView;

    open spec fn view(&self) -> EntryView {
        EntryView {
            name: self.name@,
            ty: self.ty,
            subtype: self.subtype,
            offset: self.offset,
            size: self.size,
            flags: self.flags,
        }
    }
}

/// The view of a sequence of entries.
pub open spec fn entries_view(v: Seq<Entry>) -> Seq<EntryView> {
    Seq::new(v.len(), |i: int| v[i]@)
}

/// Offset alignment that a partition of type `ty` needs.
pub open spec fn alignment_of(ty: u8) -> u32 {
    if ty == APP_TYPE {
        APP_ALIGNMENT
    } else {
        DATA_ALIGNMENT
    }
}

/// End of the byte range `[offset, offset + size)` of an entry.
pub open spec fn end_of(e: EntryView) -> int {
    e.offset + e.size
}

pub open spec fn is_app(e: EntryView) -> bool {
    e.ty == APP_TYPE
}

pub open spec fn is_factory(e: EntryView) -> bool {
    e.ty == APP_TYPE && e.subtype == FACTORY_SUBTYPE
}

pub open spec fn is_otadata(e: EntryView) -> bool {
    e.ty == DATA_TYPE && e.subtype == OTADATA_SUBTYPE
}

impl Entry {
    /// Builds an entry from its fields.
    pub fn new(name: String, ty: u8, subtype: u8, offset: u32, size: u32, flags: u32) -> (r: Entry)
        ensures
            r@ == (EntryView { name: name@, ty, subtype, offset, size, flags }),
    {
        Entry { name, ty, subtype, offset, size, flags }
    }

    pub fn name(&self) -> (r: &str)
        ensures
            r@ == self.name@,
    {
        self.name.as_str()
    }

    pub fn ty(&self) -> (r: u8)
        ensures
            r == self.ty,
    {
        self.ty
    }

    pub fn subtype(&self) -> (r: u8)
        ensures
            r == self.subtype,
    {
        self.subtype
    }

    pub fn offset(&self) -> (r: u32)
        ensures
            r == self.offset,
    {
        self.offset
    }

    pub fn size(&self) -> (r: u32)
        ensures
            r == self.size,
    {
        self.size
    }

    pub fn flags(&self) -> (r: u32)
        ensures
            r == self.flags,
    {
        self.flags
    }

    /// Whether the encrypted flag is set.
    pub fn encrypted(&self) -> (r: bool)
        ensures
            r == (self.flags & FLAG_ENCRYPTED != 0),
    {
        self.flags & FLAG_ENCRYPTED != 0
    }

    /// Whether the read-only flag is set.
    pub fn readonly(&self) -> (r: bool)
        ensures
            r == (self.flags & FLAG_READONLY != 0),
    {
        self.flags & FLAG_READONLY != 0
    }
}

} // verus!
