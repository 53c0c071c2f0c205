use vstd::prelude::*;

use crate::entry::{
    alignment_of, end_of, entries_view, is_app, is_factory, is_otadata, Entry, EntryView,
    APP_TYPE, DATA_ALIGNMENT, APP_ALIGNMENT, DATA_TYPE, FACTORY_SUBTYPE, MAX_PARTITION_SIZE,
    OTADATA_SIZE, OTADATA_SUBTYPE,
};
use crate::error::{Error, ErrorView};

verus! {

/// Entry `j` repeats the name of an earlier entry.
pub open spec fn dup_at(s: Seq<EntryView>, j: int) -> bool {
    0 <= j < s.len() && exists|i: int| 0 <= i < j && #[trigger] s[i].name == s[j].name
}

/// Entry `j` is the first entry that repeats an earlier name.
pub open spec fn is_first_dup(s: Seq<EntryView>, j: int) -> bool {
    dup_at(s, j) && forall|k: int| 0 <= k < j ==> !#[trigger] dup_at(s, k)
}

/// The half-open byte ranges of two entries intersect.
pub open spec fn ranges_intersect(a: EntryView, b: EntryView) -> bool {
    a.offset < end_of(b) && b.offset < end_of(a)
}

/// Entries `i < j` overlap.
pub open spec fn overlap_at(s: Seq<EntryView>, i: int, j: int) -> bool {
    0 <= i < j < s.len() && ranges_intersect(s[i], s[j])
}

/// `(i, j)` is the first overlapping pair, taking `j` first and then `i`.
pub open spec fn is_first_overlap(s: Seq<EntryView>, i: int, j: int) -> bool {
    overlap_at(s, i, j) && forall|k: int, l: int|
        #[trigger] overlap_at(s, k, l) ==> (j < l || (j == l && i <= k))
}

pub open spec fn misaligned(e: EntryView) -> bool {
    e.offset % alignment_of(e.ty) != 0
}

pub open spec fn has_misaligned(s: Seq<EntryView>) -> bool {
    exists|i: int| 0 <= i < s.len() && #[trigger] misaligned(s[i])
}

pub open spec fn two_factory(s: Seq<EntryView>) -> bool {
    exists|i: int, j: int|
        0 <= i < j < s.len() && #[trigger] is_factory(s[i]) && #[trigger] is_factory(s[j])
}

pub open spec fn two_otadata(s: Seq<EntryView>) -> bool {
    exists|i: int, j: int|
        0 <= i < j < s.len() && #[trigger] is_otadata(s[i]) && #[trigger] is_otadata(s[j])
}

pub open spec fn bad_otadata_size(s: Seq<EntryView>) -> bool {
    exists|i: int| 0 <= i < s.len() && #[trigger] is_otadata(s[i]) && s[i].size != OTADATA_SIZE
}

pub open spec fn has_app(s: Seq<EntryView>) -> bool {
    exists|i: int| 0 <= i < s.len() && #[trigger] is_app(s[i])
}

pub open spec fn too_large_at(s: Seq<EntryView>, j: int) -> bool {
    0 <= j < s.len() && s[j].size > MAX_PARTITION_SIZE
}

pub open spec fn is_first_too_large(s: Seq<EntryView>, j: int) -> bool {
    too_large_at(s, j) && forall|k: int| 0 <= k < j ==> !#[trigger] too_large_at(s, k)
}

/// The violation that validation reports: the checks run in a fixed order
/// (names, overlaps, alignment, factory count, OTA data count and size, app
/// presence, size limit) and the first failing one, at its first position,
/// decides. `None` when every check passes.
pub open spec fn first_violation(s: Seq<EntryView>) -> Option<ErrorView> {
    if exists|j: int| dup_at(s, j) {
        let j = choose|j: int| is_first_dup(s, j);
        Some(ErrorView::DuplicatePartitions(s[j].name))
    } else if exists|i: int, j: int| overlap_at(s, i, j) {
        let (i, j) = choose|i: int, j: int| is_first_overlap(s, i, j);
        Some(ErrorView::OverlappingPartitions(s[i].name, s[j].name))
    } else if has_misaligned(s) {
        Some(ErrorView::UnalignedPartition)
    } else if two_factory(s) {
        Some(ErrorView::MultipleFactoryPartitions)
    } else if two_otadata(s) {
        Some(ErrorView::MultipleOtadataPartitions)
    } else if bad_otadata_size(s) {
        Some(ErrorView::InvalidOtadataPartitionSize)
    } else if !has_app(s) {
        Some(ErrorView::NoAppPartition)
    } else if exists|j: int| too_large_at(s, j) {
        let j = choose|j: int| is_first_too_large(s, j);
        Some(ErrorView::PartitionTooLarge(s[j].name))
    } else {
        None
    }
}

/// What a validation of the entries `s` may return.
pub open spec fn validation_result(s: Seq<EntryView>, r: Result<(), Error>) -> bool {
    match r {
        Ok(_) => first_violation(s) is None,
        Err(e) => first_violation(s) == Some(e@),
    }
}

pub proof fn lemma_first_dup_exists(s: Seq<EntryView>, j: int)
    requires
        dup_at(s, j),
    ensures
        exists|m: int| is_first_dup(s, m),
    decreases j,
{
    if exists|k: int| 0 <= k < j && dup_at(s, k) {
        let k = choose|k: int| 0 <= k < j && dup_at(s, k);
        lemma_first_dup_exists(s, k);
    } else {
        assert(is_first_dup(s, j));
    }
}

pub proof fn lemma_first_overlap_exists(s: Seq<EntryView>, i: int, j: int)
    requires
        overlap_at(s, i, j),
    ensures
        exists|a: int, b: int| is_first_overlap(s, a, b),
    decreases j, i,
{
    if exists|k: int, l: int| overlap_at(s, k, l) && (l < j || (l == j && k < i)) {
        let (k, l) = choose|k: int, l: int| overlap_at(s, k, l) && (l < j || (l == j && k < i));
        lemma_first_overlap_exists(s, k, l);
    } else {
        assert(is_first_overlap(s, i, j));
    }
}

pub proof fn lemma_first_too_large_exists(s: Seq<EntryView>, j: int)
    requires
        too_large_at(s, j),
    ensures
        exists|m: int| is_first_too_large(s, m),
    decreases j,
{
    if exists|k: int| 0 <= k < j && too_large_at(s, k) {
        let k = choose|k: int| 0 <= k < j && too_large_at(s, k);
        lemma_first_too_large_exists(s, k);
    } else {
        assert(is_first_too_large(s, j));
    }
}

/// Position of the first entry that repeats an earlier name.
fn find_duplicate(v: &Vec<Entry>) -> (r: Option<usize>)
    ensures
        match r {
            Some(j) => is_first_dup(entries_view(v@), j as int),
            None => forall|j: int| !dup_at(entries_view(v@), j),
        },
{
    let ghost s = entries_view(v@);
    let mut j: usize = 0;
    while j < v.len()
        invariant
            s == entries_view(v@),
            j <= v.len(),
            forall|k: int| 0 <= k < j ==> !#[trigger] dup_at(s, k),
        decreases v.len() - j,
    {
        let mut i: usize = 0;
        while i < j
            invariant
                s == entries_view(v@),
                i <= j < v.len(),
                forall|k: int| 0 <= k < j ==> !#[trigger] dup_at(s, k),
                forall|k: int| 0 <= k < i ==> s[k].name != s[j as int].name,
            decreases j - i,
        {
            if v[i].name == v[j].name {
                assert(s[i as int] == v@[i as int]@ && s[j as int] == v@[j as int]@);
                assert(s[i as int].name == s[j as int].name);
                assert(dup_at(s, j as int));
                return Some(j);
            }
            i += 1;
        }
        j += 1;
    }
    None
}

/// The first pair of entries whose byte ranges intersect.
fn find_overlap(v: &Vec<Entry>) -> (r: Option<(usize, usize)>)
    ensures
        match r {
            Some((i, j)) => is_first_overlap(entries_view(v@), i as int, j as int),
            None => forall|i: int, j: int| !overlap_at(entries_view(v@), i, j),
        },
{
    let ghost s = entries_view(v@);
    let mut j: usize = 0;
    while j < v.len()
        invariant
            s == entries_view(v@),
            j <= v.len(),
            forall|k: int, l: int| 0 <= l < j ==> !#[trigger] overlap_at(s, k, l),
        decreases v.len() - j,
    {
        let mut i: usize = 0;
        while i < j
            invariant
                s == entries_view(v@),
                i <= j < v.len(),
                forall|k: int, l: int| 0 <= l < j ==> !#[trigger] overlap_at(s, k, l),
                forall|k: int| 0 <= k < i ==> !#[trigger] overlap_at(s, k, j as int),
            decreases j - i,
        {
            let a = &v[i];
            let b = &v[j];
            let a_end: u64 = a.offset as u64 + a.size as u64;
            let b_end: u64 = b.offset as u64 + b.size as u64;
            if (a.offset as u64) < b_end && (b.offset as u64) < a_end {
                assert(overlap_at(s, i as int, j as int));
                return Some((i, j));
            }
            i += 1;
        }
        j += 1;
    }
    None
}

/// The checks after names and overlaps, up to the size limit.
fn check_placement(v: &Vec<Entry>) -> (r: Result<(), Error>)
    ensures
        ({
            let s = entries_view(v@);
            match r {
                Ok(_) => !has_misaligned(s) && !two_factory(s) && !two_otadata(s)
                    && !bad_otadata_size(s) && has_app(s),
                Err(e) => e@ == (if has_misaligned(s) {
                    ErrorView::UnalignedPartition
                } else if two_factory(s) {
                    ErrorView::MultipleFactoryPartitions
                } else if two_otadata(s) {
                    ErrorView::MultipleOtadataPartitions
                } else if bad_otadata_size(s) {
                    ErrorView::InvalidOtadataPartitionSize
                } else {
                    ErrorView::NoAppPartition
                }) && (has_misaligned(s) || two_factory(s) || two_otadata(s)
                    || bad_otadata_size(s) || !has_app(s)),
            }
        }),
{
    let ghost s = entries_view(v@);
    let mut i: usize = 0;
    while i < v.len()
        invariant
            s == entries_view(v@),
            i <= v.len(),
            forall|k: int| 0 <= k < i ==> !#[trigger] misaligned(s[k]),
        decreases v.len() - i,
    {
        let align = if v[i].ty == APP_TYPE { APP_ALIGNMENT } else { DATA_ALIGNMENT };
        if v[i].offset % align != 0 {
            assert(misaligned(s[i as int]));
            return Err(Error::UnalignedPartition);
        }
        i += 1;
    }
    let mut factory_seen = false;
    let mut otadata_seen = false;
    let mut otadata_bad = false;
    let mut app_seen = false;
    let mut two_factories = false;
    let mut two_otadatas = false;
    let mut i: usize = 0;
    while i < v.len()
        invariant
            s == entries_view(v@),
            i <= v.len(),
            factory_seen == exists|k: int| 0 <= k < i && #[trigger] is_factory(s[k]),
            otadata_seen == exists|k: int| 0 <= k < i && #[trigger] is_otadata(s[k]),
            app_seen == exists|k: int| 0 <= k < i && #[trigger] is_app(s[k]),
            otadata_bad == exists|k: int|
                0 <= k < i && #[trigger] is_otadata(s[k]) && s[k].size != OTADATA_SIZE,
            two_factories == exists|k: int, l: int|
                0 <= k < l < i && #[trigger] is_factory(s[k]) && #[trigger] is_factory(s[l]),
            two_otadatas == exists|k: int, l: int|
                0 <= k < l < i && #[trigger] is_otadata(s[k]) && #[trigger] is_otadata(s[l]),
        decreases v.len() - i,
    {
        let e = &v[i];
        assert(s[i as int] == e@);
        assert(is_factory(s[i as int]) == (e.ty == APP_TYPE && e.subtype == FACTORY_SUBTYPE));
        assert(is_app(s[i as int]) == (e.ty == APP_TYPE));
        assert(is_otadata(s[i as int]) == (e.ty == DATA_TYPE && e.subtype == OTADATA_SUBTYPE));
        if e.ty == APP_TYPE {
            app_seen = true;
        }
        if e.ty == APP_TYPE && e.subtype == FACTORY_SUBTYPE {
            if factory_seen {
                two_factories = true;
            }
            factory_seen = true;
        }
        if e.ty == DATA_TYPE && e.subtype == OTADATA_SUBTYPE {
            if otadata_seen {
                two_otadatas = true;
            }
            otadata_seen = true;
            if e.size != OTADATA_SIZE {
                otadata_bad = true;
            }
        }
        i += 1;
    }
    if two_factories {
        Err(Error::MultipleFactoryPartitions)
    } else if two_otadatas {
        Err(Error::MultipleOtadataPartitions)
    } else if otadata_bad {
        Err(Error::InvalidOtadataPartitionSize)
    } else if !app_seen {
        Err(Error::NoAppPartition)
    } else {
        Ok(())
    }
}

/// Position of the first entry above the size limit.
fn find_too_large(v: &Vec<Entry>) -> (r: Option<usize>)
    ensures
        match r {
            Some(j) => is_first_too_large(entries_view(v@), j as int),
            None => forall|j: int| !too_large_at(entries_view(v@), j),
        },
{
    let ghost s = entries_view(v@);
    let mut j: usize = 0;
    while j < v.len()
        invariant
            s == entries_view(v@),
            j <= v.len(),
            forall|k: int| 0 <= k < j ==> !#[trigger] too_large_at(s, k),
        decreases v.len() - j,
    {
        if v[j].size > MAX_PARTITION_SIZE {
            assert(too_large_at(s, j as int));
            return Some(j);
        }
        j += 1;
    }
    None
}

/// Runs every check over `v` and reports the first violation.
pub fn validate_entries(v: &Vec<Entry>) -> (r: Result<(), Error>)
    ensures
        validation_result(entries_view(v@), r),
{
    let ghost s = entries_view(v@);
    match find_duplicate(v) {
        Some(j) => {
            proof {
                let m = choose|m: int| is_first_dup(s, m);
                assert(m == j);
            }
            return Err(Error::DuplicatePartitions(v[j].name.clone()));
        },
        None => {},
    }
    match find_overlap(v) {
        Some((i, j)) => {
            proof {
                let (a, b) = choose|a: int, b: int| is_first_overlap(s, a, b);
                assert(overlap_at(s, a, b));
                assert(a == i && b == j);
            }
            return Err(Error::OverlappingPartitions(v[i].name.clone(), v[j].name.clone()));
        },
        None => {},
    }
    match check_placement(v) {
        Err(e) => {
            return Err(e);
        },
        Ok(_) => {},
    }
    match find_too_large(v) {
        Some(j) => {
            proof {
                let m = choose|m: int| is_first_too_large(s, m);
                assert(m == j);
            }
            Err(Error::PartitionTooLarge(v[j].name.clone()))
        },
        None => Ok(()),
    }
}


/// Validation is a function of the entries: two validations of the same
/// entries agree, on success and on the error reported.
pub proof fn lemma_validation_deterministic(
    s: Seq<EntryView>,
    r1: Result<(), Error>,
    r2: Result<(), Error>,
)
    requires
        validation_result(s, r1),
        validation_result(s, r2),
    ensures
        match (r1, r2) {
            (Ok(_), Ok(_)) => true,
            (Err(a), Err(b)) => a@ == b@,
            _ => false,
        },
{
}

/// Two entries sharing a name make validation fail with a duplicate-name
/// error whose name is held by two entries of the table.
pub proof fn lemma_duplicate_names_rejected(s: Seq<EntryView>, i: int, j: int)
    requires
        0 <= i < j < s.len(),
        s[i].name == s[j].name,
    ensures
        first_violation(s) matches Some(ErrorView::DuplicatePartitions(n)) && exists|k: int, l: int|
            0 <= k < l < s.len() && s[k].name == n && s[l].name == n,
{
    assert(dup_at(s, j));
    lemma_first_dup_exists(s, j);
    let m = choose|m: int| is_first_dup(s, m);
    let k = choose|k: int| 0 <= k < m && #[trigger] s[k].name == s[m].name;
    assert(0 <= k < m < s.len() && s[k].name == s[m].name);
}

/// Among entries with distinct names, two whose byte ranges intersect make
/// validation fail with an overlap error that names an intersecting pair, in
/// table order.
pub proof fn lemma_overlap_rejected(s: Seq<EntryView>, i: int, j: int)
    requires
        0 <= i < j < s.len(),
        ranges_intersect(s[i], s[j]),
        forall|k: int, l: int| 0 <= k < l < s.len() ==> s[k].name != s[l].name,
    ensures
        first_violation(s) matches Some(ErrorView::OverlappingPartitions(a, b)) && exists|k: int, l: int|
            0 <= k < l < s.len() && ranges_intersect(s[k], s[l]) && s[k].name == a && s[l].name
                == b,
{
    assert(!exists|m: int| dup_at(s, m));
    assert(overlap_at(s, i, j));
    lemma_first_overlap_exists(s, i, j);
    let (a, b) = choose|a: int, b: int| is_first_overlap(s, a, b);
    assert(overlap_at(s, a, b));
}

/// The checks that run before the OTA data checks all pass.
pub open spec fn passes_until_otadata(s: Seq<EntryView>) -> bool {
    &&& forall|k: int, l: int| 0 <= k < l < s.len() ==> s[k].name != s[l].name
    &&& forall|k: int, l: int| 0 <= k < l < s.len() ==> !ranges_intersect(s[k], s[l])
    &&& forall|k: int| 0 <= k < s.len() ==> !#[trigger] misaligned(s[k])
    &&& !two_factory(s)
}

/// Two OTA data entries, all earlier checks passing, give the error for
/// several OTA data partitions.
pub proof fn lemma_two_otadata_rejected(s: Seq<EntryView>, i: int, j: int)
    requires
        0 <= i < j < s.len(),
        is_otadata(s[i]),
        is_otadata(s[j]),
        passes_until_otadata(s),
    ensures
        first_violation(s) == Some(ErrorView::MultipleOtadataPartitions),
{
    assert(!exists|m: int| dup_at(s, m));
    assert(!exists|a: int, b: int| overlap_at(s, a, b));
    assert(two_otadata(s));
}

/// A single OTA data entry of a size other than 0x2000, all earlier checks
/// passing, gives the OTA data size error.
pub proof fn lemma_otadata_size_rejected(s: Seq<EntryView>, i: int)
    requires
        0 <= i < s.len(),
        is_otadata(s[i]),
        s[i].size != OTADATA_SIZE,
        forall|k: int| 0 <= k < s.len() && k != i ==> !#[trigger] is_otadata(s[k]),
        passes_until_otadata(s),
    ensures
        first_violation(s) == Some(ErrorView::InvalidOtadataPartitionSize),
{
    assert(!exists|m: int| dup_at(s, m));
    assert(!exists|a: int, b: int| overlap_at(s, a, b));
    assert(bad_otadata_size(s));
}

/// A single OTA data entry of size 0x2000 passes both OTA data checks.
pub proof fn lemma_otadata_size_accepted(s: Seq<EntryView>, i: int)
    requires
        0 <= i < s.len(),
        is_otadata(s[i]),
        s[i].size == OTADATA_SIZE,
        forall|k: int| 0 <= k < s.len() && k != i ==> !#[trigger] is_otadata(s[k]),
    ensures
        first_violation(s) != Some(ErrorView::MultipleOtadataPartitions),
        first_violation(s) != Some(ErrorView::InvalidOtadataPartitionSize),
{
    assert(!two_otadata(s));
    assert(!bad_otadata_size(s));
}

/// Without an app entry, all earlier checks passing, validation fails with
/// the missing-app error.
pub proof fn lemma_no_app_rejected(s: Seq<EntryView>)
    requires
        forall|k: int| 0 <= k < s.len() ==> !#[trigger] is_app(s[k]),
        passes_until_otadata(s),
        !two_otadata(s),
        !bad_otadata_size(s),
    ensures
        first_violation(s) == Some(ErrorView::NoAppPartition),
{
    assert(!exists|m: int| dup_at(s, m));
    assert(!exists|a: int, b: int| overlap_at(s, a, b));
}

/// Adding an app entry makes the app-presence check pass.
pub proof fn lemma_added_app_accepted(s: Seq<EntryView>, e: EntryView)
    requires
        is_app(e),
    ensures
        first_violation(s.push(e)) != Some(ErrorView::NoAppPartition),
{
    assert(is_app(s.push(e)[s.len() as int]));
    assert(has_app(s.push(e)));
}

} // verus!
