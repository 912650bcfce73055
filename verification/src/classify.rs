//! The duplicate classifier: labels every entry of a block by how often its
//! identifiers occur among all the entries of that block.

use crate::bytes::same_bytes;
use crate::entry::{
    document_entries, entry_views, parse_portal_frag_from_text, EntryView, MappingEntry, Status,
};
use crate::error::EditError;
use vstd::prelude::*;

verus! {

/// How many of the entries carry the local identifier `id`.
pub open spec fn local_id_count(entries: Seq<EntryView>, id: Seq<u8>) -> nat
    decreases entries.len(),
{
    if entries.len() == 0 {
        0
    } else {
        local_id_count(entries.drop_last(), id) + if entries.last().local_id == id {
            1nat
        } else {
            0nat
        }
    }
}

/// How many of the entries carry the gateway identifier `id`.
pub open spec fn gw_id_count(entries: Seq<EntryView>, id: Seq<u8>) -> nat
    decreases entries.len(),
{
    if entries.len() == 0 {
        0
    } else {
        gw_id_count(entries.drop_last(), id) + if entries.last().gw_id == Some(id) {
            1nat
        } else {
            0nat
        }
    }
}

/// The status of the entry at `index` among `entries`. A repeated local
/// identifier takes precedence over a repeated gateway identifier.
pub open spec fn status_in(entries: Seq<EntryView>, index: int) -> Status {
    let entry = entries[index];
    if local_id_count(entries, entry.local_id) > 1 {
        Status::DuplicateLocal
    } else if entry.gw_id is Some && gw_id_count(entries, entry.gw_id->0) > 1 {
        Status::DuplicateGw
    } else {
        Status::Normal
    }
}

/// The same entries in the same order, each with its status among them.
pub open spec fn classify(entries: Seq<EntryView>) -> Seq<EntryView> {
    Seq::new(
        entries.len(),
        |i: int|
            EntryView {
                local_id: entries[i].local_id,
                gw_id: entries[i].gw_id,
                raw_value: entries[i].raw_value,
                same_id: entries[i].same_id,
                status: status_in(entries, i),
            },
    )
}

/// Another entry than the one at `index` carries its local identifier.
pub open spec fn has_local_twin(entries: Seq<EntryView>, index: int) -> bool {
    exists|other: int|
        0 <= other < entries.len() && other != index && (#[trigger] entries[other]).local_id
            == entries[index].local_id
}

/// Another entry than the one at `index` carries its gateway identifier.
pub open spec fn has_gw_twin(entries: Seq<EntryView>, index: int) -> bool {
    entries[index].gw_id is Some && exists|other: int|
        0 <= other < entries.len() && other != index && (#[trigger] entries[other]).gw_id
            == entries[index].gw_id
}

/// An identifier is counted at least once if an entry carries it, and at
/// least twice if two entries do.
pub proof fn lemma_local_id_count(entries: Seq<EntryView>, id: Seq<u8>)
    ensures
        local_id_count(entries, id) >= 1 <==> exists|i: int|
            0 <= i < entries.len() && (#[trigger] entries[i]).local_id == id,
        local_id_count(entries, id) >= 2 <==> exists|i: int, j: int|
            0 <= i < j < entries.len() && (#[trigger] entries[i]).local_id == id && (
            #[trigger] entries[j]).local_id == id,
    decreases entries.len(),
{
    if entries.len() > 0 {
        let front = entries.drop_last();
        let last = entries.len() - 1;
        lemma_local_id_count(front, id);
        if local_id_count(front, id) >= 1 {
            let i = choose|i: int| 0 <= i < front.len() && (#[trigger] front[i]).local_id == id;
            assert(entries[i].local_id == id);
            if entries[last].local_id == id {
                assert(entries[i].local_id == id && entries[last].local_id == id);
            }
        }
        if local_id_count(front, id) >= 2 {
            let (i, j) = choose|i: int, j: int|
                0 <= i < j < front.len() && (#[trigger] front[i]).local_id == id && (
                #[trigger] front[j]).local_id == id;
            assert(entries[i].local_id == id && entries[j].local_id == id);
        }
        if exists|i: int| 0 <= i < entries.len() && (#[trigger] entries[i]).local_id == id {
            let i = choose|i: int| 0 <= i < entries.len() && (#[trigger] entries[i]).local_id == id;
            if i < last {
                assert(front[i].local_id == id);
            }
        }
        if exists|i: int, j: int|
            0 <= i < j < entries.len() && (#[trigger] entries[i]).local_id == id && (
            #[trigger] entries[j]).local_id == id {
            let (i, j) = choose|i: int, j: int|
                0 <= i < j < entries.len() && (#[trigger] entries[i]).local_id == id && (
                #[trigger] entries[j]).local_id == id;
            assert(front[i].local_id == id);
            if j < last {
                assert(front[j].local_id == id);
            }
        }
    }
}

/// A gateway identifier is counted at least once if an entry carries it, and
/// at least twice if two entries do.
pub proof fn lemma_gw_id_count(entries: Seq<EntryView>, id: Seq<u8>)
    ensures
        gw_id_count(entries, id) >= 1 <==> exists|i: int|
            0 <= i < entries.len() && (#[trigger] entries[i]).gw_id == Some(id),
        gw_id_count(entries, id) >= 2 <==> exists|i: int, j: int|
            0 <= i < j < entries.len() && (#[trigger] entries[i]).gw_id == Some(id) && (
            #[trigger] entries[j]).gw_id == Some(id),
    decreases entries.len(),
{
    if entries.len() > 0 {
        let front = entries.drop_last();
        let last = entries.len() - 1;
        lemma_gw_id_count(front, id);
        if gw_id_count(front, id) >= 1 {
            let i = choose|i: int| 0 <= i < front.len() && (#[trigger] front[i]).gw_id == Some(id);
            assert(entries[i].gw_id == Some(id));
            if entries[last].gw_id == Some(id) {
                assert(entries[i].gw_id == Some(id) && entries[last].gw_id == Some(id));
            }
        }
        if gw_id_count(front, id) >= 2 {
            let (i, j) = choose|i: int, j: int|
                0 <= i < j < front.len() && (#[trigger] front[i]).gw_id == Some(id) && (
                #[trigger] front[j]).gw_id == Some(id);
            assert(entries[i].gw_id == Some(id) && entries[j].gw_id == Some(id));
        }
        if exists|i: int| 0 <= i < entries.len() && (#[trigger] entries[i]).gw_id == Some(id) {
            let i = choose|i: int|
                0 <= i < entries.len() && (#[trigger] entries[i]).gw_id == Some(id);
            if i < last {
                assert(front[i].gw_id == Some(id));
            }
        }
        if exists|i: int, j: int|
            0 <= i < j < entries.len() && (#[trigger] entries[i]).gw_id == Some(id) && (
            #[trigger] entries[j]).gw_id == Some(id) {
            let (i, j) = choose|i: int, j: int|
                0 <= i < j < entries.len() && (#[trigger] entries[i]).gw_id == Some(id) && (
                #[trigger] entries[j]).gw_id == Some(id);
            assert(front[i].gw_id == Some(id));
            if j < last {
                assert(front[j].gw_id == Some(id));
            }
        }
    }
}

/// The status of an entry says which of its identifiers it shares: the local
/// identifier, if another entry carries it; else the gateway identifier, if
/// another entry carries that; else none.
pub proof fn lemma_status_by_twins(entries: Seq<EntryView>, index: int)
    requires
        0 <= index < entries.len(),
    ensures
        status_in(entries, index) == if has_local_twin(entries, index) {
            Status::DuplicateLocal
        } else if has_gw_twin(entries, index) {
            Status::DuplicateGw
        } else {
            Status::Normal
        },
{
    let entry = entries[index];
    lemma_local_id_count(entries, entry.local_id);
    if local_id_count(entries, entry.local_id) >= 2 {
        let (i, j) = choose|i: int, j: int|
            0 <= i < j < entries.len() && (#[trigger] entries[i]).local_id == entry.local_id && (
            #[trigger] entries[j]).local_id == entry.local_id;
        if i != index {
            assert(entries[i].local_id == entries[index].local_id);
        } else {
            assert(entries[j].local_id == entries[index].local_id);
        }
    }
    if has_local_twin(entries, index) {
        let other = choose|other: int|
            0 <= other < entries.len() && other != index && (#[trigger] entries[other]).local_id
                == entries[index].local_id;
        if other < index {
            assert(entries[other].local_id == entry.local_id && entries[index].local_id
                == entry.local_id);
        } else {
            assert(entries[index].local_id == entry.local_id && entries[other].local_id
                == entry.local_id);
        }
    }
    if entry.gw_id is Some {
        let gw = entry.gw_id->Some_0;
        lemma_gw_id_count(entries, gw);
        if gw_id_count(entries, gw) >= 2 {
            let (i, j) = choose|i: int, j: int|
                0 <= i < j < entries.len() && (#[trigger] entries[i]).gw_id == Some(gw) && (
                #[trigger] entries[j]).gw_id == Some(gw);
            if i != index {
                assert(entries[i].gw_id == entries[index].gw_id);
            } else {
                assert(entries[j].gw_id == entries[index].gw_id);
            }
        }
        if has_gw_twin(entries, index) {
            let other = choose|other: int|
                0 <= other < entries.len() && other != index && (#[trigger] entries[other]).gw_id
                    == entries[index].gw_id;
            if other < index {
                assert(entries[other].gw_id == Some(gw) && entries[index].gw_id == Some(gw));
            } else {
                assert(entries[index].gw_id == Some(gw) && entries[other].gw_id == Some(gw));
            }
        }
    }
}

/// Counts the entries that carry the local identifier `id`.
fn count_local_id(entries: &Vec<MappingEntry>, id: &[u8]) -> (count: usize)
    ensures
        count == local_id_count(entry_views(entries@), id@),
{
    let mut count: usize = 0;
    let mut i: usize = 0;
    while i < entries.len()
        invariant
            i <= entries.len(),
            count <= i,
            count == local_id_count(entry_views(entries@).subrange(0, i as int), id@),
        decreases entries.len() - i,
    {
        assert(entry_views(entries@).subrange(0, i + 1).drop_last() == entry_views(
            entries@,
        ).subrange(0, i as int));
        if same_bytes(entries[i].local_id.as_slice(), id) {
            count += 1;
        }
        i += 1;
    }
    assert(entry_views(entries@).subrange(0, entries.len() as int) == entry_views(entries@));
    count
}

/// Counts the entries that carry the gateway identifier `id`.
fn count_gw_id(entries: &Vec<MappingEntry>, id: &[u8]) -> (count: usize)
    ensures
        count == gw_id_count(entry_views(entries@), id@),
{
    let mut count: usize = 0;
    let mut i: usize = 0;
    while i < entries.len()
        invariant
            i <= entries.len(),
            count <= i,
            count == gw_id_count(entry_views(entries@).subrange(0, i as int), id@),
        decreases entries.len() - i,
    {
        assert(entry_views(entries@).subrange(0, i + 1).drop_last() == entry_views(
            entries@,
        ).subrange(0, i as int));
        let same = match &entries[i].gw_id {
            Some(gw) => same_bytes(gw.as_slice(), id),
            None => false,
        };
        if same {
            count += 1;
        }
        i += 1;
    }
    assert(entry_views(entries@).subrange(0, entries.len() as int) == entry_views(entries@));
    count
}

/// The status of the entry at `index` among `entries`.
fn status_of(entries: &Vec<MappingEntry>, index: usize) -> (status: Status)
    requires
        index < entries.len(),
    ensures
        status == status_in(entry_views(entries@), index as int),
{
    let entry = &entries[index];
    if count_local_id(entries, entry.local_id.as_slice()) > 1 {
        return Status::DuplicateLocal;
    }
    match &entry.gw_id {
        Some(gw) => {
            if count_gw_id(entries, gw.as_slice()) > 1 {
                Status::DuplicateGw
            } else {
                Status::Normal
            }
        },
        None => Status::Normal,
    }
}

/// Gives every entry its status among the entries of the list. No entry is
/// dropped or merged, and the order stays.
pub fn classify_entries(entries: &mut Vec<MappingEntry>)
    ensures
        entry_views(final(entries)@) == classify(entry_views(old(entries)@)),
{
    let mut statuses: Vec<Status> = Vec::new();
    let mut i: usize = 0;
    while i < entries.len()
        invariant
            i <= entries.len(),
            entries@ == old(entries)@,
            statuses@.len() == i,
            forall|k: int|
                0 <= k < i ==> statuses@[k] == status_in(entry_views(old(entries)@), k),
        decreases entries.len() - i,
    {
        let status = status_of(entries, i);
        statuses.push(status);
        i += 1;
    }
    let mut j: usize = 0;
    while j < entries.len()
        invariant
            j <= entries.len(),
            entries@.len() == old(entries)@.len(),
            statuses@.len() == entries@.len(),
            forall|k: int|
                0 <= k < statuses@.len() ==> statuses@[k] == status_in(
                    entry_views(old(entries)@),
                    k,
                ),
            forall|k: int|
                0 <= k < j ==> (#[trigger] entries@[k])@ == classify(
                    entry_views(old(entries)@),
                )[k],
            forall|k: int| j <= k < entries@.len() ==> entries@[k] == old(entries)@[k],
        decreases entries.len() - j,
    {
        entries[j].status = statuses[j];
        j += 1;
    }
    assert(entry_views(entries@) =~= classify(entry_views(old(entries)@)));
}

/// Scans the block of a document and classifies its entries.
pub fn parse_mappings(raw: &[u8]) -> (r: Result<Vec<MappingEntry>, EditError>)
    ensures
        match r {
            Ok(entries) => document_entries(raw@) is Ok && entry_views(entries@) == classify(
                document_entries(raw@)->Ok_0,
            ),
            Err(e) => document_entries(raw@) == Err::<Seq<EntryView>, EditError>(e),
        },
{
    let mut result: Vec<MappingEntry> = Vec::new();
    match parse_portal_frag_from_text(raw, &mut result) {
        Err(e) => Err(e),
        Ok(_) => {
            assert(entry_views(result@) == document_entries(raw@)->Ok_0);
            classify_entries(&mut result);
            Ok(result)
        },
    }
}

} // verus!
