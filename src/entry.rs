use vstd::prelude::*;

use crate::record::HistoryRecord;

verus! {

/// A history record in the shape handed to the user interface.
pub struct ClipboardEntry {
    pub id: i32,
    pub kind: i32,
    pub path: String,
    pub content: String,
    pub timestamp: i64,
    pub uuid: String,
}

/// A page of entries for the user interface.
pub struct ClipboardList {
    pub entries: Vec<ClipboardEntry>,
}

/// `e` carries the fields of `r` unchanged.
pub open spec fn carries(e: ClipboardEntry, r: HistoryRecord) -> bool {
    &&& e.id == r.id
    &&& e.kind == r.kind
    &&& e.path@ == r.path@
    &&& e.content@ == r.content@
    &&& e.timestamp == r.timestamp
    &&& e.uuid@ == r.uuid@
}

/// Turns a record into its user-interface entry.
pub fn convert_to_clipboard_entry(entry: HistoryRecord) -> (r: ClipboardEntry)
    ensures
        carries(r, entry),
{
    ClipboardEntry {
        id: entry.id,
        kind: entry.kind,
        path: entry.path,
        content: entry.content,
        timestamp: entry.timestamp,
        uuid: entry.uuid,
    }
}

/// Turns records into a list of entries, in the same order.
pub fn to_clipboard_list(records: Vec<HistoryRecord>) -> (r: ClipboardList)
    ensures
        r.entries@.len() == records@.len(),
        forall|i: int| 0 <= i < records@.len() ==> carries(#[trigger] r.entries@[i], records@[i]),
{
    let mut rest = records;
    let mut reversed: Vec<ClipboardEntry> = Vec::new();
    let ghost all = records@;
    while rest.len() > 0
        invariant
            rest@.len() + reversed@.len() == all.len(),
            forall|i: int| 0 <= i < rest@.len() ==> #[trigger] rest@[i] == all[i],
            forall|j: int| 0 <= j < reversed@.len() ==> carries(#[trigger] reversed@[j], all[all.len() - 1 - j]),
        decreases rest@.len(),
    {
        let r = rest.pop().unwrap();
        reversed.push(convert_to_clipboard_entry(r));
    }
    let mut entries: Vec<ClipboardEntry> = Vec::new();
    while reversed.len() > 0
        invariant
            reversed@.len() + entries@.len() == all.len(),
            forall|j: int| 0 <= j < reversed@.len() ==> carries(#[trigger] reversed@[j], all[all.len() - 1 - j]),
            forall|i: int| 0 <= i < entries@.len() ==> carries(#[trigger] entries@[i], all[i]),
        decreases reversed@.len(),
    {
        let e = reversed.pop().unwrap();
        entries.push(e);
    }
    ClipboardList { entries }
}

} // verus!
