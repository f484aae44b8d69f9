use vstd::prelude::*;

verus! {

/// A persisted clipboard item: what the history store hands back once it has
/// assigned an id.
pub struct HistoryRecord {
    pub id: i32,
    /// The kind's wire code.
    pub kind: i32,
    /// Where the item's blob was written; empty when there is none.
    pub path: String,
    /// The display text, which is what gets indexed.
    pub content: String,
    /// Capture instant, in seconds since the Unix epoch.
    pub timestamp: i64,
    pub uuid: String,
}

impl HistoryRecord {
    /// Builds a record from its fields.
    pub fn new(id: i32, kind: i32, path: String, content: String, timestamp: i64, uuid: String) -> (r: HistoryRecord)
        ensures
            r.id == id,
            r.kind == kind,
            r.path@ == path@,
            r.content@ == content@,
            r.timestamp == timestamp,
            r.uuid@ == uuid@,
    {
        HistoryRecord { id, kind, path, content, timestamp, uuid }
    }
}

} // verus!
