use vstd::prelude::*;

verus! {

/// The decisions of the capture loop: which ticks read the clipboard, and
/// which captured items go on to be stored.
pub struct CaptureState {
    /// The clipboard's change counter at the last tick, if any.
    pub last_change_count: Option<i64>,
    /// The fingerprint of the last item passed on, if any.
    pub last_fingerprint: Option<u64>,
}

impl CaptureState {
    /// A loop that has seen nothing yet.
    pub fn new() -> (r: CaptureState)
        ensures
            r.last_change_count is None,
            r.last_fingerprint is None,
    {
        CaptureState { last_change_count: None, last_fingerprint: None }
    }

    /// A tick that sees `change_count`: the clipboard is read only when the
    /// counter moved since the last tick.
    pub fn observe(&mut self, change_count: i64) -> (read: bool)
        ensures
            read == (old(self).last_change_count != Some(change_count)),
            final(self).last_change_count == Some(change_count),
            final(self).last_fingerprint == old(self).last_fingerprint,
    {
        let read = match self.last_change_count {
            Some(c) => c != change_count,
            None => true,
        };
        self.last_change_count = Some(change_count);
        read
    }

    /// A captured item with `fingerprint`: it is passed on unless it repeats
    /// the item passed on just before it.
    pub fn accept(&mut self, fingerprint: u64) -> (pass: bool)
        ensures
            pass == (old(self).last_fingerprint != Some(fingerprint)),
            final(self).last_fingerprint == Some(fingerprint),
            final(self).last_change_count == old(self).last_change_count,
    {
        let pass = match self.last_fingerprint {
            Some(f) => f != fingerprint,
            None => true,
        };
        self.last_fingerprint = Some(fingerprint);
        pass
    }
}

} // verus!
