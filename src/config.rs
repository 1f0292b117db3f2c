use vstd::prelude::*;

verus! {

/// One watched root: events under `local_path` belong to the source
/// `source_id`, once its first full synchronisation is `complete`.
pub struct WatcherMapping {
    pub local_path: String,
    pub source_id: String,
    pub complete: bool,
}

/// A point-in-time view of the configuration, taken once per batch.
/// `sources` lists the identifiers of the registered sources.
pub struct ConfigSnapshot {
    pub watchers: Vec<WatcherMapping>,
    pub sources: Vec<String>,
}

/// A raw filesystem change; only its first path is used for routing.
pub struct RawEvent {
    pub paths: Vec<String>,
}

/// `id` names a registered source.
pub open spec fn registered(sources: Seq<String>, id: Seq<char>) -> bool {
    exists|k: int| 0 <= k < sources.len() && (#[trigger] sources[k])@ == id
}

impl ConfigSnapshot {
    /// Whether the registry holds a source named `id`.
    pub fn has_source(&self, id: &String) -> (r: bool)
        ensures
            r == registered(self.sources@, id@),
    {
        let mut k: usize = 0;
        while k < self.sources.len()
            invariant
                k <= self.sources@.len(),
                forall|j: int| 0 <= j < k ==> (#[trigger] self.sources@[j])@ != id@,
            decreases self.sources@.len() - k,
        {
            if self.sources[k] == *id {
                return true;
            }
            k = k + 1;
        }
        false
    }
}

} // verus!
