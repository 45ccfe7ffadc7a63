//! A model of the crash-consistent persistence protocol: the whole
//! collection is written to a sibling temporary file, which is then
//! atomically renamed over the target. Before the rename the target is
//! byte-for-byte untouched, so an interruption between the two steps never
//! leaves a partially written target; the code around the library performs
//! the same two steps on the real file system.

use crate::codec::enc_col;
use crate::store::{store_wf, Store};
use vstd::prelude::*;

verus! {

/// The two files that the persist step touches: the durable target and the
/// sibling temporary file. `None` stands for an absent file.
pub struct Mirror {
    pub main: Option<Vec<u8>>,
    pub temp: Option<Vec<u8>>,
}

impl Mirror {
    /// A mirror with no file written yet.
    pub fn new() -> (m: Mirror)
        ensures
            m.main is None,
            m.temp is None,
    {
        Mirror { main: None, temp: None }
    }

    /// The first persist step: the bytes reach only the temporary file, and
    /// the target stays byte-for-byte what it was. An interruption after
    /// this step therefore leaves the previously persisted state intact.
    pub fn write_temp(self, data: Vec<u8>) -> (m: Mirror)
        ensures
            m.main == self.main,
            m.temp == Some(data),
    {
        Mirror { main: self.main, temp: Some(data) }
    }

    /// The second persist step: the atomic rename. The temporary file
    /// becomes the target in one step; no intermediate content is ever
    /// visible at the target.
    pub fn commit(self) -> (m: Mirror)
        requires
            self.temp is Some,
        ensures
            m.main == self.temp,
            m.temp is None,
    {
        Mirror { main: self.temp, temp: None }
    }

    /// A whole persist: the entire collection's encoding reaches the target
    /// through the temporary file.
    pub fn persist(self, store: &Store) -> (m: Mirror)
        ensures
            m.main matches Some(f) && f@ == enc_col(store@),
            m.temp is None,
    {
        let bytes = store.snapshot_bytes();
        let staged = self.write_temp(bytes);
        staged.commit()
    }

    /// Startup load from the mirror: an absent target starts the store
    /// empty; otherwise the target's bytes decide. Together with `persist`,
    /// a persisted well-formed collection loads back exactly.
    pub fn load(&self) -> (s: Store)
        ensures
            store_wf(s@),
            match self.main {
                Some(f) => forall|m: Seq<crate::records::TransactionV>|
                    #[trigger] crate::codec::col_at(f@, m) && store_wf(m) ==> s@ == m,
                None => s@ == Seq::<crate::records::TransactionV>::empty(),
            },
    {
        match &self.main {
            Some(f) => Store::from_bytes(f),
            None => {
                let s = Store::new();
                assert(s@ =~= Seq::<crate::records::TransactionV>::empty());
                s
            },
        }
    }
}

} // verus!
