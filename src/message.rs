//! Inbound messages: which requests and notifications from a server are
//! handled, by method name, and the requests still waiting for a response.
use vstd::prelude::*;
use vstd::string::StringExecFns;
use crate::assoc::{
    assoc_map, has_key, keys_unique, lemma_assoc_absent, lemma_assoc_at, lemma_assoc_empty,
    lemma_assoc_push, lemma_assoc_remove,
};

verus! {

/// The server requests that are handled.
#[derive(Clone, Copy, Debug, PartialEq, Eq, Structural)]
pub enum MethodCallKind {
    /// `window/workDoneProgress/create`
    WorkDoneProgressCreate,
}

/// The server notifications that are handled.
#[derive(Clone, Copy, Debug, PartialEq, Eq, Structural)]
pub enum NotificationKind {
    /// `initialized`
    Initialized,
    /// `textDocument/publishDiagnostics`
    PublishDiagnostics,
    /// `window/showMessage`
    ShowMessage,
    /// `window/logMessage`
    LogMessage,
    /// `$/progress`
    ProgressMessage,
}

pub open spec fn method_call_kind_spec(m: Seq<char>) -> Option<MethodCallKind> {
    if m == "window/workDoneProgress/create"@ {
        Some(MethodCallKind::WorkDoneProgressCreate)
    } else {
        None
    }
}

pub open spec fn notification_kind_spec(m: Seq<char>) -> Option<NotificationKind> {
    if m == "initialized"@ {
        Some(NotificationKind::Initialized)
    } else if m == "textDocument/publishDiagnostics"@ {
        Some(NotificationKind::PublishDiagnostics)
    } else if m == "window/showMessage"@ {
        Some(NotificationKind::ShowMessage)
    } else if m == "window/logMessage"@ {
        Some(NotificationKind::LogMessage)
    } else if m == "$/progress"@ {
        Some(NotificationKind::ProgressMessage)
    } else {
        None
    }
}

/// The handled request that `method` names, if any.
pub fn method_call_kind(method: &str) -> (r: Option<MethodCallKind>)
    ensures
        r == method_call_kind_spec(method@),
{
    let m = String::from_str(method);
    if m == String::from_str("window/workDoneProgress/create") {
        Some(MethodCallKind::WorkDoneProgressCreate)
    } else {
        None
    }
}

/// The handled notification that `method` names, if any.
pub fn notification_kind(method: &str) -> (r: Option<NotificationKind>)
    ensures
        r == notification_kind_spec(method@),
{
    let m = String::from_str(method);
    if m == String::from_str("initialized") {
        Some(NotificationKind::Initialized)
    } else if m == String::from_str("textDocument/publishDiagnostics") {
        Some(NotificationKind::PublishDiagnostics)
    } else if m == String::from_str("window/showMessage") {
        Some(NotificationKind::ShowMessage)
    } else if m == String::from_str("window/logMessage") {
        Some(NotificationKind::LogMessage)
    } else if m == String::from_str("$/progress") {
        Some(NotificationKind::ProgressMessage)
    } else {
        None
    }
}

/// Requests sent and not yet answered, each with what waits for its response,
/// keyed by request id.
pub struct PendingRequests<W> {
    waiting: Vec<(u64, W)>,
}

impl<W> View for PendingRequests<W> {
    type V = Map<u64, W>;

    closed spec fn view(&self) -> Map<u64, W> {
        assoc_map(self.waiting@)
    }
}

impl<W> PendingRequests<W> {
    /// No id waits twice.
    pub closed spec fn wf(&self) -> bool {
        keys_unique(self.waiting@)
    }

    pub fn new() -> (r: PendingRequests<W>)
        ensures
            r.wf(),
            r@ == Map::<u64, W>::empty(),
    {
        let r = PendingRequests { waiting: Vec::new() };
        proof {
            lemma_assoc_empty(r.waiting@);
        }
        r
    }

    fn find(&self, id: u64) -> (r: Option<usize>)
        ensures
            match r {
                Some(i) => i < self.waiting@.len() && self.waiting@[i as int].0 == id,
                None => forall|i: int| 0 <= i < self.waiting@.len() ==> self.waiting@[i].0 != id,
            },
    {
        let mut i: usize = 0;
        while i < self.waiting.len()
            invariant
                i <= self.waiting@.len(),
                forall|j: int| 0 <= j < i ==> self.waiting@[j].0 != id,
            decreases self.waiting@.len() - i,
        {
            if self.waiting[i].0 == id {
                return Some(i);
            }
            i = i + 1;
        }
        None
    }

    /// Whether a request with id `id` is waiting.
    pub fn contains(&self, id: u64) -> (r: bool)
        requires
            self.wf(),
        ensures
            r == self@.contains_key(id),
    {
        match self.find(id) {
            Some(i) => {
                proof {
                    lemma_assoc_at(self.waiting@, i as int);
                }
                true
            },
            None => {
                proof {
                    lemma_assoc_absent(self.waiting@, id);
                }
                false
            },
        }
    }

    /// Records that request `id` waits with `waiter`.
    pub fn insert(&mut self, id: u64, waiter: W)
        requires
            old(self).wf(),
            !old(self)@.contains_key(id),
        ensures
            final(self).wf(),
            final(self)@ == old(self)@.insert(id, waiter),
    {
        proof {
            assert(!has_key(self.waiting@, id));
            lemma_assoc_push(self.waiting@, id, waiter);
        }
        self.waiting.push((id, waiter));
    }

    /// Hands over the waiter of request `id` and forgets it: a response goes
    /// to the request with its id and to no other.
    pub fn take(&mut self, id: u64) -> (r: Option<W>)
        requires
            old(self).wf(),
        ensures
            final(self).wf(),
            r == (if old(self)@.contains_key(id) {
                Some(old(self)@[id])
            } else {
                None::<W>
            }),
            final(self)@ == old(self)@.remove(id),
    {
        let ghost before = self.waiting@;
        match self.find(id) {
            Some(i) => {
                proof {
                    lemma_assoc_at(before, i as int);
                    lemma_assoc_remove(before, i as int);
                }
                let (_, waiter) = self.waiting.remove(i);
                Some(waiter)
            },
            None => {
                proof {
                    lemma_assoc_absent(before, id);
                    assert(assoc_map(before).remove(id) =~= assoc_map(before));
                }
                None
            },
        }
    }
}

} // verus!
