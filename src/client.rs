//! The state and the decisions of one connection to a language server.
use vstd::prelude::*;
use vstd::string::StrSliceExecFns;
use crate::changeset::{apply_ops, consumed, Operation};
use crate::lsp;
use crate::lsp::TextDocumentContentChangeEvent;
use crate::text::{char_after, lemma_advance_concat, walk};
use crate::util::{lemma_offset_round_trip, lsp_coord, lsp_offset, metric, MAX_DOC_CHARS};
use crate::{Error, OffsetEncoding, Result};

verus! {

/// The document that one change event makes of `doc`, if its range names
/// offsets of `doc` in order.
pub open spec fn apply_change(
    doc: Seq<char>,
    ev: TextDocumentContentChangeEvent,
    enc: OffsetEncoding,
) -> Option<Seq<char>> {
    match ev.range {
        None => Some(ev.text@),
        Some(r) => match (lsp_offset(doc, r.start@, enc), lsp_offset(doc, r.end@, enc)) {
            (Some(a), Some(b)) => if a <= b {
                Some(doc.take(a as int) + ev.text@ + doc.skip(b as int))
            } else {
                None
            },
            _ => None,
        },
    }
}

/// The document that the events make of `doc`, applied one after another.
pub open spec fn apply_changes(
    doc: Seq<char>,
    evs: Seq<TextDocumentContentChangeEvent>,
    enc: OffsetEncoding,
) -> Option<Seq<char>>
    decreases evs.len(),
{
    if evs.len() == 0 {
        Some(doc)
    } else {
        match apply_changes(doc, evs.drop_last(), enc) {
            Some(d) => apply_change(d, evs.last(), enc),
            None => None,
        }
    }
}

/// The document while events are produced: the new text up to `new_pos`, then
/// the old text from `old_pos`.
pub open spec fn mid_doc(old: Seq<char>, new: Seq<char>, old_pos: int, new_pos: int) -> Seq<char> {
    new.take(new_pos) + old.skip(old_pos)
}

/// An event as values: the ends of its range as coordinates, and its text.
pub open spec fn event_view(e: TextDocumentContentChangeEvent) -> (
    Option<((nat, nat), (nat, nat))>,
    Seq<char>,
) {
    (
        match e.range {
            Some(r) => Some((r.start@, r.end@)),
            None => None,
        },
        e.text@,
    )
}

/// The event that replaces the `n` characters at `new_pos` of the document in
/// between by `s`.
pub open spec fn replacement(
    old: Seq<char>,
    new: Seq<char>,
    old_pos: int,
    new_pos: int,
    n: int,
    s: Seq<char>,
    enc: OffsetEncoding,
) -> (Option<((nat, nat), (nat, nat))>, Seq<char>) {
    let d = mid_doc(old, new, old_pos, new_pos);
    (Some((lsp_coord(d, new_pos as nat, enc), lsp_coord(d, (new_pos + n) as nat, enc))), s)
}

/// The events for the operations from index `k` on, where the operations
/// before `k` consumed `old` up to `old_pos` and produced `new` up to
/// `new_pos`. A retain gives no event; a delete or an insert gives one,
/// and a delete next to an insert, in either order, share one replacement.
#[verifier::opaque]
pub open spec fn change_events(
    old: Seq<char>,
    new: Seq<char>,
    ops: Seq<Operation>,
    k: int,
    old_pos: int,
    new_pos: int,
    enc: OffsetEncoding,
) -> Seq<(Option<((nat, nat), (nat, nat))>, Seq<char>)>
    decreases ops.len() - k,
{
    if k < 0 || k >= ops.len() {
        Seq::empty()
    } else {
        match ops[k] {
            Operation::Retain(n) => change_events(old, new, ops, k + 1, old_pos + n, new_pos + n, enc),
            Operation::Delete(n) => if k + 1 < ops.len() && ops[k + 1] is Insert {
                let s = ops[k + 1]->Insert_0@;
                seq![replacement(old, new, old_pos, new_pos, n as int, s, enc)] + change_events(
                    old,
                    new,
                    ops,
                    k + 2,
                    old_pos + n,
                    new_pos + s.len(),
                    enc,
                )
            } else {
                seq![replacement(old, new, old_pos, new_pos, n as int, Seq::empty(), enc)]
                    + change_events(old, new, ops, k + 1, old_pos + n, new_pos, enc)
            },
            Operation::Insert(s) => if k + 1 < ops.len() && ops[k + 1] is Delete {
                let m = ops[k + 1]->Delete_0;
                seq![replacement(old, new, old_pos, new_pos, m as int, s@, enc)] + change_events(
                    old,
                    new,
                    ops,
                    k + 2,
                    old_pos + m,
                    new_pos + s@.len(),
                    enc,
                )
            } else {
                seq![replacement(old, new, old_pos, new_pos, 0, s@, enc)] + change_events(
                    old,
                    new,
                    ops,
                    k + 1,
                    old_pos,
                    new_pos + s@.len(),
                    enc,
                )
            },
        }
    }
}

/// The event that replaces `n` characters at `new_pos` of the document in
/// between by `text`.
fn replace_event(
    old: &[char],
    new: &[char],
    old_pos: usize,
    new_pos: usize,
    n: usize,
    text: String,
    enc: OffsetEncoding,
) -> (ev: TextDocumentContentChangeEvent)
    requires
        old_pos + n <= old@.len(),
        new_pos <= new@.len(),
        old@.len() + new@.len() <= MAX_DOC_CHARS,
    ensures
        ev.text == text,
        ev.range is Some,
        ev.range->0.start@ == lsp_coord(
            mid_doc(old@, new@, old_pos as int, new_pos as int),
            new_pos as nat,
            enc,
        ),
        ev.range->0.end@ == lsp_coord(
            mid_doc(old@, new@, old_pos as int, new_pos as int),
            (new_pos + n) as nat,
            enc,
        ),
{
    let m = metric(enc);
    let ahead = if old_pos < old.len() {
        Some(old[old_pos])
    } else {
        None
    };
    let start = walk((0, 0), new, 0, new_pos, ahead, m);
    let after_end = if old_pos + n < old.len() {
        Some(old[old_pos + n])
    } else {
        None
    };
    let end = walk(start, old, old_pos, old_pos + n, after_end, m);
    proof {
        let d = mid_doc(old@, new@, old_pos as int, new_pos as int);
        let a = new@.subrange(0, new_pos as int);
        let b = old@.subrange(old_pos as int, (old_pos + n) as int);
        assert(d.take(new_pos as int) =~= a);
        assert(char_after(d, new_pos as int) == ahead);
        assert(d.take((new_pos + n) as int) =~= a + b);
        assert(char_after(d, (new_pos + n) as int) == after_end);
        lemma_advance_concat((0nat, 0nat), a, b, after_end, m);
        if n > 0 {
            assert(b[0] == old@[old_pos as int]);
        }
    }
    let range = lsp::Range::new(
        lsp::Position::new(start.0 as u32, start.1 as u32),
        lsp::Position::new(end.0 as u32, end.1 as u32),
    );
    TextDocumentContentChangeEvent { range: Some(range), text }
}

type EventView = (Option<((nat, nat), (nat, nat))>, Seq<char>);

proof fn lemma_views_step(
    done: Seq<EventView>,
    x: EventView,
    here: Seq<EventView>,
    rest: Seq<EventView>,
    total: Seq<EventView>,
)
    requires
        done + here == total,
        here == seq![x] + rest,
    ensures
        done.push(x) + rest == total,
{
    assert(done.push(x) + rest =~= done + here);
}

proof fn lemma_change_events_retain(
    old: Seq<char>,
    new: Seq<char>,
    ops: Seq<Operation>,
    k: int,
    old_pos: int,
    new_pos: int,
    enc: OffsetEncoding,
)
    requires
        0 <= k < ops.len(),
        ops[k] is Retain,
    ensures
        change_events(old, new, ops, k, old_pos, new_pos, enc) ==
            change_events(old, new, ops, k + 1, old_pos + ops[k]->Retain_0, new_pos + ops[k]->Retain_0, enc),
{
    reveal(change_events);
}

proof fn lemma_change_events_delete_insert(
    old: Seq<char>,
    new: Seq<char>,
    ops: Seq<Operation>,
    k: int,
    old_pos: int,
    new_pos: int,
    enc: OffsetEncoding,
)
    requires
        0 <= k,
        k + 1 < ops.len(),
        ops[k] is Delete,
        ops[k + 1] is Insert,
    ensures
        change_events(old, new, ops, k, old_pos, new_pos, enc) ==
            seq![replacement(old, new, old_pos, new_pos, ops[k]->Delete_0 as int, ops[k + 1]->Insert_0@, enc)]
            + change_events(old, new, ops, k + 2, old_pos + ops[k]->Delete_0, new_pos + ops[k + 1]->Insert_0@.len(), enc),
{
    reveal(change_events);
}

proof fn lemma_change_events_delete(
    old: Seq<char>,
    new: Seq<char>,
    ops: Seq<Operation>,
    k: int,
    old_pos: int,
    new_pos: int,
    enc: OffsetEncoding,
)
    requires
        0 <= k < ops.len(),
        ops[k] is Delete,
        !(k + 1 < ops.len() && ops[k + 1] is Insert),
    ensures
        change_events(old, new, ops, k, old_pos, new_pos, enc) ==
            seq![replacement(old, new, old_pos, new_pos, ops[k]->Delete_0 as int, Seq::empty(), enc)]
            + change_events(old, new, ops, k + 1, old_pos + ops[k]->Delete_0, new_pos, enc),
{
    reveal(change_events);
}

proof fn lemma_change_events_insert_delete(
    old: Seq<char>,
    new: Seq<char>,
    ops: Seq<Operation>,
    k: int,
    old_pos: int,
    new_pos: int,
    enc: OffsetEncoding,
)
    requires
        0 <= k,
        k + 1 < ops.len(),
        ops[k] is Insert,
        ops[k + 1] is Delete,
    ensures
        change_events(old, new, ops, k, old_pos, new_pos, enc) ==
            seq![replacement(old, new, old_pos, new_pos, ops[k + 1]->Delete_0 as int, ops[k]->Insert_0@, enc)]
            + change_events(old, new, ops, k + 2, old_pos + ops[k + 1]->Delete_0, new_pos + ops[k]->Insert_0@.len(), enc),
{
    reveal(change_events);
}

proof fn lemma_change_events_insert(
    old: Seq<char>,
    new: Seq<char>,
    ops: Seq<Operation>,
    k: int,
    old_pos: int,
    new_pos: int,
    enc: OffsetEncoding,
)
    requires
        0 <= k < ops.len(),
        ops[k] is Insert,
        !(k + 1 < ops.len() && ops[k + 1] is Delete),
    ensures
        change_events(old, new, ops, k, old_pos, new_pos, enc) ==
            seq![replacement(old, new, old_pos, new_pos, 0, ops[k]->Insert_0@, enc)]
            + change_events(old, new, ops, k + 1, old_pos, new_pos + ops[k]->Insert_0@.len(), enc),
{
    reveal(change_events);
}

proof fn lemma_change_events_end(
    old: Seq<char>,
    new: Seq<char>,
    ops: Seq<Operation>,
    k: int,
    old_pos: int,
    new_pos: int,
    enc: OffsetEncoding,
)
    requires
        k >= ops.len(),
    ensures
        change_events(old, new, ops, k, old_pos, new_pos, enc) == Seq::<EventView>::empty(),
{
    reveal(change_events);
}

/// Effect of emitting a replacement on the document in between: the `n`
/// characters at `new_pos` give way to `s`, which the new text holds there.
proof fn lemma_replace_step(
    old: Seq<char>,
    new: Seq<char>,
    old_pos: int,
    new_pos: int,
    n: int,
    s: Seq<char>,
    rest: Seq<char>,
    evs: Seq<TextDocumentContentChangeEvent>,
    ev: TextDocumentContentChangeEvent,
    enc: OffsetEncoding,
)
    requires
        0 <= old_pos,
        0 <= n,
        old_pos + n <= old.len(),
        0 <= new_pos <= new.len(),
        new.skip(new_pos) == s + rest,
        apply_changes(old, evs, enc) == Some(mid_doc(old, new, old_pos, new_pos)),
        ev.text@ == s,
        ev.range is Some,
        ev.range->0.start@ == lsp_coord(mid_doc(old, new, old_pos, new_pos), new_pos as nat, enc),
        ev.range->0.end@ == lsp_coord(
            mid_doc(old, new, old_pos, new_pos),
            (new_pos + n) as nat,
            enc,
        ),
    ensures
        new_pos + s.len() <= new.len(),
        new.skip(new_pos + s.len()) == rest,
        apply_changes(old, evs.push(ev), enc) == Some(
            mid_doc(old, new, old_pos + n, new_pos + s.len()),
        ),
{
    let d = mid_doc(old, new, old_pos, new_pos);
    lemma_offset_round_trip(d, new_pos as nat, enc);
    lemma_offset_round_trip(d, (new_pos + n) as nat, enc);
    assert(evs.push(ev).drop_last() =~= evs);
    assert(new.skip(new_pos).len() == new.len() - new_pos);
    assert((s + rest).len() == s.len() + rest.len());
    assert(new_pos + s.len() <= new.len());
    assert(new.skip(new_pos + s.len()) =~= rest) by {
        assert forall|i: int| 0 <= i < rest.len() implies #[trigger] new.skip(new_pos + s.len())[i]
            == rest[i] by {
            assert(new.skip(new_pos)[s.len() + i] == new[new_pos + s.len() + i]);
            assert((s + rest)[s.len() + i] == rest[i]);
        }
    }
    assert(new.take(new_pos + s.len()) =~= new.take(new_pos) + s) by {
        assert forall|j: int| new_pos <= j < new_pos + s.len() implies #[trigger] new.take(
            new_pos + s.len(),
        )[j] == s[j - new_pos] by {
            assert(new.skip(new_pos)[j - new_pos] == new[j]);
            assert((s + rest)[j - new_pos] == s[j - new_pos]);
        }
    }
    assert(d.take(new_pos) + s + d.skip(new_pos + n) =~= mid_doc(old, new, old_pos + n, new_pos + s.len()));
}

/// How a server wants document changes sent.
#[derive(Clone, Copy, Debug, PartialEq, Eq, Structural)]
pub enum TextDocumentSyncKind {
    /// Changes are not sent.
    Disabled,
    /// Each change sends the whole new text.
    Full,
    /// Each change sends the edits, one event per edit.
    Incremental,
}

/// Whether and how a server wants save notifications.
#[derive(Clone, Copy, Debug, PartialEq, Eq, Structural)]
pub enum TextDocumentSyncSaveOptions {
    Supported(bool),
    SaveOptions { include_text: Option<bool> },
}

#[derive(Clone, Copy, Debug, PartialEq, Eq, Structural)]
pub struct TextDocumentSyncOptions {
    pub change: Option<TextDocumentSyncKind>,
    pub save: Option<TextDocumentSyncSaveOptions>,
}

#[derive(Clone, Copy, Debug, PartialEq, Eq, Structural)]
pub enum TextDocumentSyncCapability {
    Kind(TextDocumentSyncKind),
    Options(TextDocumentSyncOptions),
}

/// A server's declaration of an optional request: a flag, or options, which
/// declare support.
#[derive(Clone, Copy, Debug, PartialEq, Eq, Structural)]
pub enum ProviderCapability {
    Flag(bool),
    Options,
}

/// The part of a server's declared capabilities that decides what the
/// connection sends.
#[derive(Clone, Copy, Debug, PartialEq, Eq, Structural)]
pub struct ServerCapabilities {
    pub text_document_sync: Option<TextDocumentSyncCapability>,
    pub document_formatting_provider: Option<ProviderCapability>,
    pub document_range_formatting_provider: Option<ProviderCapability>,
}

/// The sync kind a server declared, if any.
pub open spec fn sync_kind(caps: ServerCapabilities) -> Option<TextDocumentSyncKind> {
    match caps.text_document_sync {
        Some(TextDocumentSyncCapability::Kind(kind)) => Some(kind),
        Some(TextDocumentSyncCapability::Options(o)) => o.change,
        None => None,
    }
}

/// Whether a server wants save notifications, and then whether with the text.
pub open spec fn save_policy(caps: ServerCapabilities) -> Option<bool> {
    match caps.text_document_sync {
        Some(TextDocumentSyncCapability::Options(o)) => match o.save {
            Some(TextDocumentSyncSaveOptions::Supported(true)) => Some(false),
            Some(TextDocumentSyncSaveOptions::SaveOptions { include_text }) => Some(
                include_text == Some(true),
            ),
            _ => None,
        },
        _ => None,
    }
}

/// Whether a declaration announces support.
pub open spec fn provides(p: Option<ProviderCapability>) -> bool {
    p == Some(ProviderCapability::Flag(true)) || p == Some(ProviderCapability::Options)
}

fn provider_declared(p: Option<ProviderCapability>) -> (r: bool)
    ensures
        r == provides(p),
{
    match p {
        Some(ProviderCapability::Flag(b)) => b,
        Some(ProviderCapability::Options) => true,
        None => false,
    }
}

/// Relies on `FromIterator<char> for String` of std: the string holds the characters in order.
#[verifier::external_body]
fn chars_to_string(chars: &[char]) -> (r: String)
    ensures
        r@ == chars@,
{
    chars.iter().collect()
}

/// Where a connection is in its life. Only a `Ready` connection serves
/// document and feature calls.
#[derive(Clone, Copy, Debug, PartialEq, Eq, Structural)]
pub enum Phase {
    /// The process runs; the handshake has not begun.
    Spawned,
    /// The handshake was sent; no answer yet.
    Initializing,
    /// The handshake completed; the capabilities are known.
    Ready,
    /// Shutdown was requested.
    ShuttingDown,
    /// Exit was sent.
    Exited,
}

/// `e` is how a connection in phase `p` refuses a call: not initialized
/// before the handshake completes, closed once it shuts down.
pub open spec fn refusal(p: Phase, e: Error) -> bool {
    match p {
        Phase::ShuttingDown | Phase::Exited => e is StreamClosed,
        _ => e is NotInitialized,
    }
}

/// The state of a connection to one language server: its id, the counter of
/// request ids, its phase, the capabilities, set once the handshake
/// completes, and the offset encoding.
pub struct Client {
    id: usize,
    request_counter: u64,
    phase: Phase,
    capabilities: Option<ServerCapabilities>,
    offset_encoding: OffsetEncoding,
}

impl Client {
    pub closed spec fn id_spec(&self) -> usize {
        self.id
    }

    pub closed spec fn counter_spec(&self) -> u64 {
        self.request_counter
    }

    pub closed spec fn capabilities_spec(&self) -> Option<ServerCapabilities> {
        self.capabilities
    }

    pub closed spec fn encoding_spec(&self) -> OffsetEncoding {
        self.offset_encoding
    }

    pub closed spec fn phase_spec(&self) -> Phase {
        self.phase
    }

    /// The capabilities, while the connection serves calls.
    pub open spec fn ready_caps(&self) -> Option<ServerCapabilities> {
        if self.phase_spec() == Phase::Ready {
            self.capabilities_spec()
        } else {
            None
        }
    }

    /// A connection with id `id` before its handshake: no request issued, no
    /// capabilities, columns in UTF-8.
    pub fn new(id: usize) -> (r: Client)
        ensures
            r.id_spec() == id,
            r.counter_spec() == 0,
            r.capabilities_spec() is None,
            r.phase_spec() == Phase::Spawned,
            r.encoding_spec() == OffsetEncoding::Utf8,
    {
        Client {
            id,
            request_counter: 0,
            phase: Phase::Spawned,
            capabilities: None,
            offset_encoding: OffsetEncoding::Utf8,
        }
    }

    pub fn phase(&self) -> (r: Phase)
        ensures
            r == self.phase_spec(),
    {
        self.phase
    }

    /// Notes that the handshake was sent; only a spawned connection begins it.
    pub fn begin_initialize(&mut self) -> (r: bool)
        ensures
            r == (old(self).phase_spec() == Phase::Spawned),
            final(self).phase_spec() == (if r {
                Phase::Initializing
            } else {
                old(self).phase_spec()
            }),
            final(self).id_spec() == old(self).id_spec(),
            final(self).counter_spec() == old(self).counter_spec(),
            final(self).capabilities_spec() == old(self).capabilities_spec(),
            final(self).encoding_spec() == old(self).encoding_spec(),
    {
        if self.phase == Phase::Spawned {
            self.phase = Phase::Initializing;
            true
        } else {
            false
        }
    }

    /// Notes that shutdown was requested; an exited connection stays exited.
    pub fn begin_shutdown(&mut self)
        ensures
            final(self).phase_spec() == (if old(self).phase_spec() == Phase::Exited {
                Phase::Exited
            } else {
                Phase::ShuttingDown
            }),
            final(self).id_spec() == old(self).id_spec(),
            final(self).counter_spec() == old(self).counter_spec(),
            final(self).capabilities_spec() == old(self).capabilities_spec(),
            final(self).encoding_spec() == old(self).encoding_spec(),
    {
        if self.phase != Phase::Exited {
            self.phase = Phase::ShuttingDown;
        }
    }

    /// Notes that exit was sent.
    pub fn mark_exited(&mut self)
        ensures
            final(self).phase_spec() == Phase::Exited,
            final(self).id_spec() == old(self).id_spec(),
            final(self).counter_spec() == old(self).counter_spec(),
            final(self).capabilities_spec() == old(self).capabilities_spec(),
            final(self).encoding_spec() == old(self).encoding_spec(),
    {
        self.phase = Phase::Exited;
    }

    pub fn id(&self) -> (r: usize)
        ensures
            r == self.id_spec(),
    {
        self.id
    }

    pub fn offset_encoding(&self) -> (r: OffsetEncoding)
        ensures
            r == self.encoding_spec(),
    {
        self.offset_encoding
    }

    /// How many request ids were handed out so far.
    pub fn requests_issued(&self) -> (r: u64)
        ensures
            r == self.counter_spec(),
    {
        self.request_counter
    }

    /// Hands out the next request id: ids count up from zero, so no two
    /// requests of one connection share an id.
    pub fn next_request_id(&mut self) -> (r: u64)
        requires
            old(self).counter_spec() < u64::MAX,
        ensures
            r == old(self).counter_spec(),
            final(self).counter_spec() == old(self).counter_spec() + 1,
            final(self).phase_spec() == old(self).phase_spec(),
            final(self).id_spec() == old(self).id_spec(),
            final(self).capabilities_spec() == old(self).capabilities_spec(),
            final(self).encoding_spec() == old(self).encoding_spec(),
    {
        let id = self.request_counter;
        self.request_counter = self.request_counter + 1;
        id
    }

    /// Whether the handshake has completed.
    pub fn is_initialized(&self) -> (r: bool)
        ensures
            r == (self.capabilities_spec() is Some),
    {
        self.capabilities.is_some()
    }

    /// Records the capabilities the handshake returned, which makes a
    /// spawned or initializing connection ready. They are set once: a second
    /// call hands its capabilities back and changes nothing.
    pub fn set_capabilities(&mut self, capabilities: ServerCapabilities) -> (r: core::result::Result<
        (),
        ServerCapabilities,
    >)
        ensures
            old(self).capabilities_spec() is None ==> r is Ok && final(self).capabilities_spec()
                == Some(capabilities) && final(self).phase_spec() == (match old(self).phase_spec() {
                Phase::Spawned | Phase::Initializing => Phase::Ready,
                p => p,
            }),
            old(self).capabilities_spec() is Some ==> r == Err::<(), ServerCapabilities>(capabilities)
                && final(self).capabilities_spec() == old(self).capabilities_spec()
                && final(self).phase_spec() == old(self).phase_spec(),
            final(self).id_spec() == old(self).id_spec(),
            final(self).counter_spec() == old(self).counter_spec(),
            final(self).encoding_spec() == old(self).encoding_spec(),
    {
        if self.capabilities.is_some() {
            Err(capabilities)
        } else {
            self.capabilities = Some(capabilities);
            if self.phase == Phase::Spawned || self.phase == Phase::Initializing {
                self.phase = Phase::Ready;
            }
            Ok(())
        }
    }

    /// The capabilities of a ready connection; otherwise the refusal of its phase.
    pub fn capabilities(&self) -> (r: Result<&ServerCapabilities>)
        ensures
            match r {
                Ok(c) => self.ready_caps() == Some(*c),
                Err(e) => self.ready_caps() is None && refusal(self.phase_spec(), e),
            },
    {
        match self.phase {
            Phase::Ready => match &self.capabilities {
                Some(c) => Ok(c),
                None => Err(Error::NotInitialized),
            },
            Phase::ShuttingDown | Phase::Exited => Err(Error::StreamClosed),
            _ => Err(Error::NotInitialized),
        }
    }

    /// Turns a change of `old_text` into `new_text`, described by operations
    /// over `old_text`, into the protocol's change events. Each event is
    /// expressed against the document as the events before it left it, so
    /// applying them in order to the old text gives the new text.
    pub fn changeset_to_changes(
        old_text: &[char],
        new_text: &[char],
        changeset: &[Operation],
        offset_encoding: OffsetEncoding,
    ) -> (r: Vec<TextDocumentContentChangeEvent>)
        requires
            consumed(changeset@) == old_text@.len(),
            apply_ops(old_text@, changeset@) == new_text@,
            old_text@.len() + new_text@.len() <= MAX_DOC_CHARS,
        ensures
            r@.map_values(|e: TextDocumentContentChangeEvent| event_view(e)) == change_events(
                old_text@,
                new_text@,
                changeset@,
                0,
                0,
                0,
                offset_encoding,
            ),
            apply_changes(old_text@, r@, offset_encoding) == Some(new_text@),
    {
        let ghost old = old_text@;
        let ghost new = new_text@;
        let ghost ops = changeset@;
        let ghost total = change_events(old, new, ops, 0, 0, 0, offset_encoding);
        let mut changes: Vec<TextDocumentContentChangeEvent> = Vec::new();
        let mut k: usize = 0;
        let mut old_pos: usize = 0;
        let mut new_pos: usize = 0;
        proof {
            assert(ops.skip(0) =~= ops);
            assert(old.skip(0) =~= old);
            assert(new.skip(0) =~= new);
            assert(mid_doc(old, new, 0, 0) =~= old);
            assert(changes@.map_values(|e: TextDocumentContentChangeEvent| event_view(e)) + total
                =~= total);
        }
        while k < changeset.len()
            invariant
                old == old_text@,
                new == new_text@,
                ops == changeset@,
                total == change_events(old, new, ops, 0, 0, 0, offset_encoding),
                k <= ops.len(),
                old_pos <= old.len(),
                new_pos <= new.len(),
                old.len() + new.len() <= MAX_DOC_CHARS,
                consumed(ops.skip(k as int)) == old.len() - old_pos,
                new.skip(new_pos as int) == apply_ops(old.skip(old_pos as int), ops.skip(k as int)),
                apply_changes(old, changes@, offset_encoding) == Some(
                    mid_doc(old, new, old_pos as int, new_pos as int),
                ),
                changes@.map_values(|e: TextDocumentContentChangeEvent| event_view(e)) + change_events(
                    old,
                    new,
                    ops,
                    k as int,
                    old_pos as int,
                    new_pos as int,
                    offset_encoding,
                ) == total,
            decreases ops.len() - k,
        {
            let ghost rest_old = old.skip(old_pos as int);
            let ghost tail = ops.skip(k as int);
            let ghost done = changes@.map_values(|e: TextDocumentContentChangeEvent| event_view(e));
            proof {
                assert(tail.drop_first() =~= ops.skip(k + 1));
                assert(tail[0] == ops[k as int]);
            }
            match &changeset[k] {
                Operation::Retain(n) => {
                    let n = *n;
                    let ghost after = apply_ops(rest_old.skip(n as int), ops.skip(k + 1));
                    proof {
                        lemma_change_events_retain(
                            old,
                            new,
                            ops,
                            k as int,
                            old_pos as int,
                            new_pos as int,
                            offset_encoding,
                        );
                        assert(old.skip(old_pos as int).skip(n as int) =~= old.skip(old_pos + n));
                        assert(new.skip(new_pos as int) == rest_old.take(n as int) + after);
                        assert(new.skip(new_pos as int).len() == new.len() - new_pos);
                        assert(new.skip(new_pos + n) =~= after) by {
                            assert forall|i: int| 0 <= i < after.len() implies new.skip(new_pos + n)[i]
                                == after[i] by {
                                assert(new.skip(new_pos as int)[n + i] == (rest_old.take(n as int)
                                    + after)[n + i]);
                            }
                        }
                        let kept = old.subrange(old_pos as int, old_pos + n);
                        assert(new.take(new_pos + n) =~= new.take(new_pos as int) + kept) by {
                            assert forall|j: int| new_pos <= j < new_pos + n implies #[trigger] new.take(
                                new_pos + n,
                            )[j] == kept[j - new_pos] by {
                                assert(new.skip(new_pos as int)[j - new_pos] == (rest_old.take(
                                    n as int,
                                ) + after)[j - new_pos]);
                            }
                        }
                        assert(old.skip(old_pos as int) =~= kept + old.skip(old_pos + n));
                        assert(mid_doc(old, new, old_pos + n, new_pos + n) =~= mid_doc(
                            old,
                            new,
                            old_pos as int,
                            new_pos as int,
                        ));
                    }
                    old_pos = old_pos + n;
                    new_pos = new_pos + n;
                    k = k + 1;
                },
                Operation::Delete(n) => {
                    let n = *n;
                    let joined: Option<&String> = if k + 1 < changeset.len() {
                        match &changeset[k + 1] {
                            Operation::Insert(s) => Some(s),
                            _ => None,
                        }
                    } else {
                        None
                    };
                    proof {
                        assert(old.skip(old_pos as int).skip(n as int) =~= old.skip(old_pos + n));
                    }
                    match joined {
                        Some(s) => {
                            let ghost tail2 = ops.skip(k + 1);
                            proof {
                                assert(tail2.drop_first() =~= ops.skip(k + 2));
                                assert(tail2[0] == ops[k + 1]);
                                assert(ops[k + 1] == Operation::Insert(*s));
                                assert(new.skip(new_pos as int) == apply_ops(
                                    old.skip(old_pos + n),
                                    tail2,
                                ));
                                assert(apply_ops(old.skip(old_pos + n), tail2) == s@ + apply_ops(
                                    old.skip(old_pos + n),
                                    ops.skip(k + 2),
                                ));
                                assert(consumed(tail2) == consumed(ops.skip(k + 2)));
                            }
                            let len = s.as_str().unicode_len();
                            let ev = replace_event(
                                old_text,
                                new_text,
                                old_pos,
                                new_pos,
                                n,
                                s.clone(),
                                offset_encoding,
                            );
                            proof {
                                lemma_replace_step(
                                    old,
                                    new,
                                    old_pos as int,
                                    new_pos as int,
                                    n as int,
                                    s@,
                                    apply_ops(old.skip(old_pos + n), ops.skip(k + 2)),
                                    changes@,
                                    ev,
                                    offset_encoding,
                                );
                                lemma_change_events_delete_insert(
                                    old,
                                    new,
                                    ops,
                                    k as int,
                                    old_pos as int,
                                    new_pos as int,
                                    offset_encoding,
                                );
                                lemma_views_step(
                                    done,
                                    event_view(ev),
                                    change_events(
                                        old,
                                        new,
                                        ops,
                                        k as int,
                                        old_pos as int,
                                        new_pos as int,
                                        offset_encoding,
                                    ),
                                    change_events(
                                        old,
                                        new,
                                        ops,
                                        k + 2,
                                        old_pos + n,
                                        new_pos + len,
                                        offset_encoding,
                                    ),
                                    total,
                                );
                            }
                            changes.push(ev);
                            proof {
                                assert(changes@.map_values(
                                    |e: TextDocumentContentChangeEvent| event_view(e),
                                ) =~= done.push(event_view(ev)));
                            }
                            old_pos = old_pos + n;
                            new_pos = new_pos + len;
                            k = k + 2;
                        },
                        None => {
                            let ev = replace_event(
                                old_text,
                                new_text,
                                old_pos,
                                new_pos,
                                n,
                                String::new(),
                                offset_encoding,
                            );
                            proof {
                                assert(Seq::<char>::empty() + new.skip(new_pos as int) =~= new.skip(
                                    new_pos as int,
                                ));
                                lemma_replace_step(
                                    old,
                                    new,
                                    old_pos as int,
                                    new_pos as int,
                                    n as int,
                                    Seq::<char>::empty(),
                                    new.skip(new_pos as int),
                                    changes@,
                                    ev,
                                    offset_encoding,
                                );
                                lemma_change_events_delete(
                                    old,
                                    new,
                                    ops,
                                    k as int,
                                    old_pos as int,
                                    new_pos as int,
                                    offset_encoding,
                                );
                                lemma_views_step(
                                    done,
                                    event_view(ev),
                                    change_events(
                                        old,
                                        new,
                                        ops,
                                        k as int,
                                        old_pos as int,
                                        new_pos as int,
                                        offset_encoding,
                                    ),
                                    change_events(
                                        old,
                                        new,
                                        ops,
                                        k + 1,
                                        old_pos + n,
                                        new_pos as int,
                                        offset_encoding,
                                    ),
                                    total,
                                );
                            }
                            changes.push(ev);
                            proof {
                                assert(changes@.map_values(
                                    |e: TextDocumentContentChangeEvent| event_view(e),
                                ) =~= done.push(event_view(ev)));
                            }
                            old_pos = old_pos + n;
                            k = k + 1;
                        },
                    }
                },
                Operation::Insert(s) => {
                    let joined: Option<usize> = if k + 1 < changeset.len() {
                        match &changeset[k + 1] {
                            Operation::Delete(d) => Some(*d),
                            _ => None,
                        }
                    } else {
                        None
                    };
                    let len = s.as_str().unicode_len();
                    match joined {
                        Some(d) => {
                            let ghost tail2 = ops.skip(k + 1);
                            proof {
                                assert(tail2.drop_first() =~= ops.skip(k + 2));
                                assert(tail2[0] == ops[k + 1]);
                                assert(ops[k + 1] == Operation::Delete(d));
                                assert(consumed(tail) == consumed(tail2));
                                assert(consumed(tail2) == d + consumed(ops.skip(k + 2)));
                                assert(old.skip(old_pos as int).skip(d as int) =~= old.skip(
                                    old_pos + d,
                                ));
                                assert(new.skip(new_pos as int) == s@ + apply_ops(
                                    rest_old,
                                    tail2,
                                ));
                                assert(apply_ops(rest_old, tail2) == apply_ops(
                                    old.skip(old_pos + d),
                                    ops.skip(k + 2),
                                ));
                            }
                            let ev = replace_event(
                                old_text,
                                new_text,
                                old_pos,
                                new_pos,
                                d,
                                s.clone(),
                                offset_encoding,
                            );
                            proof {
                                lemma_replace_step(
                                    old,
                                    new,
                                    old_pos as int,
                                    new_pos as int,
                                    d as int,
                                    s@,
                                    apply_ops(old.skip(old_pos + d), ops.skip(k + 2)),
                                    changes@,
                                    ev,
                                    offset_encoding,
                                );
                                lemma_change_events_insert_delete(
                                    old,
                                    new,
                                    ops,
                                    k as int,
                                    old_pos as int,
                                    new_pos as int,
                                    offset_encoding,
                                );
                                lemma_views_step(
                                    done,
                                    event_view(ev),
                                    change_events(
                                        old,
                                        new,
                                        ops,
                                        k as int,
                                        old_pos as int,
                                        new_pos as int,
                                        offset_encoding,
                                    ),
                                    change_events(
                                        old,
                                        new,
                                        ops,
                                        k + 2,
                                        old_pos + d,
                                        new_pos + len,
                                        offset_encoding,
                                    ),
                                    total,
                                );
                            }
                            changes.push(ev);
                            proof {
                                assert(changes@.map_values(
                                    |e: TextDocumentContentChangeEvent| event_view(e),
                                ) =~= done.push(event_view(ev)));
                            }
                            old_pos = old_pos + d;
                            new_pos = new_pos + len;
                            k = k + 2;
                        },
                        None => {
                            let ev = replace_event(
                                old_text,
                                new_text,
                                old_pos,
                                new_pos,
                                0,
                                s.clone(),
                                offset_encoding,
                            );
                            proof {
                                assert(old.skip(old_pos as int) =~= old.skip(old_pos + 0));
                                lemma_replace_step(
                                    old,
                                    new,
                                    old_pos as int,
                                    new_pos as int,
                                    0,
                                    s@,
                                    apply_ops(rest_old, ops.skip(k + 1)),
                                    changes@,
                                    ev,
                                    offset_encoding,
                                );
                                lemma_change_events_insert(
                                    old,
                                    new,
                                    ops,
                                    k as int,
                                    old_pos as int,
                                    new_pos as int,
                                    offset_encoding,
                                );
                                lemma_views_step(
                                    done,
                                    event_view(ev),
                                    change_events(
                                        old,
                                        new,
                                        ops,
                                        k as int,
                                        old_pos as int,
                                        new_pos as int,
                                        offset_encoding,
                                    ),
                                    change_events(
                                        old,
                                        new,
                                        ops,
                                        k + 1,
                                        old_pos as int,
                                        new_pos + len,
                                        offset_encoding,
                                    ),
                                    total,
                                );
                            }
                            changes.push(ev);
                            proof {
                                assert(changes@.map_values(
                                    |e: TextDocumentContentChangeEvent| event_view(e),
                                ) =~= done.push(event_view(ev)));
                            }
                            new_pos = new_pos + len;
                            k = k + 1;
                        },
                    }
                },
            }
        }
        proof {
            assert(ops.skip(k as int).len() == 0);
            assert(old.skip(old_pos as int).len() == 0);
            assert(new.skip(new_pos as int).len() == 0);
            assert(mid_doc(old, new, old_pos as int, new_pos as int) =~= new);
            lemma_change_events_end(
                old,
                new,
                ops,
                k as int,
                old_pos as int,
                new_pos as int,
                offset_encoding,
            );
            assert(changes@.map_values(|e: TextDocumentContentChangeEvent| event_view(e)) + Seq::empty()
                =~= changes@.map_values(|e: TextDocumentContentChangeEvent| event_view(e)));
        }
        changes
    }

    /// The change events to send for an edit of a document, as the server's
    /// declared sync kind decides: nothing when it declared none or `None`,
    /// the whole new text for `Full`, one event per edit for `Incremental`.
    pub fn text_document_did_change(
        &self,
        old_text: &[char],
        new_text: &[char],
        changes: &[Operation],
    ) -> (r: Result<Option<Vec<TextDocumentContentChangeEvent>>>)
        requires
            consumed(changes@) == old_text@.len(),
            apply_ops(old_text@, changes@) == new_text@,
            old_text@.len() + new_text@.len() <= MAX_DOC_CHARS,
        ensures
            self.ready_caps() is None ==> r is Err && refusal(self.phase_spec(), r->Err_0),
            self.ready_caps() is Some ==> r is Ok && match sync_kind(
                self.ready_caps()->0,
            ) {
                Some(TextDocumentSyncKind::Full) => r->Ok_0 is Some && r->Ok_0->0@.len() == 1
                    && r->Ok_0->0@[0].range is None && r->Ok_0->0@[0].text@ == new_text@,
                Some(TextDocumentSyncKind::Incremental) => r->Ok_0 is Some && apply_changes(
                    old_text@,
                    r->Ok_0->0@,
                    self.encoding_spec(),
                ) == Some(new_text@),
                _ => r->Ok_0 is None,
            },
    {
        let capabilities = self.capabilities()?;
        let kind = match capabilities.text_document_sync {
            Some(TextDocumentSyncCapability::Kind(kind)) => kind,
            Some(TextDocumentSyncCapability::Options(o)) => match o.change {
                Some(kind) => kind,
                None => return Ok(None),
            },
            None => return Ok(None),
        };
        match kind {
            TextDocumentSyncKind::Full => {
                let mut events: Vec<TextDocumentContentChangeEvent> = Vec::new();
                events.push(
                    TextDocumentContentChangeEvent { range: None, text: chars_to_string(new_text) },
                );
                Ok(Some(events))
            },
            TextDocumentSyncKind::Incremental => Ok(
                Some(Self::changeset_to_changes(old_text, new_text, changes, self.offset_encoding)),
            ),
            TextDocumentSyncKind::Disabled => Ok(None),
        }
    }

    /// The text to attach to a save notification: `None` when the server
    /// wants no save notifications, `Some(None)` when it wants them without
    /// the text, `Some(Some(text))` when with it.
    pub fn text_document_did_save(&self, text: &[char]) -> (r: Result<Option<Option<String>>>)
        ensures
            self.ready_caps() is None ==> r is Err && refusal(self.phase_spec(), r->Err_0),
            self.ready_caps() is Some ==> r is Ok && match save_policy(
                self.ready_caps()->0,
            ) {
                None => r->Ok_0 is None,
                Some(false) => r->Ok_0 == Some(None::<String>),
                Some(true) => r->Ok_0 is Some && r->Ok_0->0 is Some && r->Ok_0->0->0@ == text@,
            },
    {
        let capabilities = self.capabilities()?;
        let include_text = match capabilities.text_document_sync {
            Some(TextDocumentSyncCapability::Options(o)) => match o.save {
                Some(TextDocumentSyncSaveOptions::Supported(true)) => false,
                Some(TextDocumentSyncSaveOptions::SaveOptions { include_text }) => match include_text {
                    Some(b) => b,
                    None => false,
                },
                _ => return Ok(None),
            },
            _ => return Ok(None),
        };
        if include_text {
            Ok(Some(Some(chars_to_string(text))))
        } else {
            Ok(Some(None))
        }
    }

    /// Whether a formatting request may be sent: only when the server declared
    /// document formatting. Without it, formatting yields no edits, not an error.
    pub fn supports_formatting(&self) -> (r: Result<bool>)
        ensures
            self.ready_caps() is None ==> r is Err && refusal(self.phase_spec(), r->Err_0),
            self.ready_caps() is Some ==> r == Ok::<bool, Error>(
                provides(self.ready_caps()->0.document_formatting_provider),
            ),
    {
        let capabilities = self.capabilities()?;
        Ok(provider_declared(capabilities.document_formatting_provider))
    }

    /// Whether a range formatting request may be sent: only when the server
    /// declared range formatting.
    pub fn supports_range_formatting(&self) -> (r: Result<bool>)
        ensures
            self.ready_caps() is None ==> r is Err && refusal(self.phase_spec(), r->Err_0),
            self.ready_caps() is Some ==> r == Ok::<bool, Error>(
                provides(self.ready_caps()->0.document_range_formatting_provider),
            ),
    {
        let capabilities = self.capabilities()?;
        Ok(provider_declared(capabilities.document_range_formatting_provider))
    }
}

/// The edits of a formatting response; a null response means no edits.
pub fn formatting_edits(response: Option<Vec<lsp::TextEdit>>) -> (r: Vec<lsp::TextEdit>)
    ensures
        match response {
            Some(v) => r == v,
            None => r@.len() == 0,
        },
{
    match response {
        Some(v) => v,
        None => Vec::new(),
    }
}

} // verus!
