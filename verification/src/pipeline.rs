//! Resequencing pipeline.
//!
//! The receive loop assigns every kept frame a sequence number (0, 1, 2,
//! ... — never reused, never skipped). Workers parse frames in any order;
//! the resequencer buffers completions and releases them in exactly the
//! assigned order. A failed parse still accounts for its slot: it is
//! completed with no payload so the stream can advance past it instead of
//! stalling forever.

use vstd::prelude::*;

use crate::book::{book_from_wire, Orderbook};
use crate::classify::{
    is_book_message, spec_is_book_message, spec_strip_array_wrapper, strip_array_wrapper,
};
use crate::wire::spec_parse_book;

verus! {

/// Connection lifecycle; `Closed` is terminal.
#[derive(Clone, Copy, Debug, PartialEq, Eq, Structural)]
pub enum ConnState {
    /// Transport established, subscription not yet sent.
    Connecting,
    /// Subscription sent, nothing streamed yet.
    Subscribed,
    /// Frames are flowing.
    Streaming,
    /// Transport gone; no further sequence numbers are issued.
    Closed,
}

/// A downstream price-update record decoded from a price-change event.
pub struct UpdateBook {
    pub market: String,
    pub asset_id: String,
    pub price: u64,
}

/// Opening bytes of the subscription frame: `{"type": "market",
/// "assets_ids": [`.
pub open spec fn subscribe_prefix() -> Seq<u8> {
    seq![
        123u8, 34, 116, 121, 112, 101, 34, 58, 32, 34, 109, 97, 114, 107, 101, 116, 34, 44, 32, 34,
        97, 115, 115, 101, 116, 115, 95, 105, 100, 115, 34, 58, 32, 91,
    ]
}

/// An asset id in its quotes.
pub open spec fn quoted(id: Seq<u8>) -> Seq<u8> {
    seq![34u8] + id + seq![34u8]
}

/// The quoted ids joined with commas.
pub open spec fn joined_ids(ids: Seq<Seq<u8>>) -> Seq<u8>
    decreases ids.len(),
{
    if ids.len() == 0 {
        Seq::empty()
    } else if ids.len() == 1 {
        quoted(ids[0])
    } else {
        joined_ids(ids.drop_last()) + seq![44u8] + quoted(ids.last())
    }
}

/// The whole subscription frame for the chosen asset ids.
pub open spec fn spec_subscribe_payload(ids: Seq<Seq<u8>>) -> Seq<u8> {
    subscribe_prefix() + joined_ids(ids) + seq![93u8, 125u8]
}

/// The receive loop's own state: where the connection stands and the next
/// sequence number to assign to a kept frame.
pub struct Sequencer {
    pub state: ConnState,
    pub next_seq: u64,
}

impl Sequencer {
    /// A fresh connection: nothing subscribed, numbering starts at zero.
    pub fn new() -> (r: Sequencer)
        ensures
            r.state == ConnState::Connecting,
            r.next_seq == 0,
    {
        Sequencer { state: ConnState::Connecting, next_seq: 0 }
    }

    /// Builds the subscription frame and moves to `Subscribed`.
    pub fn subscribe_frame(&mut self, asset_ids: &Vec<Vec<u8>>) -> (r: Vec<u8>)
        requires
            old(self).state == ConnState::Connecting,
        ensures
            final(self).state == ConnState::Subscribed,
            final(self).next_seq == old(self).next_seq,
            r@ == spec_subscribe_payload(asset_ids.deep_view()),
    {
        let mut out: Vec<u8> = vec![
            123u8, 34, 116, 121, 112, 101, 34, 58, 32, 34, 109, 97, 114, 107, 101, 116, 34, 44, 32,
            34, 97, 115, 115, 101, 116, 115, 95, 105, 100, 115, 34, 58, 32, 91,
        ];
        assert(out@ =~= subscribe_prefix());
        let n = asset_ids.len();
        let ghost ids = asset_ids.deep_view();
        proof {
            assert(ids.len() == n) by {
                assert(asset_ids.deep_view().len() == asset_ids@.len());
            }
        }
        let mut i: usize = 0;
        while i < n
            invariant
                n == asset_ids@.len(),
                ids == asset_ids.deep_view(),
                ids.len() == n,
                0 <= i <= n,
                forall|k: int| 0 <= k < n ==> ids[k] == asset_ids@[k]@,
                out@ == subscribe_prefix() + joined_ids(ids.subrange(0, i as int)),
            decreases n - i,
        {
            if i > 0 {
                out.push(44);
            }
            out.push(34);
            let mut id_copy = asset_ids[i].clone();
            out.append(&mut id_copy);
            out.push(34);
            proof {
                let pre = ids.subrange(0, i as int);
                let cur = ids.subrange(0, i + 1);
                assert(cur.drop_last() =~= pre);
                assert(cur.last() == ids[i as int]);
                if i == 0 {
                    assert(cur.len() == 1);
                    assert(out@ =~= subscribe_prefix() + joined_ids(cur));
                } else {
                    assert(joined_ids(cur) == joined_ids(pre) + seq![44u8] + quoted(ids[i as int]));
                    assert(out@ =~= subscribe_prefix() + joined_ids(cur));
                }
            }
            i += 1;
        }
        out.push(93);
        out.push(125);
        proof {
            assert(ids.subrange(0, n as int) =~= ids);
            assert(out@ =~= spec_subscribe_payload(ids));
        }
        self.state = ConnState::Subscribed;
        out
    }

    /// Decides one text frame: a standalone book event is dropped; any
    /// other frame is kept, given the next sequence number, and handed on
    /// with its array wrapper stripped. The first frame moves the
    /// connection to `Streaming`.
    pub fn on_text_frame(&mut self, raw: &[u8]) -> (r: Option<(u64, Vec<u8>)>)
        requires
            old(self).state == ConnState::Subscribed || old(self).state == ConnState::Streaming,
            old(self).next_seq < u64::MAX,
        ensures
            final(self).state == ConnState::Streaming,
            spec_is_book_message(raw@) ==> r is None && final(self).next_seq == old(self).next_seq,
            !spec_is_book_message(raw@) ==> {
                &&& r matches Some(kept)
                &&& kept.0 == old(self).next_seq
                &&& kept.1@ == spec_strip_array_wrapper(raw@)
                &&& final(self).next_seq == old(self).next_seq + 1
            },
    {
        self.state = ConnState::Streaming;
        if is_book_message(raw) {
            None
        } else {
            let seq = self.next_seq;
            self.next_seq = self.next_seq + 1;
            let data = vstd::slice::slice_to_vec(strip_array_wrapper(raw));
            Some((seq, data))
        }
    }

    /// A frame of an unexpected kind is a protocol violation: non-fatal,
    /// ignored, and it consumes no sequence number.
    pub fn on_other_frame(&mut self)
        ensures
            *final(self) == *old(self),
    {
    }

    /// A close frame or transport error: terminal.
    pub fn on_close(&mut self)
        ensures
            final(self).state == ConnState::Closed,
            final(self).next_seq == old(self).next_seq,
    {
        self.state = ConnState::Closed;
    }
}

/// Worker-side parse of a kept frame: a fresh book, or nothing when the
/// payload is rejected (the caller may recover the diagnostic through
/// [`Orderbook::from_bytes`]).
pub fn parse_message(raw: &[u8]) -> (r: Option<Orderbook>)
    ensures
        match r {
            Some(book) => spec_parse_book(raw@) matches Ok(m) && book_from_wire(book, m),
            None => spec_parse_book(raw@) is Err,
        },
{
    match Orderbook::from_bytes(raw) {
        Ok(b) => Some(b),
        Err(_) => None,
    }
}

/// What draining a buffer from `next` releases: the longest contiguous run
/// of pending entries starting at `next`, the buffer left behind, and the
/// new next-expected number.
pub open spec fn spec_drain(buf: Seq<(u64, Option<Orderbook>)>, next: u64) -> (
    Seq<(u64, Option<Orderbook>)>,
    Seq<(u64, Option<Orderbook>)>,
    u64,
)
    decreases buf.len(),
{
    if buf.len() > 0 && buf[0].0 == next && next < u64::MAX {
        let r = spec_drain(buf.drop_first(), (next + 1) as u64);
        (seq![buf[0]] + r.0, r.1, r.2)
    } else {
        (Seq::empty(), buf, next)
    }
}

/// Where a completion lands in a sorted buffer.
pub open spec fn spec_buf_insert(
    buf: Seq<(u64, Option<Orderbook>)>,
    seq_no: u64,
    payload: Option<Orderbook>,
) -> Seq<(u64, Option<Orderbook>)>
    decreases buf.len(),
{
    if buf.len() == 0 {
        seq![(seq_no, payload)]
    } else if buf[0].0 < seq_no {
        seq![buf[0]] + spec_buf_insert(buf.drop_first(), seq_no, payload)
    } else {
        seq![(seq_no, payload)] + buf
    }
}

/// Reassembles out-of-order parse completions into strict sequence order.
pub struct Resequencer {
    next_seq: u64,
    buffer: Vec<(u64, Option<Orderbook>)>,
    history: Ghost<Seq<u64>>,
}

impl Resequencer {
    /// The number the stream is waiting for.
    pub closed spec fn next(self) -> u64 {
        self.next_seq
    }

    /// The pending completions, ordered by sequence number.
    pub closed spec fn buf(self) -> Seq<(u64, Option<Orderbook>)> {
        self.buffer@
    }

    /// Every sequence number released so far, in release order.
    pub closed spec fn history(self) -> Seq<u64> {
        self.history@
    }

    /// `seq_no` is pending in the buffer.
    pub closed spec fn buf_has(self, seq_no: u64) -> bool {
        exists|i: int| 0 <= i < self.buf().len() && self.buf()[i].0 == seq_no
    }

    /// The resequencing invariant: the buffer is strictly sorted and holds
    /// only numbers at or beyond the next expected one, and the release
    /// history is exactly 0, 1, ..., next-1 in order — nothing reordered,
    /// nothing repeated, nothing lost.
    pub closed spec fn wf(self) -> bool {
        &&& forall|i: int, j: int|
            0 <= i < j < self.buf().len() ==> self.buf()[i].0 < self.buf()[j].0
        &&& forall|i: int| 0 <= i < self.buf().len() ==> self.buf()[i].0 >= self.next()
        &&& forall|i: int| 0 <= i < self.buf().len() ==> self.buf()[i].0 < u64::MAX
        &&& self.history() == Seq::new(self.next() as nat, |i: int| i as u64)
    }

    /// An empty resequencer expecting sequence number zero.
    pub fn new() -> (r: Resequencer)
        ensures
            r.wf(),
            r.next() == 0,
            r.buf().len() == 0,
            r.history().len() == 0,
    {
        let r = Resequencer {
            next_seq: 0,
            buffer: Vec::new(),
            history: Ghost(Seq::empty()),
        };
        proof {
            assert(r.history() =~= Seq::new(0, |i: int| i as u64));
        }
        r
    }

    /// How many completions wait in the buffer.
    pub fn pending_count(&self) -> (r: usize)
        ensures
            r == self.buf().len(),
    {
        self.buffer.len()
    }

    /// The sequence number the stream is waiting for.
    pub fn next_expected(&self) -> (r: u64)
        ensures
            r == self.next(),
    {
        self.next_seq
    }

    /// Whether `seq_no` waits in the buffer.
    pub fn is_pending(&self, seq_no: u64) -> (r: bool)
        ensures
            r == self.buf_has(seq_no),
    {
        let n = self.buffer.len();
        let mut i: usize = 0;
        while i < n
            invariant
                n == self.buf().len(),
                0 <= i <= n,
                forall|k: int| 0 <= k < i ==> self.buf()[k].0 != seq_no,
            decreases n - i,
        {
            if self.buffer[i].0 == seq_no {
                return true;
            }
            i += 1;
        }
        false
    }

    /// Accepts the completion of `seq_no` — a parsed book, or nothing for
    /// a failed parse, which still advances the stream past its slot — and
    /// releases every entry that is now contiguous from the next expected
    /// number, in order. A completion for an already-released or pending
    /// number is ignored.
    pub fn complete(&mut self, seq_no: u64, payload: Option<Orderbook>) -> (emitted: Vec<
        (u64, Option<Orderbook>),
    >)
        requires
            old(self).wf(),
            seq_no < u64::MAX,
        ensures
            final(self).wf(),
            seq_no < old(self).next() || old(self).buf_has(seq_no) ==> {
                &&& emitted@.len() == 0
                &&& *final(self) == *old(self)
            },
            !(seq_no < old(self).next() || old(self).buf_has(seq_no)) ==> {
                let drained = spec_drain(
                    spec_buf_insert(old(self).buf(), seq_no, payload),
                    old(self).next(),
                );
                &&& emitted@ == drained.0
                &&& final(self).buf() == drained.1
                &&& final(self).next() == drained.2
                &&& final(self).history() == old(self).history() + emitted@.map_values(
                    |e: (u64, Option<Orderbook>)| e.0,
                )
                &&& final(self).buf().len() > 0 ==> final(self).buf()[0].0 > final(self).next()
            },
            final(self).next() == old(self).next() + emitted@.len(),
            forall|i: int|
                0 <= i < emitted@.len() ==> emitted@[i].0 == old(self).next() + i,
    {
        if seq_no < self.next_seq || self.is_pending(seq_no) {
            let emitted: Vec<(u64, Option<Orderbook>)> = Vec::new();
            return emitted;
        }
        let ghost buf0 = self.buffer@;
        let ghost n0 = self.next_seq;
        // insert at the sorted position
        let n = self.buffer.len();
        let mut idx: usize = 0;
        while idx < n && self.buffer[idx].0 < seq_no
            invariant
                n == self.buffer@.len(),
                0 <= idx <= n,
                forall|k: int| 0 <= k < idx ==> self.buffer@[k].0 < seq_no,
            decreases n - idx,
        {
            idx += 1;
        }
        self.buffer.insert(idx, (seq_no, payload));
        proof {
            lemma_buf_insert_at(buf0, seq_no, payload, idx as int);
            assert(self.buffer@ == spec_buf_insert(buf0, seq_no, payload));
        }
        let ghost ibuf = self.buffer@;
        let mut emitted: Vec<(u64, Option<Orderbook>)> = Vec::new();
        while self.buffer.len() > 0 && (self.buffer[0].0 == self.next_seq)
            invariant
                forall|i: int, j: int|
                    0 <= i < j < self.buffer@.len() ==> self.buffer@[i].0 < self.buffer@[j].0,
                forall|i: int| 0 <= i < self.buffer@.len() ==> self.buffer@[i].0 >= self.next_seq,
                forall|i: int| 0 <= i < self.buffer@.len() ==> self.buffer@[i].0 < u64::MAX,
                spec_drain(ibuf, n0).0 == emitted@ + spec_drain(self.buffer@, self.next_seq).0,
                spec_drain(ibuf, n0).1 == spec_drain(self.buffer@, self.next_seq).1,
                spec_drain(ibuf, n0).2 == spec_drain(self.buffer@, self.next_seq).2,
                n0 + emitted@.len() == self.next_seq,
                self.history@ == Seq::new(n0 as nat, |i: int| i as u64),
                forall|i: int| 0 <= i < emitted@.len() ==> emitted@[i].0 == n0 + i,
            decreases self.buffer@.len(),
        {
            let ghost pre_buf = self.buffer@;
            let entry = self.buffer.remove(0);
            proof {
                assert(self.buffer@ =~= pre_buf.drop_first());
            }
            emitted.push(entry);
            self.next_seq = self.next_seq + 1;
            proof {
                assert(spec_drain(pre_buf, (self.next_seq - 1) as u64).0 == seq![
                    pre_buf[0],
                ] + spec_drain(self.buffer@, self.next_seq).0);
                assert(emitted@ + spec_drain(self.buffer@, self.next_seq).0 =~= emitted@.drop_last()
                    + spec_drain(pre_buf, (self.next_seq - 1) as u64).0);
            }
        }
        proof {
            // the residual drain is empty
            assert(spec_drain(self.buffer@, self.next_seq).0 =~= Seq::<
                (u64, Option<Orderbook>),
            >::empty());
            assert(emitted@ + Seq::<(u64, Option<Orderbook>)>::empty() =~= emitted@);
            assert(spec_drain(ibuf, n0).0 == emitted@);
        }
        let ghost released = emitted@.map_values(|e: (u64, Option<Orderbook>)| e.0);
        proof {
            self.history@ = self.history@ + released;
            assert(self.history() =~= Seq::new(self.next_seq as nat, |i: int| i as u64)) by {
                assert(released.len() == emitted@.len());
                assert(forall|i: int| 0 <= i < released.len() ==> released[i] == n0 + i);
            }
        }
        emitted
    }
}

proof fn lemma_buf_insert_at(
    buf: Seq<(u64, Option<Orderbook>)>,
    seq_no: u64,
    payload: Option<Orderbook>,
    idx: int,
)
    requires
        0 <= idx <= buf.len(),
        forall|k: int| 0 <= k < idx ==> buf[k].0 < seq_no,
        idx < buf.len() ==> buf[idx].0 >= seq_no,
    ensures
        buf.insert(idx, (seq_no, payload)) == spec_buf_insert(buf, seq_no, payload),
    decreases buf.len(),
{
    if buf.len() == 0 {
        assert(buf.insert(0, (seq_no, payload)) =~= seq![(seq_no, payload)]);
    } else if idx == 0 {
        assert(buf.insert(0, (seq_no, payload)) =~= seq![(seq_no, payload)] + buf);
    } else {
        let t = buf.drop_first();
        assert(forall|k: int| 0 <= k < idx - 1 ==> t[k].0 < seq_no);
        lemma_buf_insert_at(t, seq_no, payload, idx - 1);
        assert(buf.insert(idx, (seq_no, payload)) =~= seq![buf[0]] + t.insert(
            idx - 1,
            (seq_no, payload),
        ));
    }
}

/// Release is faithful: for any well-formed resequencer the history is
/// exactly 0, 1, ..., next-1 in that order — so no sequence number is ever
/// released out of order, released twice, or passed over — and no pending
/// entry has been released before.
pub proof fn lemma_emission_in_order(r: Resequencer)
    requires
        r.wf(),
    ensures
        r.history().len() == r.next() as nat,
        forall|i: int| 0 <= i < r.history().len() ==> r.history()[i] == i,
        forall|i: int, j: int| 0 <= i < j < r.history().len() ==> r.history()[i] < r.history()[j],
        forall|i: int| 0 <= i < r.buf().len() ==> !r.history().contains(r.buf()[i].0),
{
    assert forall|i: int| 0 <= i < r.buf().len() implies !r.history().contains(r.buf()[i].0) by {
        if r.history().contains(r.buf()[i].0) {
            let j = choose|j: int| 0 <= j < r.history().len() && r.history()[j] == r.buf()[i].0;
            assert(r.history()[j] < r.next());
        }
    }
}

} // verus!
