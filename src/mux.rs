//! The decisions of one Beepish connection: which frames go out, which
//! messages complete, when the flow window stops a sender, and when the
//! connection is at fault. The socket, the timer and the tasks that wait
//! on messages stand outside; they hand in packets and ticks and carry out
//! what comes back.

use vstd::prelude::*;
use crate::decimal::{decimal, decimal_u64, read_u64, write_u64};
use crate::proto::{append_range, Packet, PacketHeader, PacketType, MAX_PACKET_SIZE};

verus! {

/// The most unacknowledged bytes a message may have in flight.
pub const FLOW_WINDOW: u64 = 65536;

/// A sent message, until its reply ends.
#[derive(Debug, Clone, Copy, PartialEq, Eq, Structural)]
pub struct Outgoing {
    pub msg_no: u64,
    pub sent: u64,
    pub acked: u64,
    /// Its EOF has been sent.
    pub finished: bool,
}

/// A message being received.
#[derive(Debug)]
pub struct Incoming {
    pub msg_no: u64,
    pub header: PacketHeader,
    pub body: Vec<u8>,
    pub received: u64,
    pub acked: u64,
}

/// A message that arrived whole.
#[derive(Debug)]
pub struct Message {
    pub msg_no: u64,
    pub header: PacketHeader,
    pub body: Vec<u8>,
}

/// What the connection must do after a packet arrives.
#[derive(Debug)]
pub enum Reaction {
    /// Write this packet.
    Send(Packet),
    /// This message ended with EOF.
    Completed(Message),
    /// This message ended with TXERR; the payload says why.
    Failed { msg_no: u64, reason: Vec<u8> },
}

/// A condition that faults the connection, or a refused request.
#[derive(Debug, Clone, Copy, PartialEq, Eq, Structural)]
pub enum MuxError {
    /// A frame for a message this connection does not know.
    UnknownMessage(u64),
    /// A HEADER for a message already being received.
    DuplicateHeader(u64),
    /// An ACK that is not a decimal count between what was acknowledged and
    /// what was sent.
    InvalidAck(u64),
    /// The flow window of the message is full; wait for an ACK.
    WindowFull(u64),
    /// The message has already been finished.
    AlreadyFinished(u64),
    /// No message number is left.
    IdsExhausted,
    /// A message body longer than its byte counter can count.
    BodyTooLong(u64),
    /// The peer stayed silent past the deadline.
    PeerSilent,
    /// The connection has failed; nothing more goes through it.
    Closed,
}

pub struct IncomingView {
    pub msg_no: u64,
    pub header: PacketHeader,
    pub body: Seq<u8>,
    pub received: u64,
    pub acked: u64,
}

impl View for Incoming {
    type V = IncomingView;

    open spec fn view(&self) -> IncomingView {
        IncomingView {
            msg_no: self.msg_no,
            header: self.header,
            body: self.body@,
            received: self.received,
            acked: self.acked,
        }
    }
}

pub open spec fn incoming_views(v: Seq<Incoming>) -> Seq<IncomingView> {
    v.map_values(|m: Incoming| m@)
}

/// The position of message `id` in a table, or the table's length.
pub open spec fn out_pos(s: Seq<Outgoing>, id: u64, from: int) -> int
    decreases s.len() - from,
{
    if from < 0 || from >= s.len() {
        s.len() as int
    } else if s[from].msg_no == id {
        from
    } else {
        out_pos(s, id, from + 1)
    }
}

pub open spec fn in_pos(s: Seq<IncomingView>, id: u64, from: int) -> int
    decreases s.len() - from,
{
    if from < 0 || from >= s.len() {
        s.len() as int
    } else if s[from].msg_no == id {
        from
    } else {
        in_pos(s, id, from + 1)
    }
}

/// Whether the flow window of a sent message is full.
pub open spec fn window_full(o: Outgoing) -> bool {
    o.sent - o.acked >= FLOW_WINDOW
}

pub struct Connection {
    outgoing: Vec<Outgoing>,
    incoming: Vec<Incoming>,
    next_id: u64,
    silent_ticks: u32,
    max_silent_ticks: u32,
    failed: bool,
}

pub struct ConnectionView {
    pub outgoing: Seq<Outgoing>,
    pub incoming: Seq<IncomingView>,
    pub next_id: u64,
    pub silent_ticks: u32,
    pub max_silent_ticks: u32,
    pub failed: bool,
}

impl View for Connection {
    type V = ConnectionView;

    closed spec fn view(&self) -> ConnectionView {
        ConnectionView {
            outgoing: self.outgoing@,
            incoming: incoming_views(self.incoming@),
            next_id: self.next_id,
            silent_ticks: self.silent_ticks,
            max_silent_ticks: self.max_silent_ticks,
            failed: self.failed,
        }
    }
}

/// The sent message `id`, if the connection has it.
pub open spec fn outgoing_of(c: ConnectionView, id: u64) -> Option<Outgoing> {
    let i = out_pos(c.outgoing, id, 0);
    if 0 <= i < c.outgoing.len() {
        Some(c.outgoing[i])
    } else {
        None
    }
}

pub open spec fn incoming_of(c: ConnectionView, id: u64) -> Option<IncomingView> {
    let i = in_pos(c.incoming, id, 0);
    if 0 <= i < c.incoming.len() {
        Some(c.incoming[i])
    } else {
        None
    }
}

/// A DATA packet, with its view.
pub open spec fn is_data(p: Packet) -> bool {
    p.packet_type == PacketType::Data
}

pub open spec fn emits_no_data(rs: Seq<Reaction>) -> bool {
    forall|k: int| 0 <= k < rs.len() ==> !(#[trigger] rs[k] matches Reaction::Send(p) && is_data(p))
}

impl Connection {
    /// Every message number occurs once per table; acknowledgements never
    /// pass what was sent or received.
    pub open spec fn wf(&self) -> bool {
        let c = self@;
        &&& forall|i: int, j: int| 0 <= i < j < c.outgoing.len() ==> c.outgoing[i].msg_no != c.outgoing[j].msg_no
        &&& forall|i: int, j: int| 0 <= i < j < c.incoming.len() ==> c.incoming[i].msg_no != c.incoming[j].msg_no
        &&& forall|i: int| 0 <= i < c.outgoing.len() ==> #[trigger] c.outgoing[i].acked <= c.outgoing[i].sent
        &&& forall|i: int| 0 <= i < c.outgoing.len() ==> #[trigger] c.outgoing[i].msg_no < c.next_id
        &&& forall|i: int| 0 <= i < c.incoming.len() ==> #[trigger] c.incoming[i].acked <= c.incoming[i].received
        &&& forall|i: int| 0 <= i < c.incoming.len() ==> #[trigger] c.incoming[i].received == c.incoming[i].body.len()
    }

    /// A connection that has sent nothing; it faults after `max_silent_ticks`
    /// heartbeat intervals without hearing from the peer.
    pub fn new(max_silent_ticks: u32) -> (r: Connection)
        ensures
            r.wf(),
            r@.outgoing.len() == 0,
            r@.incoming.len() == 0,
            r@.next_id == 0,
            r@.silent_ticks == 0,
            r@.max_silent_ticks == max_silent_ticks,
            !r@.failed,
    {
        let r = Connection {
            outgoing: Vec::new(),
            incoming: Vec::new(),
            next_id: 0,
            silent_ticks: 0,
            max_silent_ticks,
            failed: false,
        };
        assert(incoming_views(r.incoming@) =~= Seq::<IncomingView>::empty());
        r
    }

    fn find_out(&self, id: u64) -> (r: usize)
        ensures
            r as int == out_pos(self@.outgoing, id, 0),
            r <= self@.outgoing.len(),
            r < self@.outgoing.len() ==> self@.outgoing[r as int].msg_no == id,
            r == self@.outgoing.len() ==> forall|k: int| 0 <= k < self@.outgoing.len() ==> self@.outgoing[k].msg_no != id,
    {
        proof {
            lemma_out_pos_bounds(self@.outgoing, id, 0);
        }
        let mut i: usize = 0;
        while i < self.outgoing.len()
            invariant
                i <= self.outgoing@.len(),
                self@.outgoing == self.outgoing@,
                out_pos(self@.outgoing, id, 0) == out_pos(self@.outgoing, id, i as int),
            decreases self.outgoing@.len() - i,
        {
            if self.outgoing[i].msg_no == id {
                return i;
            }
            i = i + 1;
        }
        i
    }

    fn find_in(&self, id: u64) -> (r: usize)
        ensures
            r as int == in_pos(self@.incoming, id, 0),
            r <= self@.incoming.len(),
            r < self@.incoming.len() ==> self@.incoming[r as int].msg_no == id,
            r == self@.incoming.len() ==> forall|k: int| 0 <= k < self@.incoming.len() ==> self@.incoming[k].msg_no != id,
    {
        proof {
            lemma_in_pos_bounds(self@.incoming, id, 0);
        }
        let mut i: usize = 0;
        while i < self.incoming.len()
            invariant
                i <= self.incoming@.len(),
                self@.incoming == incoming_views(self.incoming@),
                in_pos(self@.incoming, id, 0) == in_pos(self@.incoming, id, i as int),
            decreases self.incoming@.len() - i,
        {
            assert(self@.incoming[i as int].msg_no == self.incoming@[i as int].msg_no);
            if self.incoming[i].msg_no == id {
                return i;
            }
            i = i + 1;
        }
        i
    }

    /// Opens a message: allocates the next number and gives the HEADER to send.
    pub fn start_message(&mut self, header: PacketHeader) -> (r: Result<Packet, MuxError>)
        requires
            old(self).wf(),
        ensures
            final(self).wf(),
            old(self)@.failed ==> r == Err::<Packet, MuxError>(MuxError::Closed) && final(self)@ == old(self)@,
            !old(self)@.failed && old(self)@.next_id == u64::MAX ==> r == Err::<Packet, MuxError>(MuxError::IdsExhausted)
                && final(self)@ == old(self)@,
            !old(self)@.failed && old(self)@.next_id < u64::MAX ==> {
                &&& r matches Ok(p) && p.packet_type == PacketType::Header && p.msg_no == old(self)@.next_id
                    && p.packet_header == Some(header) && p.body@.len() == 0
                &&& final(self)@.next_id == old(self)@.next_id + 1
                &&& final(self)@.outgoing == old(self)@.outgoing.push(
                    Outgoing { msg_no: old(self)@.next_id, sent: 0, acked: 0, finished: false },
                )
                &&& final(self)@.incoming == old(self)@.incoming
            },
    {
        if self.failed {
            return Err(MuxError::Closed);
        }
        if self.next_id == u64::MAX {
            return Err(MuxError::IdsExhausted);
        }
        let id = self.next_id;
        let ghost old_out = self@.outgoing;
        self.outgoing.push(Outgoing { msg_no: id, sent: 0, acked: 0, finished: false });
        self.next_id = id + 1;
        assert(self@.outgoing == old_out.push(Outgoing { msg_no: id, sent: 0, acked: 0, finished: false }));
        Ok(Packet { packet_type: PacketType::Header, msg_no: id, packet_header: Some(header), body: Vec::new() })
    }

    /// Gives the DATA packet for the next chunk of a message's body, unless
    /// its flow window is full.
    pub fn send_data(&mut self, msg_no: u64, chunk: Vec<u8>) -> (r: Result<Packet, MuxError>)
        requires
            old(self).wf(),
            chunk@.len() <= MAX_PACKET_SIZE,
        ensures
            final(self).wf(),
            r is Err ==> final(self)@ == old(self)@,
            old(self)@.failed ==> r == Err::<Packet, MuxError>(MuxError::Closed),
            !old(self)@.failed && outgoing_of(old(self)@, msg_no) is None ==> r == Err::<Packet, MuxError>(
                MuxError::UnknownMessage(msg_no),
            ),
            !old(self)@.failed ==> (outgoing_of(old(self)@, msg_no) matches Some(o) ==> {
                if o.finished {
                    r == Err::<Packet, MuxError>(MuxError::AlreadyFinished(msg_no))
                } else if window_full(o) {
                    r == Err::<Packet, MuxError>(MuxError::WindowFull(msg_no))
                } else if o.sent + chunk@.len() > u64::MAX {
                    r == Err::<Packet, MuxError>(MuxError::BodyTooLong(msg_no))
                } else {
                    &&& r matches Ok(p) && p.packet_type == PacketType::Data && p.msg_no == msg_no
                        && p.packet_header is None && p.body@ == chunk@
                    &&& outgoing_of(final(self)@, msg_no) == Some(Outgoing { sent: (o.sent + chunk@.len()) as u64, ..o })
                    &&& forall|id: u64| id != msg_no ==> outgoing_of(final(self)@, id) == outgoing_of(old(self)@, id)
                    &&& final(self)@.incoming == old(self)@.incoming
                    &&& final(self)@.next_id == old(self)@.next_id
                }
            }),
    {
        if self.failed {
            return Err(MuxError::Closed);
        }
        let i = self.find_out(msg_no);
        if i == self.outgoing.len() {
            return Err(MuxError::UnknownMessage(msg_no));
        }
        let o = self.outgoing[i];
        if o.finished {
            return Err(MuxError::AlreadyFinished(msg_no));
        }
        if o.sent - o.acked >= FLOW_WINDOW {
            return Err(MuxError::WindowFull(msg_no));
        }
        if o.sent > u64::MAX - chunk.len() as u64 {
            return Err(MuxError::BodyTooLong(msg_no));
        }
        let ghost old_out = self@.outgoing;
        let updated = Outgoing { sent: o.sent + chunk.len() as u64, ..o };
        self.outgoing.set(i, updated);
        assert(self@.outgoing =~= old_out.update(i as int, updated));
        proof {
            lemma_out_pos_bounds(old_out, msg_no, 0);
            lemma_out_pos_update(old_out, i as int, updated);
            assert forall|id: u64| id != msg_no implies outgoing_of(self@, id) == outgoing_of(old(self)@, id) by {
                lemma_out_pos_bounds(old_out, id, 0);
            }
        }
        Ok(Packet { packet_type: PacketType::Data, msg_no, packet_header: None, body: chunk })
    }

    /// Ends a message's body: gives its EOF.
    pub fn finish_message(&mut self, msg_no: u64) -> (r: Result<Packet, MuxError>)
        requires
            old(self).wf(),
        ensures
            final(self).wf(),
            r is Err ==> final(self)@ == old(self)@,
            old(self)@.failed ==> r == Err::<Packet, MuxError>(MuxError::Closed),
            !old(self)@.failed && outgoing_of(old(self)@, msg_no) is None ==> r == Err::<Packet, MuxError>(
                MuxError::UnknownMessage(msg_no),
            ),
            !old(self)@.failed ==> (outgoing_of(old(self)@, msg_no) matches Some(o) ==> {
                if o.finished {
                    r == Err::<Packet, MuxError>(MuxError::AlreadyFinished(msg_no))
                } else {
                    &&& r matches Ok(p) && p.packet_type == PacketType::Eof && p.msg_no == msg_no
                        && p.packet_header is None && p.body@.len() == 0
                    &&& outgoing_of(final(self)@, msg_no) == Some(Outgoing { finished: true, ..o })
                    &&& forall|id: u64| id != msg_no ==> outgoing_of(final(self)@, id) == outgoing_of(old(self)@, id)
                    &&& final(self)@.incoming == old(self)@.incoming
                }
            }),
    {
        if self.failed {
            return Err(MuxError::Closed);
        }
        let i = self.find_out(msg_no);
        if i == self.outgoing.len() {
            return Err(MuxError::UnknownMessage(msg_no));
        }
        let o = self.outgoing[i];
        if o.finished {
            return Err(MuxError::AlreadyFinished(msg_no));
        }
        let ghost old_out = self@.outgoing;
        let updated = Outgoing { finished: true, ..o };
        self.outgoing.set(i, updated);
        assert(self@.outgoing =~= old_out.update(i as int, updated));
        proof {
            lemma_out_pos_bounds(old_out, msg_no, 0);
            lemma_out_pos_update(old_out, i as int, updated);
            assert forall|id: u64| id != msg_no implies outgoing_of(self@, id) == outgoing_of(old(self)@, id) by {
                lemma_out_pos_bounds(old_out, id, 0);
            }
        }
        Ok(Packet { packet_type: PacketType::Eof, msg_no, packet_header: None, body: Vec::new() })
    }

    /// Whether a DATA packet for `msg_no` may be sent now.
    pub fn can_send(&self, msg_no: u64) -> (r: bool)
        requires
            self.wf(),
        ensures
            r == (!self@.failed && (outgoing_of(self@, msg_no) matches Some(o) && !o.finished && !window_full(o))),
    {
        if self.failed {
            return false;
        }
        let i = self.find_out(msg_no);
        if i == self.outgoing.len() {
            return false;
        }
        let o = self.outgoing[i];
        !o.finished && o.sent - o.acked < FLOW_WINDOW
    }

    /// Whether the connection has failed.
    pub fn is_failed(&self) -> (r: bool)
        ensures
            r == self@.failed,
    {
        self.failed
    }

    /// A heartbeat interval has passed: gives the PING to send, or faults the
    /// connection when the peer has been silent too long.
    pub fn heartbeat(&mut self) -> (r: Result<Packet, MuxError>)
        requires
            old(self).wf(),
        ensures
            final(self).wf(),
            old(self)@.failed ==> r == Err::<Packet, MuxError>(MuxError::Closed) && final(self)@ == old(self)@,
            !old(self)@.failed && old(self)@.silent_ticks >= old(self)@.max_silent_ticks ==> r == Err::<Packet, MuxError>(
                MuxError::PeerSilent,
            ) && final(self)@ == old(self)@,
            !old(self)@.failed && old(self)@.silent_ticks < old(self)@.max_silent_ticks ==> {
                &&& r matches Ok(p) && p.packet_type == PacketType::Ping && p.msg_no == 0 && p.packet_header is None
                    && p.body@.len() == 0
                &&& final(self)@ == ConnectionView { silent_ticks: (old(self)@.silent_ticks + 1) as u32, ..old(self)@ }
            },
    {
        if self.failed {
            return Err(MuxError::Closed);
        }
        if self.silent_ticks >= self.max_silent_ticks {
            return Err(MuxError::PeerSilent);
        }
        self.silent_ticks = self.silent_ticks + 1;
        Ok(Packet { packet_type: PacketType::Ping, msg_no: 0, packet_header: None, body: Vec::new() })
    }

    /// The connection has failed: every pending message fails with it.
    /// Returns the numbers of the sent messages that were waiting, then of
    /// the received ones.
    pub fn fail(&mut self) -> (r: (Vec<u64>, Vec<u64>))
        requires
            old(self).wf(),
        ensures
            final(self).wf(),
            final(self)@.failed,
            final(self)@.outgoing.len() == 0,
            final(self)@.incoming.len() == 0,
            r.0@ == old(self)@.outgoing.map_values(|o: Outgoing| o.msg_no),
            r.1@ == old(self)@.incoming.map_values(|m: IncomingView| m.msg_no),
    {
        let mut outs: Vec<u64> = Vec::new();
        let mut i: usize = 0;
        while i < self.outgoing.len()
            invariant
                i <= self.outgoing@.len(),
                outs@ == self.outgoing@.subrange(0, i as int).map_values(|o: Outgoing| o.msg_no),
            decreases self.outgoing@.len() - i,
        {
            outs.push(self.outgoing[i].msg_no);
            assert(outs@ =~= self.outgoing@.subrange(0, i + 1).map_values(|o: Outgoing| o.msg_no));
            i = i + 1;
        }
        let mut ins: Vec<u64> = Vec::new();
        let mut i: usize = 0;
        while i < self.incoming.len()
            invariant
                i <= self.incoming@.len(),
                ins@ == incoming_views(self.incoming@).subrange(0, i as int).map_values(|m: IncomingView| m.msg_no),
            decreases self.incoming@.len() - i,
        {
            ins.push(self.incoming[i].msg_no);
            assert(ins@ =~= incoming_views(self.incoming@).subrange(0, i + 1).map_values(|m: IncomingView| m.msg_no));
            i = i + 1;
        }
        assert(self.outgoing@.subrange(0, self.outgoing@.len() as int) =~= self.outgoing@);
        assert(incoming_views(self.incoming@).subrange(0, self.incoming@.len() as int) =~= incoming_views(self.incoming@));
        self.outgoing = Vec::new();
        self.incoming = Vec::new();
        self.failed = true;
        assert(incoming_views(self.incoming@) =~= Seq::<IncomingView>::empty());
        (outs, ins)
    }
}

proof fn lemma_out_pos_bounds(s: Seq<Outgoing>, id: u64, from: int)
    requires
        0 <= from <= s.len(),
    ensures
        from <= out_pos(s, id, from) <= s.len(),
        out_pos(s, id, from) < s.len() ==> s[out_pos(s, id, from)].msg_no == id,
        out_pos(s, id, from) == s.len() ==> forall|k: int| from <= k < s.len() ==> s[k].msg_no != id,
    decreases s.len() - from,
{
    if from < s.len() && s[from].msg_no != id {
        lemma_out_pos_bounds(s, id, from + 1);
    }
}

proof fn lemma_in_pos_bounds(s: Seq<IncomingView>, id: u64, from: int)
    requires
        0 <= from <= s.len(),
    ensures
        from <= in_pos(s, id, from) <= s.len(),
        in_pos(s, id, from) < s.len() ==> s[in_pos(s, id, from)].msg_no == id,
        in_pos(s, id, from) == s.len() ==> forall|k: int| from <= k < s.len() ==> s[k].msg_no != id,
    decreases s.len() - from,
{
    if from < s.len() && s[from].msg_no != id {
        lemma_in_pos_bounds(s, id, from + 1);
    }
}

proof fn lemma_out_pos_update(s: Seq<Outgoing>, i: int, o: Outgoing)
    requires
        0 <= i < s.len(),
        o.msg_no == s[i].msg_no,
        out_pos(s, s[i].msg_no, 0) == i,
    ensures
        forall|id: u64| out_pos(s.update(i, o), id, 0) == out_pos(s, id, 0),
{
    assert forall|id: u64| out_pos(s.update(i, o), id, 0) == out_pos(s, id, 0) by {
        lemma_out_pos_update_from(s, i, o, id, 0);
    }
}

proof fn lemma_out_pos_update_from(s: Seq<Outgoing>, i: int, o: Outgoing, id: u64, from: int)
    requires
        0 <= i < s.len(),
        0 <= from,
        o.msg_no == s[i].msg_no,
    ensures
        out_pos(s.update(i, o), id, from) == out_pos(s, id, from),
    decreases s.len() - from,
{
    if from < s.len() {
        lemma_out_pos_update_from(s, i, o, id, from + 1);
    }
}


/// What a packet may change of sent message `id`: never how much was sent
/// or whether it was finished, and its acknowledgement only by an ACK for it.
pub open spec fn flow_kept(before: ConnectionView, after: ConnectionView, p: Packet, id: u64) -> bool {
    match outgoing_of(after, id) {
        None => true,
        Some(o2) => match outgoing_of(before, id) {
            None => false,
            Some(o1) => o2.sent == o1.sent && o2.finished == o1.finished && (o2.acked == o1.acked || (p.packet_type
                == PacketType::Ack && p.msg_no == id)),
        },
    }
}

/// The reactions of a successful call; none for a failed one.
pub open spec fn reactions(r: Result<Vec<Reaction>, MuxError>) -> Seq<Reaction> {
    match r {
        Ok(rs) => rs@,
        Err(_) => Seq::empty(),
    }
}

pub open spec fn unique_out(s: Seq<Outgoing>) -> bool {
    forall|i: int, j: int| 0 <= i < j < s.len() ==> s[i].msg_no != s[j].msg_no
}

proof fn lemma_out_pos_unique(s: Seq<Outgoing>, id: u64, k: int)
    requires
        unique_out(s),
        0 <= k < s.len(),
        s[k].msg_no == id,
    ensures
        out_pos(s, id, 0) == k,
{
    lemma_out_pos_bounds(s, id, 0);
    let p = out_pos(s, id, 0);
    if p < k {
        assert(s[p].msg_no != s[k].msg_no);
    } else if k < p {
        assert(s[k].msg_no != s[p].msg_no);
    }
}

/// Removing one message leaves the others where a lookup finds them.
proof fn lemma_out_remove(s: Seq<Outgoing>, i: int, id: u64)
    requires
        unique_out(s),
        0 <= i < s.len(),
        id != s[i].msg_no,
    ensures
        unique_out(s.remove(i)),
        out_pos(s.remove(i), id, 0) < s.remove(i).len() ==> out_pos(s, id, 0) < s.len()
            && s.remove(i)[out_pos(s.remove(i), id, 0)] == s[out_pos(s, id, 0)],
        out_pos(s, id, 0) < s.len() ==> out_pos(s.remove(i), id, 0) < s.remove(i).len(),
{
    let t = s.remove(i);
    assert forall|a: int, b: int| 0 <= a < b < t.len() implies t[a].msg_no != t[b].msg_no by {
        let a0 = if a < i { a } else { a + 1 };
        let b0 = if b < i { b } else { b + 1 };
        assert(s[a0].msg_no != s[b0].msg_no);
    }
    lemma_out_pos_bounds(s, id, 0);
    lemma_out_pos_bounds(t, id, 0);
    let pt = out_pos(t, id, 0);
    if pt < t.len() {
        let k = if pt < i { pt } else { pt + 1 };
        assert(s[k] == t[pt]);
        lemma_out_pos_unique(s, id, k);
    }
    let ps = out_pos(s, id, 0);
    if ps < s.len() {
        let k = if ps < i { ps } else { ps - 1 };
        assert(t[k] == s[ps]);
    }
}

impl Connection {
    /// Handles one packet from the peer.
    #[verifier::rlimit(60)]
    pub fn receive(&mut self, p: Packet) -> (r: Result<Vec<Reaction>, MuxError>)
        requires
            old(self).wf(),
            p.wf(),
        ensures
            final(self).wf(),
            old(self)@.failed ==> r == Err::<Vec<Reaction>, MuxError>(MuxError::Closed) && final(self)@ == old(self)@,
            r is Err ==> final(self)@ == old(self)@,
            r is Ok ==> final(self)@.silent_ticks == 0 && !final(self)@.failed,
            r matches Ok(rs) ==> emits_no_data(rs@),
            // what was sent never changes here; only an ACK for a message moves its acknowledgement
            forall|id: u64| #[trigger] flow_kept(old(self)@, final(self)@, p, id),
            // the messages of every other number are left as they were
            forall|id: u64| id != p.msg_no ==> #[trigger] outgoing_of(final(self)@, id) == outgoing_of(old(self)@, id),
            forall|id: u64| id != p.msg_no ==> #[trigger] incoming_of(final(self)@, id) == incoming_of(old(self)@, id),
            !old(self)@.failed ==> match p.packet_type {
                PacketType::Header => if incoming_of(old(self)@, p.msg_no) is Some {
                    r == Err::<Vec<Reaction>, MuxError>(MuxError::DuplicateHeader(p.msg_no))
                } else {
                    r matches Ok(rs) && rs@.len() == 0 && incoming_of(final(self)@, p.msg_no) == Some(
                        IncomingView { msg_no: p.msg_no, header: p.packet_header->0, body: Seq::empty(), received: 0, acked: 0 },
                    )
                },
                PacketType::Data => match incoming_of(old(self)@, p.msg_no) {
                    None => r == Err::<Vec<Reaction>, MuxError>(MuxError::UnknownMessage(p.msg_no)),
                    Some(m) => if m.received + p.body@.len() > u64::MAX {
                        r == Err::<Vec<Reaction>, MuxError>(MuxError::BodyTooLong(p.msg_no))
                    } else {
                        let total = m.received + p.body@.len();
                        &&& incoming_of(final(self)@, p.msg_no) matches Some(m2)
                        &&& m2.body == m.body + p.body@ && m2.received == total && m2.header == m.header
                        &&& if total - m.acked > FLOW_WINDOW / 2 {
                            &&& m2.acked == total
                            &&& r is Ok && reactions(r).len() == 1
                            &&& (reactions(r)[0] matches Reaction::Send(q)
                                && q.packet_type == PacketType::Ack && q.msg_no == p.msg_no
                                && q.packet_header is None && q.body@ == decimal(total as nat))
                        } else {
                            &&& m2.acked == m.acked
                            &&& r matches Ok(rs) && rs@.len() == 0
                        }
                    },
                },
                PacketType::Eof => match incoming_of(old(self)@, p.msg_no) {
                    None => r == Err::<Vec<Reaction>, MuxError>(MuxError::UnknownMessage(p.msg_no)),
                    Some(m) => {
                        &&& r is Ok && reactions(r).len() == 1
                        &&& (reactions(r)[0] matches Reaction::Completed(msg)
                            && msg.msg_no == p.msg_no && msg.header == m.header && msg.body@ == m.body)
                        &&& incoming_of(final(self)@, p.msg_no) is None
                        &&& outgoing_of(final(self)@, p.msg_no) is None
                    },
                },
                PacketType::Txerr => {
                    &&& r is Ok && reactions(r).len() == 1
                    &&& (reactions(r)[0] matches Reaction::Failed { msg_no, reason }
                        && msg_no == p.msg_no && reason@ == p.body@)
                    &&& incoming_of(final(self)@, p.msg_no) is None
                    &&& outgoing_of(final(self)@, p.msg_no) is None
                },
                PacketType::Ack => match outgoing_of(old(self)@, p.msg_no) {
                    None => r == Err::<Vec<Reaction>, MuxError>(MuxError::UnknownMessage(p.msg_no)),
                    Some(o) => match decimal_u64(p.body@) {
                        Some(n) => if o.acked <= n <= o.sent {
                            r matches Ok(rs) && rs@.len() == 0 && outgoing_of(final(self)@, p.msg_no) == Some(
                                Outgoing { acked: n, ..o },
                            )
                        } else {
                            r == Err::<Vec<Reaction>, MuxError>(MuxError::InvalidAck(p.msg_no))
                        },
                        None => r == Err::<Vec<Reaction>, MuxError>(MuxError::InvalidAck(p.msg_no)),
                    },
                },
                PacketType::Ping => r is Ok && reactions(r).len() == 1 && (reactions(r)[0] matches Reaction::Send(q)
                    && q.packet_type == PacketType::Pong && q.msg_no == p.msg_no && q.body@.len() == 0),
                PacketType::Pong => r matches Ok(rs) && rs@.len() == 0,
            },
    {
        if self.failed {
            return Err(MuxError::Closed);
        }
        let ghost old_view = self@;
        let mut rs: Vec<Reaction> = Vec::new();
        match p.packet_type {
            PacketType::Header => {
                let i = self.find_in(p.msg_no);
                if i < self.incoming.len() {
                    return Err(MuxError::DuplicateHeader(p.msg_no));
                }
                let header = match p.packet_header {
                    Some(h) => h,
                    None => {
                        return Err(MuxError::UnknownMessage(p.msg_no));
                    },
                };
                let ghost hv = header;
                let ghost old_in = self.incoming@;
                self.incoming.push(Incoming { msg_no: p.msg_no, header, body: Vec::new(), received: 0, acked: 0 });
                proof {
                    assert(incoming_views(self.incoming@) =~= incoming_views(old_in).push(
                        IncomingView { msg_no: p.msg_no, header: hv, body: Seq::empty(), received: 0, acked: 0 },
                    ));
                    lemma_in_pos_bounds(self@.incoming, p.msg_no, 0);
                    lemma_in_pos_push(old_view.incoming, p.msg_no, self@.incoming.last());
                    assert forall|id: u64| id != p.msg_no implies #[trigger] incoming_of(self@, id) == incoming_of(old_view, id) by {
                        lemma_incoming_push(old_view, self@, self@.incoming.last(), id);
                    }
                }
            },
            PacketType::Data => {
                let i = self.find_in(p.msg_no);
                if i == self.incoming.len() {
                    return Err(MuxError::UnknownMessage(p.msg_no));
                }
                assert(self@.incoming[i as int] == self.incoming@[i as int]@);
                if self.incoming[i].received > u64::MAX - p.body.len() as u64 {
                    return Err(MuxError::BodyTooLong(p.msg_no));
                }
                let ghost old_in = self.incoming@;
                let mut m = self.incoming.remove(i);
                let ghost mv = m@;
                assert(mv == old_view.incoming[i as int]);
                assert(mv.acked <= mv.received);
                append_range(&mut m.body, p.body.as_slice(), 0, p.body.len());
                assert(p.body@.subrange(0, p.body@.len() as int) =~= p.body@);
                m.received = m.received + p.body.len() as u64;
                if m.received - m.acked > FLOW_WINDOW / 2 {
                    let mut count: Vec<u8> = Vec::new();
                    write_u64(&mut count, m.received);
                    assert(count@ =~= decimal(m.received as nat));
                    m.acked = m.received;
                    rs.push(Reaction::Send(Packet { packet_type: PacketType::Ack, msg_no: p.msg_no, packet_header: None, body: count }));
                }
                let ghost m2 = m@;
                self.incoming.insert(i, m);
                proof {
                    assert(self.incoming@ =~= old_in.update(i as int, self.incoming@[i as int]));
                    assert(incoming_views(self.incoming@) =~= old_view.incoming.update(i as int, m2));
                    lemma_in_pos_update(old_view.incoming, i as int, m2);
                    assert forall|id: u64| id != p.msg_no implies #[trigger] incoming_of(self@, id) == incoming_of(old_view, id) by {
                        lemma_incoming_update(old_view, self@, i as int, m2, id);
                    }
                }
            },
            PacketType::Eof => {
                let i = self.find_in(p.msg_no);
                if i == self.incoming.len() {
                    return Err(MuxError::UnknownMessage(p.msg_no));
                }
                let ghost old_in = self.incoming@;
                let m = self.incoming.remove(i);
                proof {
                    assert(incoming_views(self.incoming@) =~= old_view.incoming.remove(i as int));
                    lemma_in_remove_self(old_view.incoming, i as int);
                    assert forall|id: u64| id != p.msg_no implies #[trigger] incoming_of(self@, id) == incoming_of(old_view, id) by {
                        lemma_incoming_remove(old_view, self@, i as int, id);
                    }
                }
                let ghost mid = self@;
                assert(mid.outgoing == old_view.outgoing);
                self.abandon(p.msg_no);
                proof {
                    assert forall|other: u64| other != p.msg_no implies outgoing_of(self@, other) == outgoing_of(old_view, other) by {
                        assert(outgoing_of(mid, other) == outgoing_of(old_view, other));
                    }
                    assert(self@.incoming == mid.incoming);
                    assert forall|other: u64| other != p.msg_no implies #[trigger] incoming_of(self@, other) == incoming_of(old_view, other) by {
                        assert(incoming_of(mid, other) == incoming_of(old_view, other));
                    }
                }
                rs.push(Reaction::Completed(Message { msg_no: p.msg_no, header: m.header, body: m.body }));
            },
            PacketType::Txerr => {
                let i = self.find_in(p.msg_no);
                if i < self.incoming.len() {
                    let _m = self.incoming.remove(i);
                    proof {
                        assert(incoming_views(self.incoming@) =~= old_view.incoming.remove(i as int));
                        lemma_in_remove_self(old_view.incoming, i as int);
                        assert forall|id: u64| id != p.msg_no implies #[trigger] incoming_of(self@, id) == incoming_of(old_view, id) by {
                            lemma_incoming_remove(old_view, self@, i as int, id);
                        }
                    }
                }
                let ghost mid = self@;
                assert(mid.outgoing == old_view.outgoing);
                self.abandon(p.msg_no);
                proof {
                    assert forall|other: u64| other != p.msg_no implies outgoing_of(self@, other) == outgoing_of(old_view, other) by {
                        assert(outgoing_of(mid, other) == outgoing_of(old_view, other));
                    }
                    assert(self@.incoming == mid.incoming);
                    assert forall|other: u64| other != p.msg_no implies #[trigger] incoming_of(self@, other) == incoming_of(old_view, other) by {
                        assert(incoming_of(mid, other) == incoming_of(old_view, other));
                    }
                }
                rs.push(Reaction::Failed { msg_no: p.msg_no, reason: p.body });
            },
            PacketType::Ack => {
                let i = self.find_out(p.msg_no);
                if i == self.outgoing.len() {
                    return Err(MuxError::UnknownMessage(p.msg_no));
                }
                let n = match read_u64(p.body.as_slice(), 0, p.body.len()) {
                    Some(n) => n,
                    None => {
                        assert(p.body@.subrange(0, p.body@.len() as int) =~= p.body@);
                        return Err(MuxError::InvalidAck(p.msg_no));
                    },
                };
                assert(p.body@.subrange(0, p.body@.len() as int) =~= p.body@);
                let o = self.outgoing[i];
                if n < o.acked || n > o.sent {
                    return Err(MuxError::InvalidAck(p.msg_no));
                }
                let ghost old_out = self@.outgoing;
                let updated = Outgoing { acked: n, ..o };
                self.outgoing.set(i, updated);
                assert(self@.outgoing =~= old_out.update(i as int, updated));
                proof {
                    lemma_out_pos_bounds(old_out, p.msg_no, 0);
                    lemma_out_pos_update(old_out, i as int, updated);
                    assert forall|id: u64| id != p.msg_no implies outgoing_of(self@, id) == outgoing_of(old_view, id) by {
                        lemma_out_pos_bounds(old_out, id, 0);
                    }
                    assert(out_pos(self@.outgoing, p.msg_no, 0) == i);
                    assert(outgoing_of(self@, p.msg_no) == Some(updated));
                    assert(outgoing_of(old_view, p.msg_no) == Some(o));
                }
            },
            PacketType::Ping => {
                rs.push(Reaction::Send(Packet { packet_type: PacketType::Pong, msg_no: p.msg_no, packet_header: None, body: Vec::new() }));
            },
            PacketType::Pong => {},
        }
        let ghost pre = self@;
        self.silent_ticks = 0;
        proof {
            assert(self@.incoming == pre.incoming && self@.outgoing == pre.outgoing);
            assert forall|id: u64| id != p.msg_no implies #[trigger] incoming_of(self@, id) == incoming_of(old_view, id) by {
                assert(incoming_of(self@, id) == incoming_of(pre, id));
                if p.packet_type == PacketType::Ack || p.packet_type == PacketType::Ping || p.packet_type == PacketType::Pong {
                    assert(pre.incoming == old_view.incoming);
                } else {
                    assert(incoming_of(pre, id) == incoming_of(old_view, id));
                }
            }
            assert forall|id: u64| #[trigger] flow_kept(old_view, self@, p, id) by {
                if p.packet_type == PacketType::Ack && id == p.msg_no {
                } else if (p.packet_type == PacketType::Eof || p.packet_type == PacketType::Txerr) && id == p.msg_no {
                    assert(outgoing_of(self@, id) is None);
                } else {
                    assert(outgoing_of(self@, id) == outgoing_of(old_view, id));
                }
            }
            assert forall|k: int| 0 <= k < rs@.len() implies !(#[trigger] rs@[k] matches Reaction::Send(q) && is_data(q)) by {}
        }
        Ok(rs)
    }

    /// Forgets sent message `id`, if it is there: a caller that gives up on
    /// a request frees its place, and no other message is touched.
    pub fn abandon(&mut self, id: u64)
        requires
            old(self).wf(),
        ensures
            final(self).wf(),
            final(self)@.incoming == old(self)@.incoming,
            final(self)@.next_id == old(self)@.next_id,
            final(self)@.failed == old(self)@.failed,
            final(self)@.silent_ticks == old(self)@.silent_ticks,
            final(self)@.max_silent_ticks == old(self)@.max_silent_ticks,
            outgoing_of(final(self)@, id) is None,
            forall|other: u64| other != id ==> #[trigger] outgoing_of(final(self)@, other) == outgoing_of(old(self)@, other),
    {
        let i = self.find_out(id);
        if i < self.outgoing.len() {
            let ghost s = self@.outgoing;
            let _o = self.outgoing.remove(i);
            assert(self@.outgoing == s.remove(i as int));
            proof {
                assert(s == old(self)@.outgoing);
                assert forall|other: u64| other != id implies #[trigger] outgoing_of(self@, other) == outgoing_of(old(self)@, other) by {
                    lemma_out_remove(s, i as int, other);
                    lemma_out_pos_bounds(s, other, 0);
                    lemma_out_pos_bounds(s.remove(i as int), other, 0);
                }
                let t = s.remove(i as int);
                lemma_out_pos_bounds(t, id, 0);
                if out_pos(t, id, 0) < t.len() {
                    let k = out_pos(t, id, 0);
                    let k0 = if k < i { k } else { k + 1 };
                    assert(s[k0].msg_no == id);
                    if k0 < i {
                        assert(s[k0].msg_no != s[i as int].msg_no);
                    } else {
                        assert(s[i as int].msg_no != s[k0].msg_no);
                    }
                }
            }
        }
    }
}

proof fn lemma_in_pos_push(s: Seq<IncomingView>, id: u64, m: IncomingView)
    requires
        m.msg_no == id,
        in_pos(s, id, 0) == s.len(),
    ensures
        in_pos(s.push(m), id, 0) == s.len(),
{
    lemma_in_pos_bounds(s, id, 0);
    lemma_in_pos_bounds(s.push(m), id, 0);
    assert(s.push(m)[s.len() as int].msg_no == id);
    let p = in_pos(s.push(m), id, 0);
    if p < s.len() {
        assert(s.push(m)[p] == s[p]);
    }
}

proof fn lemma_in_pos_update(s: Seq<IncomingView>, i: int, m: IncomingView)
    requires
        0 <= i < s.len(),
        m.msg_no == s[i].msg_no,
    ensures
        forall|id: u64| in_pos(s.update(i, m), id, 0) == in_pos(s, id, 0),
{
    assert forall|id: u64| in_pos(s.update(i, m), id, 0) == in_pos(s, id, 0) by {
        lemma_in_pos_update_from(s, i, m, id, 0);
    }
}

proof fn lemma_in_pos_update_from(s: Seq<IncomingView>, i: int, m: IncomingView, id: u64, from: int)
    requires
        0 <= i < s.len(),
        0 <= from,
        m.msg_no == s[i].msg_no,
    ensures
        in_pos(s.update(i, m), id, from) == in_pos(s, id, from),
    decreases s.len() - from,
{
    if from < s.len() {
        lemma_in_pos_update_from(s, i, m, id, from + 1);
    }
}

/// After removing a message from a table of distinct numbers, its number is
/// no longer found, and the table stays distinct.
proof fn lemma_in_remove_self(s: Seq<IncomingView>, i: int)
    requires
        0 <= i < s.len(),
        forall|a: int, b: int| 0 <= a < b < s.len() ==> s[a].msg_no != s[b].msg_no,
    ensures
        in_pos(s.remove(i), s[i].msg_no, 0) == s.len() - 1,
        forall|a: int, b: int| 0 <= a < b < s.remove(i).len() ==> s.remove(i)[a].msg_no != s.remove(i)[b].msg_no,
{
    let t = s.remove(i);
    assert forall|a: int, b: int| 0 <= a < b < t.len() implies t[a].msg_no != t[b].msg_no by {
        let a0 = if a < i { a } else { a + 1 };
        let b0 = if b < i { b } else { b + 1 };
        assert(s[a0].msg_no != s[b0].msg_no);
    }
    lemma_in_pos_bounds(t, s[i].msg_no, 0);
    let k = in_pos(t, s[i].msg_no, 0);
    if k < t.len() {
        let k0 = if k < i { k } else { k + 1 };
        assert(s[k0].msg_no == s[i].msg_no);
        if k0 < i {
            assert(s[k0].msg_no != s[i].msg_no);
        } else {
            assert(s[i].msg_no != s[k0].msg_no);
        }
    }
}


/// Once the flow window of a sent message is full, it stays full through
/// any packet but an ACK for that message; and while it is full, `send_data`
/// refuses to give a DATA packet for it.
pub proof fn lemma_window_stays_full(before: ConnectionView, after: ConnectionView, p: Packet, id: u64)
    requires
        outgoing_of(before, id) is Some,
        window_full(outgoing_of(before, id)->0),
        flow_kept(before, after, p, id),
        !(p.packet_type == PacketType::Ack && p.msg_no == id),
    ensures
        outgoing_of(after, id) is Some ==> window_full(outgoing_of(after, id)->0),
{
}


proof fn lemma_in_pos_push_from(s: Seq<IncomingView>, m: IncomingView, id: u64, from: int)
    requires
        0 <= from <= s.len(),
        m.msg_no != id,
    ensures
        in_pos(s, id, from) < s.len() ==> in_pos(s.push(m), id, from) == in_pos(s, id, from),
        in_pos(s, id, from) >= s.len() ==> in_pos(s.push(m), id, from) == s.len() + 1,
    decreases s.len() - from,
{
    if from < s.len() {
        assert(s.push(m)[from] == s[from]);
        lemma_in_pos_push_from(s, m, id, from + 1);
    } else {
        assert(s.push(m)[from] == m);
        assert(in_pos(s.push(m), id, from + 1) == s.len() + 1);
    }
}

/// Adding a message leaves where a lookup finds any other.
proof fn lemma_incoming_push(c: ConnectionView, d: ConnectionView, m: IncomingView, id: u64)
    requires
        d.incoming == c.incoming.push(m),
        m.msg_no != id,
    ensures
        incoming_of(d, id) == incoming_of(c, id),
{
    lemma_in_pos_bounds(c.incoming, id, 0);
    lemma_in_pos_push_from(c.incoming, m, id, 0);
    let p = in_pos(c.incoming, id, 0);
    if p < c.incoming.len() {
        assert(d.incoming[p] == c.incoming[p]);
    }
}

/// Replacing message `i` by one of the same number leaves every other.
proof fn lemma_incoming_update(c: ConnectionView, d: ConnectionView, i: int, m: IncomingView, id: u64)
    requires
        0 <= i < c.incoming.len(),
        d.incoming == c.incoming.update(i, m),
        m.msg_no == c.incoming[i].msg_no,
        id != m.msg_no,
    ensures
        incoming_of(d, id) == incoming_of(c, id),
{
    lemma_in_pos_update(c.incoming, i, m);
    lemma_in_pos_bounds(c.incoming, id, 0);
}

/// Removing one message leaves where a lookup finds any other.
proof fn lemma_incoming_remove(c: ConnectionView, d: ConnectionView, i: int, id: u64)
    requires
        0 <= i < c.incoming.len(),
        d.incoming == c.incoming.remove(i),
        id != c.incoming[i].msg_no,
        forall|a: int, b: int| 0 <= a < b < c.incoming.len() ==> c.incoming[a].msg_no != c.incoming[b].msg_no,
    ensures
        incoming_of(d, id) == incoming_of(c, id),
{
    let s = c.incoming;
    let t = d.incoming;
    lemma_in_remove_self(s, i);
    lemma_in_pos_bounds(s, id, 0);
    lemma_in_pos_bounds(t, id, 0);
    let pt = in_pos(t, id, 0);
    let ps = in_pos(s, id, 0);
    if pt < t.len() {
        let k = if pt < i { pt } else { pt + 1 };
        assert(s[k] == t[pt]);
        if ps < k {
            assert(s[ps].msg_no != s[k].msg_no);
        } else if k < ps {
            if ps < s.len() {
                assert(s[k].msg_no != s[ps].msg_no);
            }
        }
    }
    if ps < s.len() {
        let k = if ps < i { ps } else { ps - 1 };
        assert(t[k] == s[ps]);
        if pt < k {
            let k0 = if pt < i { pt } else { pt + 1 };
            assert(s[k0] == t[pt]);
            assert(s[k0].msg_no != s[ps].msg_no);
        }
    }
}

} // verus!
