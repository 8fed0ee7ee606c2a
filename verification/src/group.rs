use vstd::prelude::*;

use crate::parser::parse;
use crate::parser::spec_parse_bytes;
use crate::parser::view_commands;
use crate::parser::Command;
use crate::parser::SpecCommand;

verus! {

// --- model ---------------------------------------------------------------

/// The mathematical model of a group: its name, the consumer connections
/// enrolled in it (as connection handles), and the round-robin cursor.
pub ghost struct SpecGroup {
    pub name: Seq<u8>,
    pub connections: Seq<u64>,
    pub cursor: nat,
}

/// A named set of consumer connections of one queue. Each message the
/// queue dispatches goes to exactly one member, round-robin, and the
/// cursor names the member whose turn it is.
pub struct Group {
    name: Vec<u8>,
    connections: Vec<u64>,
    actual_con: usize,
}

impl View for Group {
    type V = SpecGroup;

    closed spec fn view(&self) -> SpecGroup {
        SpecGroup {
            name: self.name@,
            connections: self.connections@,
            cursor: self.actual_con as nat,
        }
    }
}

/// What the broker observed from one attempt to hand a message to the
/// consumer at the cursor.
#[derive(Debug, Clone, PartialEq, Eq)]
pub enum DeliveryEvent {
    /// Writing the message to the consumer failed.
    SendFailed,
    /// The consumer closed the connection before answering.
    Disconnected,
    /// No answer arrived within the time limit.
    TimedOut,
    /// The consumer answered with these bytes.
    Ack(Vec<u8>),
}

pub ghost enum SpecDeliveryEvent {
    SendFailed,
    Disconnected,
    TimedOut,
    Ack(Seq<u8>),
}

impl View for DeliveryEvent {
    type V = SpecDeliveryEvent;

    open spec fn view(&self) -> SpecDeliveryEvent {
        match self {
            DeliveryEvent::SendFailed => SpecDeliveryEvent::SendFailed,
            DeliveryEvent::Disconnected => SpecDeliveryEvent::Disconnected,
            DeliveryEvent::TimedOut => SpecDeliveryEvent::TimedOut,
            DeliveryEvent::Ack(b) => SpecDeliveryEvent::Ack(b@),
        }
    }
}

/// What the broker must do next with the message under delivery.
#[derive(Debug, Clone, PartialEq, Eq)]
pub enum DeliveryAction {
    /// The consumer at the cursor acknowledged it: the delivery is done.
    Delivered,
    /// Select a target again and offer the same message to it.
    Retry,
    /// Send this error text to the consumer at the cursor, then retry
    /// with the same message.
    NotifyError(Vec<u8>),
}

pub ghost enum SpecDeliveryAction {
    Delivered,
    Retry,
    NotifyError(Seq<u8>),
}

impl View for DeliveryAction {
    type V = SpecDeliveryAction;

    open spec fn view(&self) -> SpecDeliveryAction {
        match self {
            DeliveryAction::Delivered => SpecDeliveryAction::Delivered,
            DeliveryAction::Retry => SpecDeliveryAction::Retry,
            DeliveryAction::NotifyError(b) => SpecDeliveryAction::NotifyError(b@),
        }
    }
}

// --- the texts the group sends back on a bad acknowledgement -------------

/// `expected 'Ok' one command`, with a trailing newline.
pub open spec fn spec_msg_expected_ok_one() -> Seq<u8> {
    seq![
        101u8, 120u8, 112u8, 101u8, 99u8, 116u8, 101u8, 100u8, 32u8, 39u8, 79u8, 107u8, 39u8,
        32u8, 111u8, 110u8, 101u8, 32u8, 99u8, 111u8, 109u8, 109u8, 97u8, 110u8, 100u8, 10u8,
    ]
}

pub fn msg_expected_ok_one() -> (r: Vec<u8>)
    ensures
        r@ == spec_msg_expected_ok_one(),
{
    let r: Vec<u8> = vec![
        101u8, 120u8, 112u8, 101u8, 99u8, 116u8, 101u8, 100u8, 32u8, 39u8, 79u8, 107u8, 39u8,
        32u8, 111u8, 110u8, 101u8, 32u8, 99u8, 111u8, 109u8, 109u8, 97u8, 110u8, 100u8, 10u8,
    ];
    proof {
        assert(r@ =~= spec_msg_expected_ok_one());
    }
    r
}

/// `expected exactly one command`, with a trailing newline.
pub open spec fn spec_msg_expected_exactly_one() -> Seq<u8> {
    seq![
        101u8, 120u8, 112u8, 101u8, 99u8, 116u8, 101u8, 100u8, 32u8, 101u8, 120u8, 97u8, 99u8,
        116u8, 108u8, 121u8, 32u8, 111u8, 110u8, 101u8, 32u8, 99u8, 111u8, 109u8, 109u8, 97u8,
        110u8, 100u8, 10u8,
    ]
}

pub fn msg_expected_exactly_one() -> (r: Vec<u8>)
    ensures
        r@ == spec_msg_expected_exactly_one(),
{
    let r: Vec<u8> = vec![
        101u8, 120u8, 112u8, 101u8, 99u8, 116u8, 101u8, 100u8, 32u8, 101u8, 120u8, 97u8, 99u8,
        116u8, 108u8, 121u8, 32u8, 111u8, 110u8, 101u8, 32u8, 99u8, 111u8, 109u8, 109u8, 97u8,
        110u8, 100u8, 10u8,
    ];
    proof {
        assert(r@ =~= spec_msg_expected_exactly_one());
    }
    r
}

// --- the dispatch transitions, in spec form ------------------------------

/// Remove the connection at the cursor; the cursor stays, so the next
/// member slides into the evicted one's place.
pub open spec fn spec_evict_current(g: SpecGroup) -> SpecGroup {
    if g.cursor < g.connections.len() {
        SpecGroup {
            name: g.name,
            connections: g.connections.remove(g.cursor as int),
            cursor: g.cursor,
        }
    } else {
        g
    }
}

/// Step the cursor past the current member.
pub open spec fn spec_advance(g: SpecGroup) -> SpecGroup {
    SpecGroup { name: g.name, connections: g.connections, cursor: (g.cursor + 1) as nat }
}

/// Select the member whose turn it is: none when the group is empty;
/// otherwise the one at the cursor, the cursor reset to the front when
/// it walked off the end.
pub open spec fn spec_next_target(g: SpecGroup) -> (SpecGroup, Option<u64>) {
    if g.connections.len() == 0 {
        (g, Option::None)
    } else if g.cursor >= g.connections.len() {
        (
            SpecGroup { name: g.name, connections: g.connections, cursor: 0nat },
            Option::Some(g.connections[0]),
        )
    } else {
        (g, Option::Some(g.connections[g.cursor as int]))
    }
}

/// How the group state and the next action follow from what one delivery
/// attempt observed. `msg_len` is the byte length of the frame that was
/// sent; an acknowledgement must declare exactly that length.
pub open spec fn spec_handle_event(g: SpecGroup, ev: SpecDeliveryEvent, msg_len: nat) -> (
    SpecGroup,
    SpecDeliveryAction,
) {
    match ev {
        SpecDeliveryEvent::SendFailed => (spec_evict_current(g), SpecDeliveryAction::Retry),
        SpecDeliveryEvent::Disconnected => (spec_evict_current(g), SpecDeliveryAction::Retry),
        SpecDeliveryEvent::TimedOut => (spec_advance(g), SpecDeliveryAction::Retry),
        SpecDeliveryEvent::Ack(b) => match spec_parse_bytes(b) {
            Result::Ok(cmds) => {
                if cmds.len() == 1 {
                    match cmds[0] {
                        SpecCommand::Okay { len } => {
                            if len == msg_len {
                                (spec_advance(g), SpecDeliveryAction::Delivered)
                            } else {
                                (g, SpecDeliveryAction::Retry)
                            }
                        },
                        _ => (g, SpecDeliveryAction::NotifyError(spec_msg_expected_ok_one())),
                    }
                } else {
                    (g, SpecDeliveryAction::NotifyError(spec_msg_expected_exactly_one()))
                }
            },
            Result::Err(_) => (g, SpecDeliveryAction::NotifyError(spec_msg_expected_ok_one())),
        },
    }
}

// --- the group -----------------------------------------------------------

impl Group {
    pub fn new(name: Vec<u8>) -> (g: Group)
        ensures
            g@.name == name@,
            g@.connections == Seq::<u64>::empty(),
            g@.cursor == 0,
    {
        Group { name, connections: Vec::new(), actual_con: 0 }
    }

    pub fn name(&self) -> (n: &Vec<u8>)
        ensures
            n@ == self@.name,
    {
        &self.name
    }

    /// The cursor: which member's turn it is.
    fn actual_con(&self) -> (c: usize)
        ensures
            c == self@.cursor,
    {
        self.actual_con
    }

    /// How many consumers the group holds.
    pub fn connection_count(&self) -> (n: usize)
        ensures
            n == self@.connections.len(),
    {
        self.connections.len()
    }

    /// The consumer at a given place in the round-robin order.
    pub fn connection_at(&self, i: usize) -> (c: u64)
        requires
            i < self@.connections.len(),
        ensures
            c == self@.connections[i as int],
    {
        self.connections[i]
    }

    /// Enroll one more consumer, at the end of the round-robin order.
    pub fn push_connection(&mut self, connection: u64)
        ensures
            final(self)@.name == old(self)@.name,
            final(self)@.connections == old(self)@.connections.push(connection),
            final(self)@.cursor == old(self)@.cursor,
    {
        self.connections.push(connection);
    }

    fn reset_connection(&mut self)
        ensures
            final(self)@.name == old(self)@.name,
            final(self)@.connections == old(self)@.connections,
            final(self)@.cursor == 0,
    {
        self.actual_con = 0;
    }

    fn next_connection(&mut self)
        requires
            old(self)@.cursor < old(self)@.connections.len(),
        ensures
            final(self)@ == spec_advance(old(self)@),
    {
        let n = self.connections.len();
        proof {
            assert(self.actual_con < n);
        }
        self.actual_con = self.actual_con + 1;
    }

    fn pop_current_connection(&mut self)
        ensures
            final(self)@ == spec_evict_current(old(self)@),
    {
        if self.actual_con < self.connections.len() {
            self.connections.remove(self.actual_con);
        }
    }

    /// Select the member whose turn it is to receive the next message.
    /// `None` means the group is empty and the message is dropped.
    pub fn next_target(&mut self) -> (r: Option<u64>)
        ensures
            (final(self)@, r) == spec_next_target(old(self)@),
    {
        if self.connections.len() == 0 {
            Option::None
        } else if self.actual_con >= self.connections.len() {
            self.reset_connection();
            Option::Some(self.connections[0])
        } else {
            Option::Some(self.connections[self.actual_con])
        }
    }

    /// Take in what one delivery attempt to the member at the cursor
    /// observed, and say what to do next with the same message.
    pub fn handle_event(&mut self, event: DeliveryEvent, msg_len: usize) -> (a: DeliveryAction)
        requires
            old(self)@.cursor < old(self)@.connections.len(),
        ensures
            final(self)@ == spec_handle_event(old(self)@, event@, msg_len as nat).0,
            a@ == spec_handle_event(old(self)@, event@, msg_len as nat).1,
    {
        match event {
            DeliveryEvent::SendFailed => {
                self.pop_current_connection();
                DeliveryAction::Retry
            },
            DeliveryEvent::Disconnected => {
                self.pop_current_connection();
                DeliveryAction::Retry
            },
            DeliveryEvent::TimedOut => {
                self.next_connection();
                DeliveryAction::Retry
            },
            DeliveryEvent::Ack(bytes) => {
                let ghost b = bytes@;
                match parse(bytes) {
                    Result::Ok(cmds) => {
                        if cmds.len() == 1 {
                            proof {
                                assert(view_commands(cmds@).len() == 1);
                                assert(view_commands(cmds@)[0] == cmds@[0]@);
                            }
                            match &cmds[0] {
                                Command::Okay { len } => {
                                    if *len == msg_len {
                                        self.next_connection();
                                        DeliveryAction::Delivered
                                    } else {
                                        DeliveryAction::Retry
                                    }
                                },
                                _ => DeliveryAction::NotifyError(msg_expected_ok_one()),
                            }
                        } else {
                            proof {
                                assert(view_commands(cmds@).len() == cmds@.len());
                            }
                            DeliveryAction::NotifyError(msg_expected_exactly_one())
                        }
                    },
                    Result::Err(_) => DeliveryAction::NotifyError(msg_expected_ok_one()),
                }
            },
        }
    }
}

// --- one whole delivery, in spec form ------------------------------------

/// How one delivery session ends.
pub ghost enum DeliveryOutcome {
    /// This consumer received the message and acknowledged it.
    Delivered(u64),
    /// The group ran out of members; the message is dropped.
    Dropped,
    /// The events ran out before the session settled.
    Pending,
}

/// Run one whole delivery of a message of `msg_len` bytes: select a
/// target, feed in the next observed event, and repeat until a consumer
/// acknowledges or the group empties.
pub open spec fn spec_run_delivery(
    g: SpecGroup,
    evs: Seq<SpecDeliveryEvent>,
    msg_len: nat,
) -> (SpecGroup, DeliveryOutcome)
    decreases evs.len(),
{
    let (g1, tgt) = spec_next_target(g);
    match tgt {
        Option::None => (g1, DeliveryOutcome::Dropped),
        Option::Some(c) => {
            if evs.len() == 0 {
                (g1, DeliveryOutcome::Pending)
            } else {
                let (g2, act) = spec_handle_event(g1, evs[0], msg_len);
                if act is Delivered {
                    (g2, DeliveryOutcome::Delivered(c))
                } else {
                    spec_run_delivery(g2, evs.drop_first(), msg_len)
                }
            }
        },
    }
}

/// An event that acknowledges a frame of `msg_len` bytes: its bytes parse
/// to exactly one `ok` command declaring that length.
pub open spec fn is_matching_ack(ev: SpecDeliveryEvent, msg_len: nat) -> bool {
    match ev {
        SpecDeliveryEvent::Ack(b) => match spec_parse_bytes(b) {
            Result::Ok(cmds) => cmds.len() == 1 && (cmds[0] matches SpecCommand::Okay { len }
                && len == msg_len),
            Result::Err(_) => false,
        },
        _ => false,
    }
}

proof fn lemma_remove_contains(s: Seq<u64>, i: int, x: u64)
    requires
        0 <= i < s.len(),
        s.remove(i).contains(x),
    ensures
        s.contains(x),
{
    let j = choose|j: int| 0 <= j < s.remove(i).len() && s.remove(i)[j] == x;
    if j < i {
        assert(s[j] == x);
    } else {
        assert(s[j + 1] == x);
    }
}

/// A message is delivered to at most one consumer per group: one delivery
/// session ends `Delivered` only on an acknowledgement with the right
/// length, it names a consumer that was a member of the group, and when
/// no event of the run is such an acknowledgement, nobody receives the
/// message.
pub proof fn lemma_delivery_at_most_once(g: SpecGroup, evs: Seq<SpecDeliveryEvent>, msg_len: nat)
    ensures
        ({
            let (g2, out) = spec_run_delivery(g, evs, msg_len);
            &&& (out matches DeliveryOutcome::Delivered(c) ==> g.connections.contains(c)
                && exists|k: int| 0 <= k < evs.len() && is_matching_ack(#[trigger] evs[k], msg_len))
            &&& ((forall|k: int|
                0 <= k < evs.len() ==> !is_matching_ack(#[trigger] evs[k], msg_len)) ==> !(out
                is Delivered))
            &&& (out is Dropped ==> g2.connections.len() == 0)
        }),
    decreases evs.len(),
{
    let (g1, tgt) = spec_next_target(g);
    match tgt {
        Option::None => {},
        Option::Some(c) => {
            if evs.len() == 0 {
            } else {
                let (g2, act) = spec_handle_event(g1, evs[0], msg_len);
                if act is Delivered {
                    assert(is_matching_ack(evs[0], msg_len));
                    assert(g.connections.contains(c));
                } else {
                    lemma_delivery_at_most_once(g2, evs.drop_first(), msg_len);
                    let (g3, out) = spec_run_delivery(g2, evs.drop_first(), msg_len);
                    match out {
                        DeliveryOutcome::Delivered(c2) => {
                            // the consumer came from the (possibly shrunken) group
                            assert(g2.connections.contains(c2));
                            if g1.cursor < g1.connections.len() && g2.connections
                                != g1.connections {
                                lemma_remove_contains(g1.connections, g1.cursor as int, c2);
                            }
                            assert(g.connections.contains(c2));
                            let k = choose|k: int|
                                0 <= k < evs.drop_first().len() && is_matching_ack(
                                    #[trigger] evs.drop_first()[k],
                                    msg_len,
                                );
                            assert(evs.drop_first()[k] == evs[k + 1]);
                            assert(is_matching_ack(evs[k + 1], msg_len));
                        },
                        _ => {},
                    }
                    if forall|k: int|
                        0 <= k < evs.len() ==> !is_matching_ack(#[trigger] evs[k], msg_len) {
                        assert(forall|k: int|
                            0 <= k < evs.drop_first().len() ==> !is_matching_ack(
                                #[trigger] evs.drop_first()[k],
                                msg_len,
                            ));
                    }
                }
            }
        },
    }
}

/// Evicting the consumer at the cursor does not consume the message: the
/// step never reports `Delivered`, exactly the current target leaves the
/// group, the cursor stays where it was so the next member slides into
/// its place, and the same message is offered next to that member.
pub proof fn lemma_evict_keeps_message(g: SpecGroup, ev: SpecDeliveryEvent, msg_len: nat)
    requires
        ev is SendFailed || ev is Disconnected,
        g.cursor < g.connections.len(),
    ensures
        ({
            let (g2, act) = spec_handle_event(g, ev, msg_len);
            &&& act is Retry
            &&& g2.connections == g.connections.remove(g.cursor as int)
            &&& g2.cursor == g.cursor
            &&& (g2.connections.len() > 0 ==> spec_next_target(g2).1 == Option::Some(
                if g.cursor + 1 < g.connections.len() {
                    g.connections[g.cursor as int + 1]
                } else {
                    g2.connections[0]
                },
            ))
        }),
{
    let (g2, act) = spec_handle_event(g, ev, msg_len);
    if g2.connections.len() > 0 {
        if g.cursor + 1 < g.connections.len() {
            assert(g2.connections[g.cursor as int] == g.connections[g.cursor as int + 1]);
        }
    }
}

/// A delivery that is acknowledged at once goes to the member at the
/// (normalized) cursor, and moves the cursor one place on; the membership
/// does not change.
pub proof fn lemma_delivery_acked(g: SpecGroup, b: Seq<u8>, msg_len: nat)
    requires
        g.connections.len() > 0,
        is_matching_ack(SpecDeliveryEvent::Ack(b), msg_len),
    ensures
        ({
            let i: nat = if g.cursor >= g.connections.len() {
                0nat
            } else {
                g.cursor
            };
            let (g2, out) = spec_run_delivery(g, seq![SpecDeliveryEvent::Ack(b)], msg_len);
            &&& out == DeliveryOutcome::Delivered(g.connections[i as int])
            &&& g2.connections == g.connections
            &&& g2.name == g.name
            &&& g2.cursor == i + 1
        }),
{
    let evs: Seq<SpecDeliveryEvent> = seq![SpecDeliveryEvent::Ack(b)];
    assert(evs[0] == SpecDeliveryEvent::Ack(b));
}

/// Run one acknowledged delivery per entry: the i-th message is sent
/// with `lens[i]` bytes and acknowledged by `acks[i]`.
pub open spec fn spec_run_acked_deliveries(
    g: SpecGroup,
    acks: Seq<Seq<u8>>,
    lens: Seq<nat>,
) -> (SpecGroup, Seq<u64>)
    decreases acks.len(),
{
    if acks.len() == 0 {
        (g, Seq::empty())
    } else {
        let (g1, out) = spec_run_delivery(g, seq![SpecDeliveryEvent::Ack(acks[0])], lens[0]);
        match out {
            DeliveryOutcome::Delivered(c) => {
                let (g2, rest) = spec_run_acked_deliveries(
                    g1,
                    acks.drop_first(),
                    lens.drop_first(),
                );
                (g2, seq![c] + rest)
            },
            _ => (g1, Seq::empty()),
        }
    }
}

/// The position in the membership list whose turn the i-th delivery is:
/// the normalized cursor, then its cyclic successors.
pub open spec fn spec_rr_index(g: SpecGroup, i: nat) -> int
    decreases i,
{
    if i == 0 {
        if g.cursor >= g.connections.len() {
            0
        } else {
            g.cursor as int
        }
    } else {
        let p = spec_rr_index(g, (i - 1) as nat);
        if p + 1 < g.connections.len() {
            p + 1
        } else {
            0
        }
    }
}

proof fn lemma_rr_shift(g: SpecGroup, g1: SpecGroup, i: nat)
    requires
        g.connections.len() >= 1,
        g1.connections == g.connections,
        g1.cursor == spec_rr_index(g, 0) + 1,
    ensures
        spec_rr_index(g1, i) == spec_rr_index(g, (i + 1) as nat),
    decreases i,
{
    if i == 0 {
    } else {
        lemma_rr_shift(g, g1, (i - 1) as nat);
    }
}

/// Strict round-robin: over a run of acknowledged deliveries, the i-th
/// message goes to the member at the cursor's i-th cyclic successor, so
/// consumers of a group take strict turns; the membership does not
/// change.
pub proof fn lemma_round_robin(g: SpecGroup, acks: Seq<Seq<u8>>, lens: Seq<nat>)
    requires
        g.connections.len() >= 1,
        acks.len() == lens.len(),
        forall|i: int|
            0 <= i < acks.len() ==> is_matching_ack(
                SpecDeliveryEvent::Ack(#[trigger] acks[i]),
                lens[i],
            ),
    ensures
        ({
            let (g2, targets) = spec_run_acked_deliveries(g, acks, lens);
            &&& targets.len() == acks.len()
            &&& g2.connections == g.connections
            &&& forall|i: int|
                0 <= i < targets.len() ==> #[trigger] targets[i] == g.connections[spec_rr_index(
                    g,
                    i as nat,
                )]
        }),
    decreases acks.len(),
{
    if acks.len() == 0 {
    } else {
        assert(is_matching_ack(SpecDeliveryEvent::Ack(acks[0]), lens[0]));
        lemma_delivery_acked(g, acks[0], lens[0]);
        let (g1, out) = spec_run_delivery(g, seq![SpecDeliveryEvent::Ack(acks[0])], lens[0]);
        assert(forall|i: int|
            0 <= i < acks.drop_first().len() ==> is_matching_ack(
                SpecDeliveryEvent::Ack(#[trigger] acks.drop_first()[i]),
                lens.drop_first()[i],
            ));
        lemma_round_robin(g1, acks.drop_first(), lens.drop_first());
        let (g2, rest) = spec_run_acked_deliveries(g1, acks.drop_first(), lens.drop_first());
        let (g2b, targets) = spec_run_acked_deliveries(g, acks, lens);
        assert(targets == seq![g.connections[spec_rr_index(g, 0nat)]] + rest);
        assert forall|i: int| 0 <= i < targets.len() implies #[trigger] targets[i]
            == g.connections[spec_rr_index(g, i as nat)] by {
            if i > 0 {
                assert(targets[i] == rest[i - 1]);
                assert(rest[i - 1] == g1.connections[spec_rr_index(g1, (i - 1) as nat)]);
                lemma_rr_shift(g, g1, (i - 1) as nat);
            }
        }
    }
}

} // verus!