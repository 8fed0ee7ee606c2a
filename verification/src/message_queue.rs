use vstd::prelude::*;

use crate::error::OzesError;
use crate::group::is_matching_ack;
use crate::group::lemma_delivery_acked;
use crate::group::spec_handle_event;
use crate::group::spec_rr_index;
use crate::group::spec_run_delivery;
use crate::group::DeliveryOutcome;
use crate::group::SpecDeliveryEvent;
use crate::group::spec_next_target;
use crate::group::DeliveryAction;
use crate::group::DeliveryEvent;
use crate::group::Group;
use crate::group::SpecGroup;
use crate::number_len;
use crate::pow10;
use crate::spec_number_len;
use crate::text::copy_bytes;
use crate::text::bytes_eq;
use crate::text::lemma_digits_value;
use crate::text::lemma_digits_wf;
use crate::text::spec_digits_value;
use crate::text::push_all;
use crate::text::render_digits;
use crate::text::spec_digits;

verus! {

// --- view helpers --------------------------------------------------------

/// The views of a list of groups.
pub open spec fn view_groups(gs: Seq<Group>) -> Seq<SpecGroup> {
    gs.map_values(|g: Group| g@)
}

/// The views of a list of byte strings.
pub open spec fn view_byte_seqs(ms: Seq<Vec<u8>>) -> Seq<Seq<u8>> {
    ms.map_values(|m: Vec<u8>| m@)
}

/// The names of a list of groups.
pub open spec fn spec_group_names(gs: Seq<SpecGroup>) -> Seq<Seq<u8>> {
    gs.map_values(|g: SpecGroup| g.name)
}

/// The first position of `name` in `names`, `-1` when it is absent.
pub open spec fn spec_find_name(names: Seq<Seq<u8>>, name: Seq<u8>) -> int
    decreases names.len(),
{
    if names.len() == 0 {
        -1
    } else if names[0] == name {
        0
    } else {
        let r = spec_find_name(names.drop_first(), name);
        if r == -1 {
            -1
        } else {
            r + 1
        }
    }
}

/// The find yields `-1` or a position inside the list, and a position
/// holds the name.
pub proof fn lemma_find_name_bounds(names: Seq<Seq<u8>>, name: Seq<u8>)
    ensures
        -1 <= spec_find_name(names, name) < names.len(),
        spec_find_name(names, name) >= 0 ==> names[spec_find_name(names, name)] == name,
    decreases names.len(),
{
    if names.len() == 0 {
    } else if names[0] == name {
    } else {
        lemma_find_name_bounds(names.drop_first(), name);
    }
}

/// A find that yields `-1` found no match at all.
pub proof fn lemma_find_name_not_found(names: Seq<Seq<u8>>, name: Seq<u8>)
    requires
        spec_find_name(names, name) == -1,
    ensures
        forall|j: int| 0 <= j < names.len() ==> #[trigger] names[j] != name,
    decreases names.len(),
{
    if names.len() == 0 {
    } else {
        lemma_find_name_bounds(names.drop_first(), name);
        lemma_find_name_not_found(names.drop_first(), name);
        assert(forall|j: int|
            1 <= j < names.len() ==> #[trigger] names[j] == names.drop_first()[j - 1]);
    }
}

/// Where no entry matches, the find yields `-1`.
pub proof fn lemma_find_name_none(names: Seq<Seq<u8>>, name: Seq<u8>)
    requires
        forall|j: int| 0 <= j < names.len() ==> #[trigger] names[j] != name,
    ensures
        spec_find_name(names, name) == -1,
    decreases names.len(),
{
    if names.len() == 0 {
    } else {
        assert(names[0] != name);
        assert(forall|j: int|
            0 <= j < names.drop_first().len() ==> #[trigger] names.drop_first()[j] == names[j
                + 1]);
        lemma_find_name_none(names.drop_first(), name);
    }
}

/// The find yields the first matching position.
pub proof fn lemma_find_name_at(names: Seq<Seq<u8>>, name: Seq<u8>, i: int)
    requires
        0 <= i < names.len(),
        names[i] == name,
        forall|j: int| 0 <= j < i ==> #[trigger] names[j] != name,
    ensures
        spec_find_name(names, name) == i,
    decreases names.len(),
{
    if i == 0 {
    } else {
        assert(names[0] != name);
        assert(forall|j: int|
            0 <= j < names.drop_first().len() ==> #[trigger] names.drop_first()[j] == names[j
                + 1]);
        lemma_find_name_at(names.drop_first(), name, i - 1);
    }
}

// --- the framed form of a dispatched message -----------------------------

/// The total byte count a broker frame declares for a payload of `mlen`
/// bytes: the least `N` that counts the payload, the digits of `N`
/// itself, and the four marker bytes — the fixed point of
/// `N == mlen + digits(N) + 4`.
pub open spec fn spec_frame_size(mlen: nat) -> nat {
    let base = mlen + spec_number_len(mlen) + 4;
    if spec_number_len(base) == spec_number_len(mlen) {
        base
    } else {
        (base + 1) as nat
    }
}

/// The declared total counts its own digits, and no smaller total does.
pub proof fn lemma_frame_size_fixed_point(mlen: nat)
    ensures
        spec_frame_size(mlen) == mlen + spec_number_len(spec_frame_size(mlen)) + 4,
        forall|smaller: nat|
            smaller < spec_frame_size(mlen) ==> smaller != mlen + spec_number_len(smaller) + 4,
{
    let d0 = spec_number_len(mlen);
    let base = mlen + d0 + 4;
    crate::lemma_number_len_mono(mlen, base);
    crate::lemma_number_len_upper(mlen);
    crate::lemma_pow10_gt(d0);
    if spec_number_len(base) == d0 {
    } else {
        // the total crossed a digit boundary: it takes one digit more
        // than the payload length, never two
        assert(base < pow10((d0 + 1) as nat)) by {
            assert(pow10((d0 + 1) as nat) == 10 * pow10(d0));
        }
        crate::lemma_number_len_bound(base, (d0 + 1) as nat);
        assert(spec_number_len(base) == d0 + 1);
        crate::lemma_number_len_mono(base, (base + 1) as nat);
        assert(base + 1 < pow10((d0 + 1) as nat)) by {
            assert(pow10((d0 + 1) as nat) == 10 * pow10(d0));
        }
        crate::lemma_number_len_bound((base + 1) as nat, (d0 + 1) as nat);
        assert(spec_number_len((base + 1) as nat) == d0 + 1);
    }
    assert forall|smaller: nat|
        smaller < spec_frame_size(mlen) implies smaller != mlen + spec_number_len(smaller)
        + 4 by {
        if smaller == mlen + spec_number_len(smaller) + 4 {
            // its digit count would sit below the payload's, though the
            // number itself is larger
            assert(spec_number_len(smaller) < d0 || (spec_number_len(smaller) == d0 && smaller
                == base));
            crate::lemma_number_len_mono(mlen, smaller);
        }
    }
}

/// The on-wire frame the broker sends to a consumer: `+l<N> #<payload>`,
/// with `N` the frame's own total byte count.
pub open spec fn spec_final_message(m: Seq<u8>) -> Seq<u8> {
    seq![43u8, 108u8] + spec_digits(spec_frame_size(m.len())) + seq![32u8, 35u8] + m
}

/// A broker frame declares exactly its own byte count: a client that
/// counts the bytes it received obtains the number written between `+l`
/// and ` #`, for every payload.
pub proof fn lemma_frame_len(m: Seq<u8>)
    ensures
        spec_final_message(m).len() == spec_frame_size(m.len()),
        spec_digits_value(spec_digits(spec_frame_size(m.len()))) == spec_frame_size(m.len()),
{
    lemma_frame_size_fixed_point(m.len());
    lemma_digits_wf(spec_frame_size(m.len()));
    lemma_digits_value(spec_frame_size(m.len()));
}


// --- one whole dispatcher pass, in spec form -------------------------------

/// What one dispatcher pass does to a queue, given what each group's
/// delivery observed: the oldest message leaves the buffer, its framed
/// form — computed once — is offered to every group in insertion order,
/// and each group moves by its own events alone, so no group's failure
/// touches another.
pub open spec fn spec_process_message(
    q: SpecInnerQueue,
    traces: Seq<Seq<SpecDeliveryEvent>>,
) -> (SpecInnerQueue, Seq<DeliveryOutcome>)
    recommends
        traces.len() == q.groups.len(),
{
    if q.messages.len() == 0 {
        (q, Seq::empty())
    } else {
        let frame_len = spec_final_message(q.messages[0]).len();
        (
            SpecInnerQueue {
                groups: Seq::new(
                    q.groups.len(),
                    |gi: int| spec_run_delivery(q.groups[gi], traces[gi], frame_len).0,
                ),
                messages: q.messages.drop_first(),
            },
            Seq::new(
                q.groups.len(),
                |gi: int| spec_run_delivery(q.groups[gi], traces[gi], frame_len).1,
            ),
        )
    }
}

/// A dispatcher pass pops exactly the oldest message, and every group
/// runs its own delivery of the same frame: group `gi` ends exactly as
/// `spec_run_delivery` on its own trace says, whatever happened in the
/// other groups.
pub proof fn lemma_process_message_groups_independent(
    q: SpecInnerQueue,
    traces: Seq<Seq<SpecDeliveryEvent>>,
)
    requires
        q.messages.len() > 0,
        traces.len() == q.groups.len(),
    ensures
        ({
            let frame_len = spec_final_message(q.messages[0]).len();
            let (q2, outs) = spec_process_message(q, traces);
            &&& q2.messages == q.messages.drop_first()
            &&& q2.groups.len() == q.groups.len()
            &&& outs.len() == q.groups.len()
            &&& forall|gi: int|
                0 <= gi < q.groups.len() ==> (#[trigger] q2.groups[gi], outs[gi])
                    == spec_run_delivery(q.groups[gi], traces[gi], frame_len)
        }),
{
}

/// The fan-out: when every group of the queue holds a consumer and each
/// acknowledges the frame at once, one dispatcher pass hands the oldest
/// message to exactly one member of every group, in insertion order, and
/// no membership changes.
pub proof fn lemma_process_message_fans_out(
    q: SpecInnerQueue,
    traces: Seq<Seq<SpecDeliveryEvent>>,
    acks: Seq<Seq<u8>>,
)
    requires
        q.messages.len() > 0,
        traces.len() == q.groups.len(),
        acks.len() == q.groups.len(),
        forall|gi: int|
            0 <= gi < q.groups.len() ==> #[trigger] q.groups[gi].connections.len() >= 1,
        forall|gi: int|
            0 <= gi < traces.len() ==> #[trigger] traces[gi] == seq![
                SpecDeliveryEvent::Ack(acks[gi]),
            ],
        forall|gi: int|
            0 <= gi < acks.len() ==> is_matching_ack(
                SpecDeliveryEvent::Ack(#[trigger] acks[gi]),
                spec_final_message(q.messages[0]).len() as nat,
            ),
    ensures
        ({
            let (q2, outs) = spec_process_message(q, traces);
            &&& q2.messages == q.messages.drop_first()
            &&& outs.len() == q.groups.len()
            &&& forall|gi: int|
                0 <= gi < outs.len() ==> #[trigger] outs[gi] == DeliveryOutcome::Delivered(
                    q.groups[gi].connections[spec_rr_index(q.groups[gi], 0nat)],
                )
            &&& forall|gi: int|
                0 <= gi < q.groups.len() ==> (#[trigger] q2.groups[gi]).connections == q.groups[
                    gi
                ].connections
        }),
{
    let frame_len = spec_final_message(q.messages[0]).len();
    let (q2, outs) = spec_process_message(q, traces);
    assert forall|gi: int| 0 <= gi < outs.len() implies #[trigger] outs[gi]
        == DeliveryOutcome::Delivered(
        q.groups[gi].connections[spec_rr_index(q.groups[gi], 0nat)],
    ) && q2.groups[gi].connections == q.groups[gi].connections by {
        lemma_delivery_acked(q.groups[gi], acks[gi], frame_len as nat);
        assert(traces[gi] == seq![SpecDeliveryEvent::Ack(acks[gi])]);
    }
}

// --- a single queue ------------------------------------------------------

/// The mathematical model of one queue: the groups enrolled in it and the
/// messages waiting in publish order, oldest first.
pub ghost struct SpecInnerQueue {
    pub groups: Seq<SpecGroup>,
    pub messages: Seq<Seq<u8>>,
}

/// A queue is well formed when each group name appears at most once.
pub open spec fn wf_inner(q: SpecInnerQueue) -> bool {
    forall|i: int, j: int|
        0 <= i < j < q.groups.len() ==> q.groups[i].name != q.groups[j].name
}

/// One named queue: a first-in-first-out message buffer, and the groups
/// the queue fans its messages out to.
pub struct InnerQueue {
    groups: Vec<Group>,
    messages: Vec<Vec<u8>>,
}

impl View for InnerQueue {
    type V = SpecInnerQueue;

    closed spec fn view(&self) -> SpecInnerQueue {
        SpecInnerQueue { groups: view_groups(self.groups@), messages: view_byte_seqs(self.messages@) }
    }
}

/// Enroll a consumer under a group name: into the first group of that
/// name, or into a fresh group appended at the end.
pub open spec fn spec_enroll(q: SpecInnerQueue, connection: u64, group_name: Seq<u8>) -> SpecInnerQueue {
    let gi = spec_find_name(spec_group_names(q.groups), group_name);
    if gi >= 0 {
        SpecInnerQueue {
            groups: q.groups.update(
                gi,
                SpecGroup {
                    name: q.groups[gi].name,
                    connections: q.groups[gi].connections.push(connection),
                    cursor: q.groups[gi].cursor,
                },
            ),
            messages: q.messages,
        }
    } else {
        SpecInnerQueue {
            groups: q.groups.push(
                SpecGroup { name: group_name, connections: seq![connection], cursor: 0nat },
            ),
            messages: q.messages,
        }
    }
}

impl InnerQueue {
    pub fn new() -> (q: InnerQueue)
        ensures
            q@.groups == Seq::<SpecGroup>::empty(),
            q@.messages == Seq::<Seq<u8>>::empty(),
    {
        let q = InnerQueue { groups: Vec::new(), messages: Vec::new() };
        proof {
            assert(q@.groups =~= Seq::<SpecGroup>::empty());
            assert(q@.messages =~= Seq::<Seq<u8>>::empty());
        }
        q
    }

    pub fn with_groups(groups: Vec<Group>) -> (q: InnerQueue)
        requires
            forall|i: int, j: int|
                0 <= i < j < groups@.len() ==> view_groups(groups@)[i].name != view_groups(
                    groups@,
                )[j].name,
        ensures
            q@.groups == view_groups(groups@),
            q@.messages == Seq::<Seq<u8>>::empty(),
            wf_inner(q@),
    {
        let q = InnerQueue { groups, messages: Vec::new() };
        proof {
            assert(q@.messages =~= Seq::<Seq<u8>>::empty());
        }
        q
    }

    /// Append a message at the back of the buffer.
    pub fn push_message(&mut self, message: Vec<u8>)
        ensures
            final(self)@.groups == old(self)@.groups,
            final(self)@.messages == old(self)@.messages.push(message@),
    {
        self.messages.push(message);
        proof {
            assert(view_byte_seqs(self.messages@) =~= old(self)@.messages.push(message@));
        }
    }

    /// Take the oldest message out of the buffer, if one waits: messages
    /// leave a queue in the order they were published.
    pub fn get_message(&mut self) -> (r: Option<Vec<u8>>)
        ensures
            final(self)@.groups == old(self)@.groups,
            ({
                match r {
                    Option::Some(m) => old(self)@.messages.len() > 0 && m@ == old(self)@.messages[0] && final(self)@.messages == old(self)@.messages.drop_first(),
                    Option::None => old(self)@.messages.len() == 0 && final(self)@.messages == old(self)@.messages,
                }
            }),
    {
        if self.messages.len() == 0 {
            return Option::None;
        }
        let m = self.messages.remove(0);
        proof {
            assert(view_byte_seqs(self.messages@) =~= old(self)@.messages.drop_first());
        }
        Option::Some(m)
    }

    /// Wrap a payload into the on-wire frame sent to consumers.
    pub fn make_final_message(&self, message: &Vec<u8>) -> (r: Vec<u8>)
        requires
            message@.len() + 25 <= usize::MAX,
        ensures
            r@ == spec_final_message(message@),
    {
        let message_len = message.len();
        let len_string = number_len(message_len);
        let base = message_len + len_string + 4;
        let final_size = if number_len(base) == len_string {
            base
        } else {
            base + 1
        };
        let mut out: Vec<u8> = vec![43u8, 108u8];
        proof {
            assert(out@ =~= seq![43u8, 108u8]);
        }
        push_all(&mut out, &render_digits(final_size));
        let sep: Vec<u8> = vec![32u8, 35u8];
        proof {
            assert(sep@ =~= seq![32u8, 35u8]);
        }
        push_all(&mut out, &sep);
        push_all(&mut out, message);
        proof {
            assert(out@ =~= spec_final_message(message@));
        }
        out
    }

    /// How many groups are enrolled.
    pub fn group_count(&self) -> (n: usize)
        ensures
            n == self@.groups.len(),
    {
        self.groups.len()
    }

    /// The first group of the given name, if any.
    pub fn find_group(&self, group_name: &Vec<u8>) -> (r: Option<usize>)
        ensures
            ({
                let gi = spec_find_name(spec_group_names(self@.groups), group_name@);
                match r {
                    Option::Some(i) => gi == i && i < self@.groups.len() && self@.groups[
                        i as int
                    ].name == group_name@,
                    Option::None => gi == -1,
                }
            }),
    {
        let ghost names = spec_group_names(self@.groups);
        let n = self.groups.len();
        let mut i: usize = 0;
        while i < n
            invariant
                n == self.groups@.len(),
                i <= n,
                names == spec_group_names(self@.groups),
                forall|j: int| 0 <= j < i ==> #[trigger] names[j] != group_name@,
            decreases n - i,
        {
            if bytes_eq(self.groups[i].name(), group_name) {
                proof {
                    assert(names[i as int] == self.groups@[i as int]@.name);
                    lemma_find_name_at(names, group_name@, i as int);
                }
                return Option::Some(i);
            }
            proof {
                assert(names[i as int] == self.groups@[i as int]@.name);
            }
            i = i + 1;
        }
        proof {
            lemma_find_name_none(names, group_name@);
        }
        Option::None
    }

    /// Enroll a consumer under a group name, creating the group when the
    /// name is new to this queue.
    pub fn enroll(&mut self, connection: u64, group_name: &Vec<u8>)
        requires
            wf_inner(old(self)@),
        ensures
            final(self)@ == spec_enroll(old(self)@, connection, group_name@),
            wf_inner(final(self)@),
    {
        match self.find_group(group_name) {
            Option::Some(gi) => {
                self.groups[gi].push_connection(connection);
                proof {
                    assert(view_groups(self.groups@) =~= spec_enroll(
                        old(self)@,
                        connection,
                        group_name@,
                    ).groups);
                    // the enrolled group keeps its name, so the names stay
                    // pairwise distinct
                    assert forall|i: int, j: int|
                        0 <= i < j < self@.groups.len() implies self@.groups[i].name
                        != self@.groups[j].name by {
                        assert(self@.groups[i].name == old(self)@.groups[i].name);
                        assert(self@.groups[j].name == old(self)@.groups[j].name);
                    }
                }
            },
            Option::None => {
                proof {
                    lemma_find_name_not_found(spec_group_names(old(self)@.groups), group_name@);
                }
                let mut g = Group::new(copy_bytes(group_name));
                g.push_connection(connection);
                self.groups.push(g);
                proof {
                    assert(g@.connections =~= seq![connection]);
                    assert(view_groups(self.groups@) =~= spec_enroll(
                        old(self)@,
                        connection,
                        group_name@,
                    ).groups);
                    // the fresh group's name was absent from the queue
                    let ghost oldlen = old(self)@.groups.len() as int;
                    assert forall|i: int, j: int|
                        0 <= i < j < self@.groups.len() implies self@.groups[i].name
                        != self@.groups[j].name by {
                        assert(self@.groups[i].name == old(self)@.groups[i].name);
                        if j < oldlen {
                            assert(self@.groups[j].name == old(self)@.groups[j].name);
                        } else {
                            assert(self@.groups[j].name == group_name@);
                            assert(spec_group_names(old(self)@.groups)[i] == old(
                                self,
                            )@.groups[i].name);
                        }
                    }
                }
            },
        }
    }

    /// Select the member of one group whose turn it is.
    pub fn group_next_target(&mut self, gi: usize) -> (r: Option<u64>)
        requires
            gi < old(self)@.groups.len(),
        ensures
            final(self)@.messages == old(self)@.messages,
            final(self)@.groups == old(self)@.groups.update(
                gi as int,
                spec_next_target(old(self)@.groups[gi as int]).0,
            ),
            r == spec_next_target(old(self)@.groups[gi as int]).1,
    {
        let r = self.groups[gi].next_target();
        proof {
            assert(view_groups(self.groups@) =~= old(self)@.groups.update(
                gi as int,
                spec_next_target(old(self)@.groups[gi as int]).0,
            ));
        }
        r
    }

    /// Feed one group what a delivery attempt observed.
    pub fn group_handle_event(&mut self, gi: usize, event: DeliveryEvent, msg_len: usize) -> (a:
        DeliveryAction)
        requires
            gi < old(self)@.groups.len(),
            old(self)@.groups[gi as int].cursor < old(self)@.groups[gi as int].connections.len(),
        ensures
            final(self)@.messages == old(self)@.messages,
            final(self)@.groups == old(self)@.groups.update(
                gi as int,
                spec_handle_event(old(self)@.groups[gi as int], event@, msg_len as nat).0,
            ),
            a@ == spec_handle_event(old(self)@.groups[gi as int], event@, msg_len as nat).1,
    {
        let a = self.groups[gi].handle_event(event, msg_len);
        proof {
            assert(view_groups(self.groups@) =~= old(self)@.groups.update(
                gi as int,
                spec_handle_event(old(self)@.groups[gi as int], event@, msg_len as nat).0,
            ));
        }
        a
    }
}

// --- the registry's transitions, in spec form -----------------------------

/// Enroll a consumer: into the named queue's named group, both created
/// lazily at the end when absent.
pub open spec fn spec_add_listener(
    m: SpecMQueue,
    connection: u64,
    queue_name: Seq<u8>,
    group_name: Seq<u8>,
) -> SpecMQueue {
    let qi = spec_find_name(m.names, queue_name);
    if qi >= 0 {
        SpecMQueue {
            names: m.names,
            queues: m.queues.update(qi, spec_enroll(m.queues[qi], connection, group_name)),
        }
    } else {
        SpecMQueue {
            names: m.names.push(queue_name),
            queues: m.queues.push(
                SpecInnerQueue {
                    groups: seq![
                        SpecGroup { name: group_name, connections: seq![connection], cursor: 0nat },
                    ],
                    messages: Seq::empty(),
                },
            ),
        }
    }
}

/// Append a payload to the named queue's buffer, creating the queue
/// lazily when absent.
pub open spec fn spec_push_message(m: SpecMQueue, message: Seq<u8>, queue_name: Seq<u8>) -> SpecMQueue {
    let qi = spec_find_name(m.names, queue_name);
    if qi >= 0 {
        SpecMQueue {
            names: m.names,
            queues: m.queues.update(
                qi,
                SpecInnerQueue {
                    groups: m.queues[qi].groups,
                    messages: m.queues[qi].messages.push(message),
                },
            ),
        }
    } else {
        SpecMQueue {
            names: m.names.push(queue_name),
            queues: m.queues.push(
                SpecInnerQueue { groups: Seq::empty(), messages: seq![message] },
            ),
        }
    }
}

// --- the registry --------------------------------------------------------

/// The mathematical model of the registry: queue names and queues, kept
/// in step, names unique.
pub ghost struct SpecMQueue {
    pub names: Seq<Seq<u8>>,
    pub queues: Seq<SpecInnerQueue>,
}

/// The process-wide registry: every queue the broker knows, by name.
/// Queues are created lazily and never destroyed.
pub struct MQueue {
    names: Vec<Vec<u8>>,
    queues: Vec<InnerQueue>,
}

/// The views of a list of queues.
pub open spec fn view_queues(qs: Seq<InnerQueue>) -> Seq<SpecInnerQueue> {
    qs.map_values(|q: InnerQueue| q@)
}

impl View for MQueue {
    type V = SpecMQueue;

    closed spec fn view(&self) -> SpecMQueue {
        SpecMQueue { names: view_byte_seqs(self.names@), queues: view_queues(self.queues@) }
    }
}

impl MQueue {
    pub open spec fn wf(&self) -> bool {
        &&& self@.names.len() == self@.queues.len()
        &&& forall|i: int, j: int|
            0 <= i < j < self@.names.len() ==> self@.names[i] != self@.names[j]
        &&& forall|qi: int| 0 <= qi < self@.queues.len() ==> wf_inner(#[trigger] self@.queues[qi])
    }

    pub fn new() -> (m: MQueue)
        ensures
            m.wf(),
            m@.names == Seq::<Seq<u8>>::empty(),
            m@.queues == Seq::<SpecInnerQueue>::empty(),
    {
        let m = MQueue { names: Vec::new(), queues: Vec::new() };
        proof {
            assert(m@.names =~= Seq::<Seq<u8>>::empty());
            assert(m@.queues =~= Seq::<SpecInnerQueue>::empty());
        }
        m
    }

    /// How many queues exist.
    pub fn queue_count(&self) -> (n: usize)
        requires
            self.wf(),
        ensures
            n == self@.queues.len(),
    {
        let n = self.queues.len();
        proof {
            assert(self@.queues.len() == self.queues@.len());
        }
        n
    }

    /// The first queue of the given name, if any.
    pub fn find_queue(&self, queue_name: &Vec<u8>) -> (r: Option<usize>)
        ensures
            ({
                let qi = spec_find_name(self@.names, queue_name@);
                match r {
                    Option::Some(i) => qi == i && i < self@.names.len() && self@.names[i as int]
                        == queue_name@,
                    Option::None => qi == -1,
                }
            }),
    {
        let ghost names = self@.names;
        let n = self.names.len();
        let mut i: usize = 0;
        while i < n
            invariant
                n == self.names@.len(),
                i <= n,
                names == self@.names,
                forall|j: int| 0 <= j < i ==> #[trigger] names[j] != queue_name@,
            decreases n - i,
        {
            if bytes_eq(&self.names[i], queue_name) {
                proof {
                    lemma_find_name_at(names, queue_name@, i as int);
                }
                return Option::Some(i);
            }
            i = i + 1;
        }
        proof {
            lemma_find_name_none(names, queue_name@);
        }
        Option::None
    }

    /// Enroll a consumer into a group under a queue, creating the queue
    /// and the group lazily.
    pub fn add_listener(&mut self, connection: u64, queue_name: &Vec<u8>, group_name: &Vec<u8>)
        requires
            old(self).wf(),
        ensures
            final(self).wf(),
            final(self)@ == spec_add_listener(old(self)@, connection, queue_name@, group_name@),
    {
        match self.find_queue(queue_name) {
            Option::Some(qi) => {
                self.queues[qi].enroll(connection, group_name);
                proof {
                    assert(view_queues(self.queues@) =~= spec_add_listener(
                        old(self)@,
                        connection,
                        queue_name@,
                        group_name@,
                    ).queues);
                }
            },
            Option::None => {
                proof {
                    lemma_find_name_not_found(old(self)@.names, queue_name@);
                }
                let mut g = Group::new(copy_bytes(group_name));
                g.push_connection(connection);
                let mut groups: Vec<Group> = Vec::new();
                groups.push(g);
                let q = InnerQueue::with_groups(groups);
                self.names.push(copy_bytes(queue_name));
                self.queues.push(q);
                proof {
                    assert(q@.groups =~= seq![
                        SpecGroup {
                            name: group_name@,
                            connections: seq![connection],
                            cursor: 0nat,
                        },
                    ]);
                    assert(view_byte_seqs(self.names@) =~= old(self)@.names.push(queue_name@));
                    assert(view_queues(self.queues@) =~= spec_add_listener(
                        old(self)@,
                        connection,
                        queue_name@,
                        group_name@,
                    ).queues);
                }
            },
        }
    }

    /// Put a published payload at the back of a queue's buffer, creating
    /// the queue lazily.
    pub fn push_message(&mut self, message: Vec<u8>, queue_name: &Vec<u8>) -> (r: Result<
        (),
        OzesError,
    >)
        requires
            old(self).wf(),
        ensures
            final(self).wf(),
            final(self)@ == spec_push_message(old(self)@, message@, queue_name@),
            r is Ok,
    {
        match self.find_queue(queue_name) {
            Option::Some(qi) => {
                self.queues[qi].push_message(message);
                proof {
                    assert(view_queues(self.queues@) =~= spec_push_message(
                        old(self)@,
                        message@,
                        queue_name@,
                    ).queues);
                }
            },
            Option::None => {
                proof {
                    lemma_find_name_not_found(old(self)@.names, queue_name@);
                }
                let ghost msg = message@;
                let mut q = InnerQueue::new();
                q.push_message(message);
                self.names.push(copy_bytes(queue_name));
                self.queues.push(q);
                proof {
                    assert(q@.messages =~= seq![msg]);
                    assert(view_byte_seqs(self.names@) =~= old(self)@.names.push(queue_name@));
                    assert(view_queues(self.queues@) =~= spec_push_message(
                        old(self)@,
                        msg,
                        queue_name@,
                    ).queues);
                }
            },
        }
        Result::Ok(())
    }

    /// The queue at a given place of the registry.
    pub fn queue_at(&self, qi: usize) -> (q: &InnerQueue)
        requires
            self.wf(),
            qi < self@.queues.len(),
        ensures
            q@ == self@.queues[qi as int],
    {
        proof {
            assert(self@.queues.len() == self.queues@.len());
        }
        &self.queues[qi]
    }

    /// Take the oldest message out of one queue's buffer.
    pub fn pop_message(&mut self, qi: usize) -> (r: Option<Vec<u8>>)
        requires
            old(self).wf(),
            qi < old(self)@.queues.len(),
        ensures
            final(self).wf(),
            final(self)@.names == old(self)@.names,
            ({
                let oldq = old(self)@.queues[qi as int];
                match r {
                    Option::Some(m) => oldq.messages.len() > 0 && m@ == oldq.messages[0] && final(self)@.queues == old(self)@.queues.update(
                        qi as int,
                        SpecInnerQueue { groups: oldq.groups, messages: oldq.messages.drop_first() },
                    ),
                    Option::None => oldq.messages.len() == 0 && final(self)@.queues == old(self)@.queues,
                }
            }),
    {
        proof {
            assert(old(self)@.queues.len() == self.queues@.len());
        }
        let r = self.queues[qi].get_message();
        proof {
            let oldq = old(self)@.queues[qi as int];
            if r is Some {
                assert(view_queues(self.queues@) =~= old(self)@.queues.update(
                    qi as int,
                    SpecInnerQueue { groups: oldq.groups, messages: oldq.messages.drop_first() },
                ));
            } else {
                assert(view_queues(self.queues@) =~= old(self)@.queues);
            }
        }
        r
    }

    /// Select, in one group of one queue, the member whose turn it is.
    pub fn queue_group_next_target(&mut self, qi: usize, gi: usize) -> (r: Option<u64>)
        requires
            old(self).wf(),
            qi < old(self)@.queues.len(),
            gi < old(self)@.queues[qi as int].groups.len(),
        ensures
            final(self).wf(),
            final(self)@.names == old(self)@.names,
            ({
                let oldq = old(self)@.queues[qi as int];
                &&& final(self)@.queues == old(self)@.queues.update(
                    qi as int,
                    SpecInnerQueue {
                        groups: oldq.groups.update(
                            gi as int,
                            spec_next_target(oldq.groups[gi as int]).0,
                        ),
                        messages: oldq.messages,
                    },
                )
                &&& r == spec_next_target(oldq.groups[gi as int]).1
            }),
    {
        proof {
            assert(old(self)@.queues.len() == self.queues@.len());
        }
        let r = self.queues[qi].group_next_target(gi);
        proof {
            let oldq = old(self)@.queues[qi as int];
            assert(view_queues(self.queues@) =~= old(self)@.queues.update(
                qi as int,
                SpecInnerQueue {
                    groups: oldq.groups.update(
                        gi as int,
                        spec_next_target(oldq.groups[gi as int]).0,
                    ),
                    messages: oldq.messages,
                },
            ));
        }
        r
    }

    /// Feed one group of one queue what a delivery attempt observed.
    pub fn queue_group_handle_event(
        &mut self,
        qi: usize,
        gi: usize,
        event: DeliveryEvent,
        msg_len: usize,
    ) -> (a: DeliveryAction)
        requires
            old(self).wf(),
            qi < old(self)@.queues.len(),
            gi < old(self)@.queues[qi as int].groups.len(),
            old(self)@.queues[qi as int].groups[gi as int].cursor < old(self)@.queues[
                qi as int
            ].groups[gi as int].connections.len(),
        ensures
            final(self).wf(),
            final(self)@.names == old(self)@.names,
            ({
                let oldq = old(self)@.queues[qi as int];
                &&& final(self)@.queues == old(self)@.queues.update(
                    qi as int,
                    SpecInnerQueue {
                        groups: oldq.groups.update(
                            gi as int,
                            spec_handle_event(oldq.groups[gi as int], event@, msg_len as nat).0,
                        ),
                        messages: oldq.messages,
                    },
                )
                &&& a@ == spec_handle_event(oldq.groups[gi as int], event@, msg_len as nat).1
            }),
    {
        proof {
            assert(old(self)@.queues.len() == self.queues@.len());
        }
        let a = self.queues[qi].group_handle_event(gi, event, msg_len);
        proof {
            let oldq = old(self)@.queues[qi as int];
            assert(view_queues(self.queues@) =~= old(self)@.queues.update(
                qi as int,
                SpecInnerQueue {
                    groups: oldq.groups.update(
                        gi as int,
                        spec_handle_event(oldq.groups[gi as int], event@, msg_len as nat).0,
                    ),
                    messages: oldq.messages,
                },
            ));
        }
        a
    }

    /// A copy of every queue name, for the dispatcher's pass.
    pub fn get_keys(&self) -> (r: Vec<Vec<u8>>)
        ensures
            view_byte_seqs(r@) == self@.names,
    {
        let n = self.names.len();
        let mut out: Vec<Vec<u8>> = Vec::new();
        let mut i: usize = 0;
        while i < n
            invariant
                n == self.names@.len(),
                i <= n,
                view_byte_seqs(out@) =~= self@.names.take(i as int),
            decreases n - i,
        {
            out.push(copy_bytes(&self.names[i]));
            proof {
                assert(view_byte_seqs(out@) =~= self@.names.take(i as int).push(
                    self@.names[i as int],
                ));
                assert(self@.names.take(i + 1) =~= self@.names.take(i as int).push(
                    self@.names[i as int],
                ));
            }
            i = i + 1;
        }
        proof {
            assert(self@.names.take(n as int) =~= self@.names);
        }
        out
    }
}

} // verus!
