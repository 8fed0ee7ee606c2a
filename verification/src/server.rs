use vstd::prelude::*;

use crate::parser::Command;
use crate::parser::SpecCommand;
use crate::spec_number_len;
use crate::number_len;
use crate::text::push_all;
use crate::BASE_MESSAGE_LEN;

verus! {

// --- the texts the server puts on the wire -------------------------------

/// The reply `ok subscribed`.
pub open spec fn spec_ok_subscribed() -> Seq<u8> {
    seq![111u8, 107u8, 32u8, 115u8, 117u8, 98u8, 115u8, 99u8, 114u8, 105u8, 98u8, 101u8, 100u8]
}

pub fn ok_subscribed() -> (r: Vec<u8>)
    ensures
        r@ == spec_ok_subscribed(),
{
    let r: Vec<u8> = vec![111u8, 107u8, 32u8, 115u8, 117u8, 98u8, 115u8, 99u8, 114u8, 105u8, 98u8, 101u8, 100u8];
    proof {
        assert(r@ =~= spec_ok_subscribed());
    }
    r
}

/// The reply `ok publisher`.
pub open spec fn spec_ok_publisher() -> Seq<u8> {
    seq![111u8, 107u8, 32u8, 112u8, 117u8, 98u8, 108u8, 105u8, 115u8, 104u8, 101u8, 114u8]
}

pub fn ok_publisher() -> (r: Vec<u8>)
    ensures
        r@ == spec_ok_publisher(),
{
    let r: Vec<u8> = vec![111u8, 107u8, 32u8, 112u8, 117u8, 98u8, 108u8, 105u8, 115u8, 104u8, 101u8, 114u8];
    proof {
        assert(r@ =~= spec_ok_publisher());
    }
    r
}

/// The reply `ok message`.
pub open spec fn spec_ok_message() -> Seq<u8> {
    seq![111u8, 107u8, 32u8, 109u8, 101u8, 115u8, 115u8, 97u8, 103u8, 101u8]
}

pub fn ok_message() -> (r: Vec<u8>)
    ensures
        r@ == spec_ok_message(),
{
    let r: Vec<u8> = vec![111u8, 107u8, 32u8, 109u8, 101u8, 115u8, 115u8, 97u8, 103u8, 101u8];
    proof {
        assert(r@ =~= spec_ok_message());
    }
    r
}

/// Sent when a fresh connection opens with `message`.
pub open spec fn spec_msg_not_publisher() -> Seq<u8> {
    seq![104u8, 97u8, 118u8, 101u8, 32u8, 116u8, 111u8, 32u8, 98u8, 101u8, 32u8, 97u8, 32u8, 112u8, 117u8, 98u8, 108u8, 105u8, 115u8, 104u8, 101u8, 114u8, 32u8, 98u8, 101u8, 102u8, 111u8, 114u8, 101u8, 32u8, 115u8, 101u8, 110u8, 100u8, 32u8, 97u8, 32u8, 109u8, 101u8, 115u8, 115u8, 97u8, 103u8, 101u8]
}

pub fn msg_not_publisher() -> (r: Vec<u8>)
    ensures
        r@ == spec_msg_not_publisher(),
{
    let r: Vec<u8> = vec![104u8, 97u8, 118u8, 101u8, 32u8, 116u8, 111u8, 32u8, 98u8, 101u8, 32u8, 97u8, 32u8, 112u8, 117u8, 98u8, 108u8, 105u8, 115u8, 104u8, 101u8, 114u8, 32u8, 98u8, 101u8, 102u8, 111u8, 114u8, 101u8, 32u8, 115u8, 101u8, 110u8, 100u8, 32u8, 97u8, 32u8, 109u8, 101u8, 115u8, 115u8, 97u8, 103u8, 101u8];
    proof {
        assert(r@ =~= spec_msg_not_publisher());
    }
    r
}

/// Sent when a fresh connection opens with `ok`.
pub open spec fn spec_msg_okay_first() -> Seq<u8> {
    seq![111u8, 107u8, 32u8, 99u8, 111u8, 109u8, 109u8, 97u8, 110u8, 100u8, 32u8, 105u8, 115u8, 32u8, 97u8, 98u8, 108u8, 101u8, 32u8, 111u8, 110u8, 108u8, 121u8, 32u8, 119u8, 104u8, 101u8, 110u8, 32u8, 99u8, 108u8, 105u8, 101u8, 110u8, 116u8, 32u8, 114u8, 101u8, 99u8, 101u8, 105u8, 118u8, 101u8, 32u8, 97u8, 32u8, 109u8, 101u8, 115u8, 115u8, 97u8, 103u8, 101u8]
}

pub fn msg_okay_first() -> (r: Vec<u8>)
    ensures
        r@ == spec_msg_okay_first(),
{
    let r: Vec<u8> = vec![111u8, 107u8, 32u8, 99u8, 111u8, 109u8, 109u8, 97u8, 110u8, 100u8, 32u8, 105u8, 115u8, 32u8, 97u8, 98u8, 108u8, 101u8, 32u8, 111u8, 110u8, 108u8, 121u8, 32u8, 119u8, 104u8, 101u8, 110u8, 32u8, 99u8, 108u8, 105u8, 101u8, 110u8, 116u8, 32u8, 114u8, 101u8, 99u8, 101u8, 105u8, 118u8, 101u8, 32u8, 97u8, 32u8, 109u8, 101u8, 115u8, 115u8, 97u8, 103u8, 101u8];
    proof {
        assert(r@ =~= spec_msg_okay_first());
    }
    r
}

/// Sent when a fresh connection opens with `error`.
pub open spec fn spec_msg_error_first() -> Seq<u8> {
    seq![99u8, 97u8, 110u8, 110u8, 111u8, 116u8, 32u8, 115u8, 101u8, 110u8, 100u8, 32u8, 101u8, 114u8, 114u8, 111u8, 114u8, 32u8, 111u8, 110u8, 32u8, 102u8, 105u8, 114u8, 115u8, 116u8, 32u8, 109u8, 101u8, 115u8, 115u8, 97u8, 103u8, 101u8]
}

pub fn msg_error_first() -> (r: Vec<u8>)
    ensures
        r@ == spec_msg_error_first(),
{
    let r: Vec<u8> = vec![99u8, 97u8, 110u8, 110u8, 111u8, 116u8, 32u8, 115u8, 101u8, 110u8, 100u8, 32u8, 101u8, 114u8, 114u8, 111u8, 114u8, 32u8, 111u8, 110u8, 32u8, 102u8, 105u8, 114u8, 115u8, 116u8, 32u8, 109u8, 101u8, 115u8, 115u8, 97u8, 103u8, 101u8];
    proof {
        assert(r@ =~= spec_msg_error_first());
    }
    r
}

/// Sent when a publisher tries to subscribe.
pub open spec fn spec_msg_subscribe_as_publisher() -> Seq<u8> {
    seq![99u8, 97u8, 110u8, 110u8, 111u8, 116u8, 32u8, 115u8, 117u8, 98u8, 115u8, 99u8, 114u8, 105u8, 98u8, 101u8, 32u8, 119u8, 104u8, 101u8, 110u8, 32u8, 105u8, 115u8, 32u8, 97u8, 32u8, 112u8, 117u8, 98u8, 108u8, 105u8, 115u8, 104u8, 101u8, 114u8]
}

pub fn msg_subscribe_as_publisher() -> (r: Vec<u8>)
    ensures
        r@ == spec_msg_subscribe_as_publisher(),
{
    let r: Vec<u8> = vec![99u8, 97u8, 110u8, 110u8, 111u8, 116u8, 32u8, 115u8, 117u8, 98u8, 115u8, 99u8, 114u8, 105u8, 98u8, 101u8, 32u8, 119u8, 104u8, 101u8, 110u8, 32u8, 105u8, 115u8, 32u8, 97u8, 32u8, 112u8, 117u8, 98u8, 108u8, 105u8, 115u8, 104u8, 101u8, 114u8];
    proof {
        assert(r@ =~= spec_msg_subscribe_as_publisher());
    }
    r
}

/// Sent when a publisher claims a queue again.
pub open spec fn spec_msg_publisher_again() -> Seq<u8> {
    seq![99u8, 97u8, 110u8, 110u8, 111u8, 116u8, 32u8, 99u8, 104u8, 97u8, 110u8, 103u8, 101u8, 32u8, 113u8, 117u8, 101u8, 117u8, 101u8, 32u8, 119u8, 104u8, 101u8, 110u8, 32u8, 97u8, 108u8, 114u8, 101u8, 97u8, 100u8, 121u8, 32u8, 105u8, 115u8, 32u8, 97u8, 32u8, 112u8, 117u8, 98u8, 108u8, 105u8, 115u8, 104u8, 101u8, 114u8]
}

pub fn msg_publisher_again() -> (r: Vec<u8>)
    ensures
        r@ == spec_msg_publisher_again(),
{
    let r: Vec<u8> = vec![99u8, 97u8, 110u8, 110u8, 111u8, 116u8, 32u8, 99u8, 104u8, 97u8, 110u8, 103u8, 101u8, 32u8, 113u8, 117u8, 101u8, 117u8, 101u8, 32u8, 119u8, 104u8, 101u8, 110u8, 32u8, 97u8, 108u8, 114u8, 101u8, 97u8, 100u8, 121u8, 32u8, 105u8, 115u8, 32u8, 97u8, 32u8, 112u8, 117u8, 98u8, 108u8, 105u8, 115u8, 104u8, 101u8, 114u8];
    proof {
        assert(r@ =~= spec_msg_publisher_again());
    }
    r
}

/// Sent when a publisher sends an `ok`.
pub open spec fn spec_msg_okay_as_publisher() -> Seq<u8> {
    seq![111u8, 107u8, 32u8, 99u8, 111u8, 109u8, 109u8, 97u8, 110u8, 100u8, 32u8, 105u8, 115u8, 32u8, 111u8, 110u8, 108u8, 121u8, 32u8, 97u8, 98u8, 108u8, 101u8, 32u8, 116u8, 111u8, 32u8, 115u8, 117u8, 98u8, 115u8, 99u8, 114u8, 105u8, 98u8, 101u8, 114u8, 115u8, 32u8, 119u8, 104u8, 101u8, 110u8, 32u8, 114u8, 101u8, 99u8, 101u8, 105u8, 118u8, 101u8, 32u8, 109u8, 101u8, 115u8, 115u8, 97u8, 103u8, 101u8]
}

pub fn msg_okay_as_publisher() -> (r: Vec<u8>)
    ensures
        r@ == spec_msg_okay_as_publisher(),
{
    let r: Vec<u8> = vec![111u8, 107u8, 32u8, 99u8, 111u8, 109u8, 109u8, 97u8, 110u8, 100u8, 32u8, 105u8, 115u8, 32u8, 111u8, 110u8, 108u8, 121u8, 32u8, 97u8, 98u8, 108u8, 101u8, 32u8, 116u8, 111u8, 32u8, 115u8, 117u8, 98u8, 115u8, 99u8, 114u8, 105u8, 98u8, 101u8, 114u8, 115u8, 32u8, 119u8, 104u8, 101u8, 110u8, 32u8, 114u8, 101u8, 99u8, 101u8, 105u8, 118u8, 101u8, 32u8, 109u8, 101u8, 115u8, 115u8, 97u8, 103u8, 101u8];
    proof {
        assert(r@ =~= spec_msg_okay_as_publisher());
    }
    r
}

/// Sent when a declared frame length disagrees with the computed one.
pub open spec fn spec_msg_invalid_len() -> Seq<u8> {
    seq![105u8, 110u8, 118u8, 97u8, 108u8, 105u8, 100u8, 32u8, 109u8, 101u8, 115u8, 115u8, 97u8, 103u8, 101u8, 32u8, 108u8, 101u8, 110u8, 103u8, 116u8, 104u8]
}

pub fn msg_invalid_len() -> (r: Vec<u8>)
    ensures
        r@ == spec_msg_invalid_len(),
{
    let r: Vec<u8> = vec![105u8, 110u8, 118u8, 97u8, 108u8, 105u8, 100u8, 32u8, 109u8, 101u8, 115u8, 115u8, 97u8, 103u8, 101u8, 32u8, 108u8, 101u8, 110u8, 103u8, 116u8, 104u8];
    proof {
        assert(r@ =~= spec_msg_invalid_len());
    }
    r
}

/// The wire form of an error reply: `error "<text>"`.
pub open spec fn spec_error_frame(m: Seq<u8>) -> Seq<u8> {
    seq![101u8, 114u8, 114u8, 111u8, 114u8, 32u8, 34u8] + m + seq![34u8]
}

/// Wrap an error text into the on-wire form `error "<text>"`.
pub fn make_error_frame(m: &Vec<u8>) -> (r: Vec<u8>)
    requires
        m@.len() + 8 <= usize::MAX,
    ensures
        r@ == spec_error_frame(m@),
{
    let mut out: Vec<u8> = vec![101u8, 114u8, 114u8, 111u8, 114u8, 32u8, 34u8];
    push_all(&mut out, m);
    out.push(34u8);
    proof {
        assert(out@ =~= spec_error_frame(m@));
    }
    out
}

// --- the handshake: what to do with a connection's first command ----------

/// What the server does with one command of a connection's first frame.
#[derive(Debug, Clone, PartialEq, Eq)]
pub enum FirstAction {
    /// Enroll the connection as a consumer of this queue, under this
    /// group, and reply `ok subscribed`.
    Subscribe { queue_name: Vec<u8>, group_name: Vec<u8> },
    /// Make the connection the publisher of this queue, reply
    /// `ok publisher`, and enter the publisher loop.
    BecomePublisher { queue_name: Vec<u8> },
    /// Send `error "<reply>"` and end the connection's task.
    Reject { reply: Vec<u8> },
}

pub ghost enum SpecFirstAction {
    Subscribe { queue_name: Seq<u8>, group_name: Seq<u8> },
    BecomePublisher { queue_name: Seq<u8> },
    Reject { reply: Seq<u8> },
}

impl View for FirstAction {
    type V = SpecFirstAction;

    open spec fn view(&self) -> SpecFirstAction {
        match self {
            FirstAction::Subscribe { queue_name, group_name } => SpecFirstAction::Subscribe {
                queue_name: queue_name@,
                group_name: group_name@,
            },
            FirstAction::BecomePublisher { queue_name } => SpecFirstAction::BecomePublisher {
                queue_name: queue_name@,
            },
            FirstAction::Reject { reply } => SpecFirstAction::Reject { reply: reply@ },
        }
    }
}

/// The handshake rule: a first frame may subscribe or claim the
/// publisher role; anything else is turned away with the reason.
pub open spec fn spec_handle_first_command(c: SpecCommand) -> SpecFirstAction {
    match c {
        SpecCommand::Subscriber { queue_name, group_name } => SpecFirstAction::Subscribe {
            queue_name,
            group_name,
        },
        SpecCommand::Publisher { queue_name } => SpecFirstAction::BecomePublisher { queue_name },
        SpecCommand::Message { .. } => SpecFirstAction::Reject {
            reply: spec_msg_not_publisher(),
        },
        SpecCommand::Okay { .. } => SpecFirstAction::Reject { reply: spec_msg_okay_first() },
        SpecCommand::Error { .. } => SpecFirstAction::Reject { reply: spec_msg_error_first() },
    }
}

/// Decide what to do with one command of a connection's first frame.
pub fn handle_first_command(command: Command) -> (a: FirstAction)
    ensures
        a@ == spec_handle_first_command(command@),
{
    match command {
        Command::Subscriber { queue_name, group_name } => FirstAction::Subscribe {
            queue_name,
            group_name,
        },
        Command::Publisher { queue_name } => FirstAction::BecomePublisher { queue_name },
        Command::Message { .. } => FirstAction::Reject { reply: msg_not_publisher() },
        Command::Okay { .. } => FirstAction::Reject { reply: msg_okay_first() },
        Command::Error { .. } => FirstAction::Reject { reply: msg_error_first() },
    }
}

// --- the publisher loop: what to do with a publisher's command ------------

/// What the server does with one command read from a publisher.
#[derive(Debug, Clone, PartialEq, Eq)]
pub enum PublisherAction {
    /// The declared length checks out: reply `ok message` and put the
    /// payload on the publisher's queue.
    Publish { message: Vec<u8> },
    /// Send `error "<reply>"` and keep the publisher loop going.
    Reject { reply: Vec<u8> },
    /// The declared length disagrees with the computed one: send
    /// `error "<reply>"`, do not enqueue, and end the publisher's task.
    InvalidLen { computed: usize, reply: Vec<u8> },
    /// The publisher sent `error`: end its task.
    Terminate,
}

pub ghost enum SpecPublisherAction {
    Publish { message: Seq<u8> },
    Reject { reply: Seq<u8> },
    InvalidLen { computed: nat, reply: Seq<u8> },
    Terminate,
}

impl View for PublisherAction {
    type V = SpecPublisherAction;

    open spec fn view(&self) -> SpecPublisherAction {
        match self {
            PublisherAction::Publish { message } => SpecPublisherAction::Publish {
                message: message@,
            },
            PublisherAction::Reject { reply } => SpecPublisherAction::Reject { reply: reply@ },
            PublisherAction::InvalidLen { computed, reply } => SpecPublisherAction::InvalidLen {
                computed: *computed as nat,
                reply: reply@,
            },
            PublisherAction::Terminate => SpecPublisherAction::Terminate,
        }
    }
}

/// The length a `message` command must declare for its payload: the
/// payload's bytes, the digits of the payload's length, and the fixed
/// `message +l #` text.
pub open spec fn spec_expected_len(message: Seq<u8>) -> nat {
    message.len() + spec_number_len(message.len()) + BASE_MESSAGE_LEN as nat
}

/// The publisher rule: a `message` whose declared length checks out is
/// published; one with a wrong length is refused and ends the task; a
/// role-changing or acknowledging command is turned away with the
/// reason; an `error` ends the task.
pub open spec fn spec_process_publisher_command(c: SpecCommand) -> SpecPublisherAction {
    match c {
        SpecCommand::Message { message, len } => {
            if len == spec_expected_len(message) {
                SpecPublisherAction::Publish { message }
            } else {
                SpecPublisherAction::InvalidLen {
                    computed: spec_expected_len(message),
                    reply: spec_msg_invalid_len(),
                }
            }
        },
        SpecCommand::Subscriber { .. } => SpecPublisherAction::Reject {
            reply: spec_msg_subscribe_as_publisher(),
        },
        SpecCommand::Publisher { .. } => SpecPublisherAction::Reject {
            reply: spec_msg_publisher_again(),
        },
        SpecCommand::Okay { .. } => SpecPublisherAction::Reject {
            reply: spec_msg_okay_as_publisher(),
        },
        SpecCommand::Error { .. } => SpecPublisherAction::Terminate,
    }
}

/// Decide what to do with one command read from a publisher.
pub fn process_publisher_command(command: Command) -> (a: PublisherAction)
    requires
        command@ matches SpecCommand::Message { message, .. } ==> message.len() + 32
            <= usize::MAX,
    ensures
        a@ == spec_process_publisher_command(command@),
{
    match command {
        Command::Message { message, len } => {
            let message_len = message.len();
            let expected = message_len + number_len(message_len) + BASE_MESSAGE_LEN;
            if len == expected {
                PublisherAction::Publish { message }
            } else {
                PublisherAction::InvalidLen { computed: expected, reply: msg_invalid_len() }
            }
        },
        Command::Subscriber { .. } => PublisherAction::Reject {
            reply: msg_subscribe_as_publisher(),
        },
        Command::Publisher { .. } => PublisherAction::Reject { reply: msg_publisher_again() },
        Command::Okay { .. } => PublisherAction::Reject { reply: msg_okay_as_publisher() },
        Command::Error { .. } => PublisherAction::Terminate,
    }
}

} // verus!
