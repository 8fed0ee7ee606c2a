use ozes::error::OzesError;
use ozes::group::DeliveryAction;
use ozes::group::DeliveryEvent;
use ozes::group::Group;
use ozes::group::msg_expected_exactly_one;
use ozes::group::msg_expected_ok_one;
use ozes::message_queue::MQueue;
use ozes::parser::parse;
use ozes::parser::Command;
use ozes::server::handle_first_command;
use ozes::server::make_error_frame;
use ozes::server::ok_message;
use ozes::server::ok_publisher;
use ozes::server::ok_subscribed;
use ozes::server::process_publisher_command;
use ozes::server::FirstAction;
use ozes::server::PublisherAction;
use ozes::wire::serialize;

/// Run one first-frame command as the handshake task would.
fn handshake(mq: &mut MQueue, connection: u64, frame: &str) -> FirstAction {
    let mut commands = parse(frame.as_bytes().to_vec()).expect("handshake frame must parse");
    assert_eq!(commands.len(), 1);
    let action = handle_first_command(commands.remove(0));
    if let FirstAction::Subscribe { queue_name, group_name } = &action {
        mq.add_listener(connection, queue_name, group_name);
    }
    action
}

/// Publish one message frame as the publisher loop would, returning the
/// payload that was enqueued.
fn publish(mq: &mut MQueue, queue: &str, frame: &str) -> Vec<u8> {
    let mut commands = parse(frame.as_bytes().to_vec()).expect("publish frame must parse");
    assert_eq!(commands.len(), 1);
    match process_publisher_command(commands.remove(0)) {
        PublisherAction::Publish { message } => {
            let payload = message.clone();
            mq.push_message(message, &queue.as_bytes().to_vec()).unwrap();
            payload
        }
        other => panic!("expected a publishable message, got {other:?}"),
    }
}

/// Pop the next message of a queue and deliver it to every group, each
/// consumer acknowledging at once; returns (frame, consumers it went to).
fn dispatch_acked(mq: &mut MQueue, queue: &str) -> (Vec<u8>, Vec<u64>) {
    let qi = mq.find_queue(&queue.as_bytes().to_vec()).expect("queue must exist");
    let payload = mq.pop_message(qi).expect("a message must be waiting");
    let frame = mq.queue_at(qi).make_final_message(&payload);
    let msg_len = frame.len();
    let mut receivers = Vec::new();
    let group_count = mq.queue_at(qi).group_count();
    for gi in 0..group_count {
        loop {
            match mq.queue_group_next_target(qi, gi) {
                None => break, // the group is empty: the message is dropped
                Some(consumer) => {
                    let ack = serialize(&Command::Okay { len: msg_len });
                    match mq.queue_group_handle_event(qi, gi, DeliveryEvent::Ack(ack), msg_len) {
                        DeliveryAction::Delivered => {
                            receivers.push(consumer);
                            break;
                        }
                        DeliveryAction::Retry => continue,
                        DeliveryAction::NotifyError(reply) => {
                            panic!("unexpected protocol error {reply:?}")
                        }
                    }
                }
            }
        }
    }
    (frame, receivers)
}

#[test]
fn solo_consumer_solo_publisher() {
    let mut mq = MQueue::new();
    // consumer: subscribe foo with group bar -> ok subscribed
    let action = handshake(&mut mq, 1, "subscribe foo with group bar");
    assert!(matches!(action, FirstAction::Subscribe { .. }));
    assert_eq!(ok_subscribed(), b"ok subscribed".to_vec());
    // publisher: publisher foo -> ok publisher
    let action = handshake(&mut mq, 2, "publisher foo");
    assert_eq!(action, FirstAction::BecomePublisher { queue_name: b"foo".to_vec() });
    assert_eq!(ok_publisher(), b"ok publisher".to_vec());
    // publisher: message with the correct computed length 2 + 1 + 12 = 15
    let payload = publish(&mut mq, "foo", "message +l15 #\"hi\"");
    assert_eq!(payload, b"hi".to_vec());
    assert_eq!(ok_message(), b"ok message".to_vec());
    // dispatch: the consumer receives the framed message and acks it
    let (frame, receivers) = dispatch_acked(&mut mq, "foo");
    assert_eq!(frame, b"+l7 #hi".to_vec());
    assert_eq!(receivers, vec![1]);
    // the queue is drained
    let qi = mq.find_queue(&b"foo".to_vec()).unwrap();
    assert_eq!(mq.pop_message(qi), None);
}

#[test]
fn two_consumers_same_group_round_robin() {
    let mut mq = MQueue::new();
    handshake(&mut mq, 1, "subscribe foo with group bar");
    handshake(&mut mq, 2, "subscribe foo with group bar");
    publish(&mut mq, "foo", "message +l14 #\"a\"");
    publish(&mut mq, "foo", "message +l14 #\"b\"");
    publish(&mut mq, "foo", "message +l14 #\"c\"");
    let (_, r1) = dispatch_acked(&mut mq, "foo");
    let (_, r2) = dispatch_acked(&mut mq, "foo");
    let (_, r3) = dispatch_acked(&mut mq, "foo");
    // strict alternation over the successful deliveries
    assert_eq!(r1, vec![1]);
    assert_eq!(r2, vec![2]);
    assert_eq!(r3, vec![1]);
}

#[test]
fn two_groups_on_one_queue() {
    let mut mq = MQueue::new();
    handshake(&mut mq, 1, "subscribe foo with group bar");
    handshake(&mut mq, 2, "subscribe foo with group baz");
    publish(&mut mq, "foo", "message +l14 #\"x\"");
    let (frame, receivers) = dispatch_acked(&mut mq, "foo");
    assert_eq!(frame, b"+l6 #x".to_vec());
    // each group delivers the same message to its one consumer
    assert_eq!(receivers, vec![1, 2]);
}

#[test]
fn consumer_disconnect_drops_the_message() {
    let mut mq = MQueue::new();
    handshake(&mut mq, 1, "subscribe foo with group bar");
    publish(&mut mq, "foo", "message +l14 #\"y\"");
    let qi = mq.find_queue(&b"foo".to_vec()).unwrap();
    let payload = mq.pop_message(qi).unwrap();
    let frame = mq.queue_at(qi).make_final_message(&payload);
    // the only consumer is gone: it is evicted, the group empties, and
    // the message counts as handled
    assert_eq!(mq.queue_group_next_target(qi, 0), Some(1));
    let action = mq.queue_group_handle_event(qi, 0, DeliveryEvent::Disconnected, frame.len());
    assert_eq!(action, DeliveryAction::Retry);
    assert_eq!(mq.queue_group_next_target(qi, 0), None);
}

#[test]
fn wrong_length_is_refused_and_not_enqueued() {
    let mut mq = MQueue::new();
    handshake(&mut mq, 1, "subscribe foo with group bar");
    handshake(&mut mq, 2, "publisher foo");
    // computed length for `hello` is 5 + 1 + 12 = 18, not 5
    let mut commands = parse(b"message +l5 #\"hello\"".to_vec()).unwrap();
    let action = process_publisher_command(commands.remove(0));
    match action {
        PublisherAction::InvalidLen { computed, reply } => {
            assert_eq!(computed, 18);
            assert_eq!(
                make_error_frame(&reply),
                b"error \"invalid message length\"".to_vec()
            );
        }
        other => panic!("expected an invalid-length refusal, got {other:?}"),
    }
    // nothing was enqueued
    let qi = mq.find_queue(&b"foo".to_vec()).unwrap();
    assert_eq!(mq.pop_message(qi), None);
}

#[test]
fn illegal_first_frame_is_rejected() {
    let mut mq = MQueue::new();
    let action = handshake(&mut mq, 1, "message +l10 #\"hi\"");
    match action {
        FirstAction::Reject { reply } => {
            assert_eq!(
                make_error_frame(&reply),
                b"error \"have to be a publisher before send a message\"".to_vec()
            );
        }
        other => panic!("expected a rejection, got {other:?}"),
    }
    // no queue was created
    assert_eq!(mq.queue_count(), 0);
}

#[test]
fn eviction_retries_the_same_message_on_the_next_consumer() {
    let mut group = Group::new(b"bar".to_vec());
    group.push_connection(1);
    group.push_connection(2);
    // sending to consumer 1 fails: it is evicted, the cursor stays, and
    // the same message is offered to consumer 2
    assert_eq!(group.next_target(), Some(1));
    assert_eq!(group.handle_event(DeliveryEvent::SendFailed, 6), DeliveryAction::Retry);
    assert_eq!(group.connection_count(), 1);
    assert_eq!(group.connection_at(0), 2);
    assert_eq!(group.next_target(), Some(2));
    let ack = serialize(&Command::Okay { len: 6 });
    assert_eq!(group.handle_event(DeliveryEvent::Ack(ack), 6), DeliveryAction::Delivered);
}

#[test]
fn a_timeout_skips_to_the_next_consumer() {
    let mut group = Group::new(b"bar".to_vec());
    group.push_connection(1);
    group.push_connection(2);
    assert_eq!(group.next_target(), Some(1));
    assert_eq!(group.handle_event(DeliveryEvent::TimedOut, 6), DeliveryAction::Retry);
    // nobody was evicted; it is simply the next member's turn
    assert_eq!(group.connection_count(), 2);
    assert_eq!(group.next_target(), Some(2));
}

#[test]
fn an_ack_with_the_wrong_length_retries_the_same_consumer() {
    let mut group = Group::new(b"bar".to_vec());
    group.push_connection(1);
    assert_eq!(group.next_target(), Some(1));
    let bad_ack = serialize(&Command::Okay { len: 5 });
    assert_eq!(group.handle_event(DeliveryEvent::Ack(bad_ack), 6), DeliveryAction::Retry);
    assert_eq!(group.next_target(), Some(1));
}

#[test]
fn a_bad_acknowledgement_notifies_the_consumer() {
    let mut group = Group::new(b"bar".to_vec());
    group.push_connection(1);
    assert_eq!(group.next_target(), Some(1));
    // not an `ok` command at all
    let action = group.handle_event(DeliveryEvent::Ack(b"publisher foo".to_vec()), 6);
    assert_eq!(action, DeliveryAction::NotifyError(msg_expected_ok_one()));
    // two commands where one was expected
    assert_eq!(group.next_target(), Some(1));
    let action = group.handle_event(DeliveryEvent::Ack(b"ok +l6 #; ok +l6 #".to_vec()), 6);
    assert_eq!(action, DeliveryAction::NotifyError(msg_expected_exactly_one()));
    // bytes that do not parse
    assert_eq!(group.next_target(), Some(1));
    let action = group.handle_event(DeliveryEvent::Ack(b"}{".to_vec()), 6);
    assert_eq!(action, DeliveryAction::NotifyError(msg_expected_ok_one()));
}

#[test]
fn messages_leave_a_queue_in_publish_order() {
    let mut mq = MQueue::new();
    mq.push_message(b"first".to_vec(), &b"q".to_vec()).unwrap();
    mq.push_message(b"second".to_vec(), &b"q".to_vec()).unwrap();
    mq.push_message(b"third".to_vec(), &b"q".to_vec()).unwrap();
    let qi = mq.find_queue(&b"q".to_vec()).unwrap();
    assert_eq!(mq.pop_message(qi), Some(b"first".to_vec()));
    assert_eq!(mq.pop_message(qi), Some(b"second".to_vec()));
    assert_eq!(mq.pop_message(qi), Some(b"third".to_vec()));
    assert_eq!(mq.pop_message(qi), None);
}

#[test]
fn queues_are_created_lazily_and_listed() {
    let mut mq = MQueue::new();
    assert_eq!(mq.get_keys(), Vec::<Vec<u8>>::new());
    mq.add_listener(1, &b"alpha".to_vec(), &b"g".to_vec());
    mq.push_message(b"m".to_vec(), &b"beta".to_vec()).unwrap();
    assert_eq!(mq.get_keys(), vec![b"alpha".to_vec(), b"beta".to_vec()]);
    assert_eq!(mq.queue_count(), 2);
    // enrolling again under the same names creates nothing new
    mq.add_listener(2, &b"alpha".to_vec(), &b"g".to_vec());
    assert_eq!(mq.queue_count(), 2);
    let qi = mq.find_queue(&b"alpha".to_vec()).unwrap();
    assert_eq!(mq.queue_at(qi).group_count(), 1);
}

#[test]
fn a_publisher_may_not_change_role() {
    let mut commands = parse(b"subscribe foo with group bar".to_vec()).unwrap();
    let action = process_publisher_command(commands.remove(0));
    assert_eq!(
        action,
        PublisherAction::Reject { reply: b"cannot subscribe when is a publisher".to_vec() }
    );
    let mut commands = parse(b"publisher other".to_vec()).unwrap();
    let action = process_publisher_command(commands.remove(0));
    assert_eq!(
        action,
        PublisherAction::Reject {
            reply: b"cannot change queue when already is a publisher".to_vec()
        }
    );
    let mut commands = parse(b"ok +l5 #".to_vec()).unwrap();
    let action = process_publisher_command(commands.remove(0));
    assert_eq!(
        action,
        PublisherAction::Reject {
            reply: b"ok command is only able to subscribers when receive message".to_vec()
        }
    );
    let mut commands = parse(b"error \"stop\"".to_vec()).unwrap();
    let action = process_publisher_command(commands.remove(0));
    assert_eq!(action, PublisherAction::Terminate);
}

#[test]
fn errors_compare_by_kind() {
    assert!(OzesError::TimeOut.is_error(OzesError::TimeOut));
    assert!(OzesError::InvalidLen(3).is_error(OzesError::InvalidLen(9)));
    assert!(
        OzesError::UnknownError(String::from("a")).is_error(OzesError::UnknownError(String::new()))
    );
    assert!(!OzesError::TimeOut.is_error(OzesError::WithouConnection));
}
