use ozes::message_queue::InnerQueue;
use ozes::message_queue::MQueue;
use ozes::number_len;
use ozes::parser::parse;
use ozes::parser::Command;
use ozes::wire::serialize;

#[test]
fn serialize_writes_the_wire_text() {
    assert_eq!(
        serialize(&Command::Subscriber {
            queue_name: b"foo".to_vec(),
            group_name: b"bar".to_vec()
        }),
        b"subscribe foo with group bar".to_vec()
    );
    assert_eq!(
        serialize(&Command::Publisher { queue_name: b"foo".to_vec() }),
        b"publisher foo".to_vec()
    );
    assert_eq!(
        serialize(&Command::Message { message: b"hi".to_vec(), len: 16 }),
        b"message +l16 #\"hi\"".to_vec()
    );
    assert_eq!(serialize(&Command::Okay { len: 7 }), b"ok +l7 #".to_vec());
    assert_eq!(
        serialize(&Command::Error { message: b"boom".to_vec() }),
        b"error \"boom\"".to_vec()
    );
}

#[test]
fn every_command_kind_survives_the_round_trip() {
    let cases = vec![
        Command::Subscriber { queue_name: b"orders".to_vec(), group_name: b"billing".to_vec() },
        Command::Publisher { queue_name: b"orders".to_vec() },
        Command::Message { message: b"payload bytes; \x01\x02".to_vec(), len: 31 },
        Command::Okay { len: 4096 },
        Command::Error { message: b"went wrong".to_vec() },
    ];
    for cmd in cases {
        let wire = serialize(&cmd);
        let back = parse(wire).expect("the wire text of a command must parse");
        assert_eq!(back, vec![cmd]);
    }
}

#[test]
fn an_empty_payload_survives_the_round_trip() {
    let cmd = Command::Message { message: Vec::new(), len: 13 };
    assert_eq!(parse(serialize(&cmd)).unwrap(), vec![cmd]);
}

#[test]
fn the_broker_frame_declares_its_own_length() {
    let q = InnerQueue::new();
    // payload of 2 bytes: total = 2 + 1 digit + 4 marker bytes = 7
    let frame = q.make_final_message(&b"hi".to_vec());
    assert_eq!(frame, b"+l7 #hi".to_vec());
    assert_eq!(frame.len(), 7);
    // payload of 10 bytes: total = 10 + 2 digits + 4 marker bytes = 16
    let frame = q.make_final_message(&b"0123456789".to_vec());
    assert_eq!(frame, b"+l16 #0123456789".to_vec());
    assert_eq!(frame.len(), 16);
}

#[test]
fn a_five_byte_payload_is_at_a_digit_boundary() {
    // 5 + 1 + 4 = 10 does not count its own second digit; the declared
    // total settles one higher, on the fixed point 11 = 5 + 2 + 4
    let q = InnerQueue::new();
    let frame = q.make_final_message(&b"hello".to_vec());
    assert_eq!(frame, b"+l11 #hello".to_vec());
    assert_eq!(frame.len(), 11);
}

#[test]
fn every_frame_declares_its_own_length() {
    let q = InnerQueue::new();
    for payload_len in 0..2000 {
        let payload = vec![b'x'; payload_len];
        let frame = q.make_final_message(&payload);
        // the digits between `+l` and ` #` spell the frame's byte count
        let digits: Vec<u8> = frame[2..].iter().copied().take_while(|b| b.is_ascii_digit()).collect();
        let declared: usize = String::from_utf8(digits).unwrap().parse().unwrap();
        assert_eq!(declared, frame.len(), "payload of {payload_len} bytes");
    }
}

#[test]
fn number_len_counts_decimal_digits() {
    assert_eq!(number_len(0), 1);
    assert_eq!(number_len(9), 1);
    assert_eq!(number_len(10), 2);
    assert_eq!(number_len(4096), 4);
    assert_eq!(number_len(usize::MAX), usize::MAX.to_string().len());
}

#[test]
fn a_buffer_sized_payload_frames_cleanly() {
    let payload = vec![b'z'; ozes::BUFFER_SIZE];
    let q = InnerQueue::new();
    // total = 4096 + 4 digits + 4 marker bytes = 4104
    let frame = q.make_final_message(&payload);
    assert!(frame.starts_with(b"+l4104 #"));
    assert_eq!(frame.len(), 4104);
}

#[test]
fn an_empty_queue_name_round_trips_through_the_registry() {
    let mut mq = MQueue::new();
    mq.push_message(b"m".to_vec(), &Vec::new()).unwrap();
    assert_eq!(mq.get_keys(), vec![Vec::<u8>::new()]);
    let qi = mq.find_queue(&Vec::new()).unwrap();
    assert_eq!(mq.pop_message(qi), Some(b"m".to_vec()));
}
