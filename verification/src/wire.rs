use vstd::prelude::*;

use crate::lexer::lemma_next_token_binary_at;
use crate::lexer::lemma_next_token_eof_at;
use crate::lexer::lemma_next_token_illegal_at;
use crate::lexer::lemma_next_token_word_at;
use crate::lexer::lemma_next_token_progress;
use crate::lexer::lemma_tokens_from_step;
use crate::lexer::lemma_scan_illegal_end;
use crate::lexer::lemma_scan_quote_end;
use crate::lexer::lemma_scan_word_end;
use crate::lexer::lemma_skip_spaces;
use crate::lexer::quotes_terminated;
use crate::lexer::scan_illegal_end;
use crate::lexer::scan_quote_end;
use crate::lexer::scan_word_end;
use crate::lexer::skip_spaces;
use crate::lexer::spec_next_token;
use crate::lexer::spec_tokenize;
use crate::lexer::spec_tokens_from;
use crate::parser::spec_parse_bytes;
use crate::parser::spec_parse_from;
use crate::parser::spec_token_value;
use crate::parser::tok_at;
use crate::text::all_digits;
use crate::text::is_ascii_space;
use crate::text::is_digit;
use crate::text::is_illegal_byte;
use crate::text::lemma_digits_value;
use crate::text::lemma_digits_wf;
use crate::text::spec_digits_value;
use crate::text::spec_lower_seq;
use crate::token::SpecToken;

use crate::parser::Command;
use crate::parser::SpecCommand;
use crate::text::is_word_byte;
use crate::text::is_word_start;
use crate::text::push_all;
use crate::text::render_digits;
use crate::text::spec_digits;
use crate::token::kw_group;
use crate::token::kw_message;
use crate::token::kw_ok;
use crate::token::kw_publisher;
use crate::token::kw_subscribe;
use crate::token::kw_with;
use crate::token::spec_kw_group;
use crate::token::spec_kw_message;
use crate::token::spec_kw_ok;
use crate::token::spec_kw_publisher;
use crate::token::spec_kw_subscribe;
use crate::token::spec_kw_with;
use crate::token::spec_word_error;
use crate::token::spec_word_token_type;
use crate::token::word_error;
use crate::token::TokenType;

verus! {

// --- what a command looks like on the wire --------------------------------

/// The length marker of a length-bearing command: `+l<digits> #`.
pub open spec fn spec_len_tail(len: nat) -> Seq<u8> {
    seq![43u8, 108u8] + spec_digits(len) + seq![32u8, 35u8]
}

/// The wire text of one command.
pub open spec fn spec_serialize(c: SpecCommand) -> Seq<u8> {
    match c {
        SpecCommand::Message { message, len } => spec_kw_message() + seq![32u8] + spec_len_tail(
            len,
        ) + seq![34u8] + message + seq![34u8],
        SpecCommand::Subscriber { queue_name, group_name } => spec_kw_subscribe() + seq![32u8]
            + queue_name + seq![32u8] + spec_kw_with() + seq![32u8] + spec_kw_group() + seq![32u8]
            + group_name,
        SpecCommand::Publisher { queue_name } => spec_kw_publisher() + seq![32u8] + queue_name,
        SpecCommand::Okay { len } => spec_kw_ok() + seq![32u8] + spec_len_tail(len),
        SpecCommand::Error { message } => spec_word_error() + seq![32u8, 34u8] + message + seq![
            34u8
        ],
    }
}

/// Write one command in its wire text.
pub fn serialize(command: &Command) -> (r: Vec<u8>)
    ensures
        r@ == spec_serialize(command@),
{
    let mut out: Vec<u8> = Vec::new();
    match command {
        Command::Message { message, len } => {
            push_all(&mut out, &kw_message());
            out.push(32u8);
            push_all(&mut out, &make_len_tail(*len));
            out.push(34u8);
            push_all(&mut out, message);
            out.push(34u8);
        },
        Command::Subscriber { queue_name, group_name } => {
            push_all(&mut out, &kw_subscribe());
            out.push(32u8);
            push_all(&mut out, queue_name);
            out.push(32u8);
            push_all(&mut out, &kw_with());
            out.push(32u8);
            push_all(&mut out, &kw_group());
            out.push(32u8);
            push_all(&mut out, group_name);
        },
        Command::Publisher { queue_name } => {
            push_all(&mut out, &kw_publisher());
            out.push(32u8);
            push_all(&mut out, queue_name);
        },
        Command::Okay { len } => {
            push_all(&mut out, &kw_ok());
            out.push(32u8);
            push_all(&mut out, &make_len_tail(*len));
        },
        Command::Error { message } => {
            push_all(&mut out, &word_error());
            out.push(32u8);
            out.push(34u8);
            push_all(&mut out, message);
            out.push(34u8);
        },
    }
    proof {
        assert(out@ =~= spec_serialize(command@));
    }
    out
}

/// Write the `+l<digits> #` length marker for a declared length.
pub fn make_len_tail(len: usize) -> (r: Vec<u8>)
    ensures
        r@ == spec_len_tail(len as nat),
{
    let mut out: Vec<u8> = vec![43u8, 108u8];
    proof {
        assert(out@ =~= seq![43u8, 108u8]);
    }
    push_all(&mut out, &render_digits(len));
    out.push(32u8);
    out.push(35u8);
    proof {
        assert(out@ =~= spec_len_tail(len as nat));
    }
    out
}

// --- which commands survive the round trip --------------------------------

/// A byte string that can stand as a queue or group name on the wire:
/// a bare word that is no keyword.
pub open spec fn wf_name(s: Seq<u8>) -> bool {
    &&& s.len() > 0
    &&& is_word_start(s[0])
    &&& forall|i: int| 0 <= i < s.len() ==> is_word_byte(#[trigger] s[i])
    &&& spec_word_token_type(s) == TokenType::Name
}

/// A payload that can stand between the quotes of a `Binary` token:
/// one with no double quote of its own.
pub open spec fn wf_payload(s: Seq<u8>) -> bool {
    forall|i: int| 0 <= i < s.len() ==> #[trigger] s[i] != 34
}

/// A command whose wire text reads back as the same command.
pub open spec fn wf_command(c: SpecCommand) -> bool {
    match c {
        SpecCommand::Message { message, len } => wf_payload(message) && len <= usize::MAX,
        SpecCommand::Subscriber { queue_name, group_name } => wf_name(queue_name) && wf_name(
            group_name,
        ),
        SpecCommand::Publisher { queue_name } => wf_name(queue_name),
        SpecCommand::Okay { len } => len <= usize::MAX,
        SpecCommand::Error { message } => wf_payload(message),
    }
}

proof fn lemma_kw_facts_message()
    ensures
        spec_kw_message().len() == 7,
        is_word_start(spec_kw_message()[0]),
        forall|k: int| 0 <= k < 7 ==> is_word_byte(#[trigger] spec_kw_message()[k]),
        spec_word_token_type(spec_kw_message()) == TokenType::Message,
        spec_lower_seq(spec_kw_message()) == spec_kw_message(),
{
    assert(spec_lower_seq(spec_kw_message()) =~= spec_kw_message());
    assert forall|k: int| 0 <= k < 7 implies is_word_byte(#[trigger] spec_kw_message()[k]) by {
        if k == 0 {
        }
        if k == 1 {
        }
        if k == 2 {
        }
        if k == 3 {
        }
        if k == 4 {
        }
        if k == 5 {
        }
        if k == 6 {
        }
    }
}

proof fn lemma_kw_facts_publisher()
    ensures
        spec_kw_publisher().len() == 9,
        is_word_start(spec_kw_publisher()[0]),
        forall|k: int| 0 <= k < 9 ==> is_word_byte(#[trigger] spec_kw_publisher()[k]),
        spec_word_token_type(spec_kw_publisher()) == TokenType::Publisher,
        spec_lower_seq(spec_kw_publisher()) == spec_kw_publisher(),
{
    assert(spec_lower_seq(spec_kw_publisher()) =~= spec_kw_publisher());
    assert forall|k: int| 0 <= k < 9 implies is_word_byte(#[trigger] spec_kw_publisher()[k]) by {
        if k == 0 {
        }
        if k == 1 {
        }
        if k == 2 {
        }
        if k == 3 {
        }
        if k == 4 {
        }
        if k == 5 {
        }
        if k == 6 {
        }
        if k == 7 {
        }
        if k == 8 {
        }
    }
}

proof fn lemma_kw_facts_subscribe()
    ensures
        spec_kw_subscribe().len() == 9,
        is_word_start(spec_kw_subscribe()[0]),
        forall|k: int| 0 <= k < 9 ==> is_word_byte(#[trigger] spec_kw_subscribe()[k]),
        spec_word_token_type(spec_kw_subscribe()) == TokenType::Subscribe,
        spec_lower_seq(spec_kw_subscribe()) == spec_kw_subscribe(),
{
    assert(spec_lower_seq(spec_kw_subscribe()) =~= spec_kw_subscribe());
    assert forall|k: int| 0 <= k < 9 implies is_word_byte(#[trigger] spec_kw_subscribe()[k]) by {
        if k == 0 {
        }
        if k == 1 {
        }
        if k == 2 {
        }
        if k == 3 {
        }
        if k == 4 {
        }
        if k == 5 {
        }
        if k == 6 {
        }
        if k == 7 {
        }
        if k == 8 {
        }
    }
}

proof fn lemma_kw_facts_with()
    ensures
        spec_kw_with().len() == 4,
        is_word_start(spec_kw_with()[0]),
        forall|k: int| 0 <= k < 4 ==> is_word_byte(#[trigger] spec_kw_with()[k]),
        spec_word_token_type(spec_kw_with()) == TokenType::With,
        spec_lower_seq(spec_kw_with()) == spec_kw_with(),
{
    assert(spec_lower_seq(spec_kw_with()) =~= spec_kw_with());
    assert forall|k: int| 0 <= k < 4 implies is_word_byte(#[trigger] spec_kw_with()[k]) by {
        if k == 0 {
        }
        if k == 1 {
        }
        if k == 2 {
        }
        if k == 3 {
        }
    }
}

proof fn lemma_kw_facts_group()
    ensures
        spec_kw_group().len() == 5,
        is_word_start(spec_kw_group()[0]),
        forall|k: int| 0 <= k < 5 ==> is_word_byte(#[trigger] spec_kw_group()[k]),
        spec_word_token_type(spec_kw_group()) == TokenType::Group,
        spec_lower_seq(spec_kw_group()) == spec_kw_group(),
{
    assert(spec_lower_seq(spec_kw_group()) =~= spec_kw_group());
    assert forall|k: int| 0 <= k < 5 implies is_word_byte(#[trigger] spec_kw_group()[k]) by {
        if k == 0 {
        }
        if k == 1 {
        }
        if k == 2 {
        }
        if k == 3 {
        }
        if k == 4 {
        }
    }
}

proof fn lemma_kw_facts_ok()
    ensures
        spec_kw_ok().len() == 2,
        is_word_start(spec_kw_ok()[0]),
        forall|k: int| 0 <= k < 2 ==> is_word_byte(#[trigger] spec_kw_ok()[k]),
        spec_word_token_type(spec_kw_ok()) == TokenType::Okay,
        spec_lower_seq(spec_kw_ok()) == spec_kw_ok(),
{
    assert(spec_lower_seq(spec_kw_ok()) =~= spec_kw_ok());
    assert forall|k: int| 0 <= k < 2 implies is_word_byte(#[trigger] spec_kw_ok()[k]) by {
        if k == 0 {
        }
        if k == 1 {
        }
    }
}

proof fn lemma_kw_facts_error()
    ensures
        spec_word_error().len() == 5,
        is_word_start(spec_word_error()[0]),
        forall|k: int| 0 <= k < 5 ==> is_word_byte(#[trigger] spec_word_error()[k]),
        spec_word_token_type(spec_word_error()) == TokenType::Name,
        spec_lower_seq(spec_word_error()) == spec_word_error(),
{
    assert(spec_lower_seq(spec_word_error()) =~= spec_word_error());
    assert(spec_word_error()[0] != spec_kw_group()[0]);
    assert forall|k: int| 0 <= k < 5 implies is_word_byte(#[trigger] spec_word_error()[k]) by {
        if k == 0 {
        }
        if k == 1 {
        }
        if k == 2 {
        }
        if k == 3 {
        }
        if k == 4 {
        }
    }
}

// --- the round trip -------------------------------------------------------

proof fn lemma_digits_chars(n: nat)
    ensures
        spec_digits(n).len() >= 1,
        forall|k: int|
            0 <= k < spec_digits(n).len() ==> is_illegal_byte(#[trigger] spec_digits(n)[k])
                && !is_word_start(spec_digits(n)[k]) && spec_digits(n)[k] != 34,
{
    lemma_digits_wf(n);
    assert forall|k: int|
        0 <= k < spec_digits(n).len() implies is_illegal_byte(#[trigger] spec_digits(n)[k])
        && !is_word_start(spec_digits(n)[k]) && spec_digits(n)[k] != 34 by {
        assert(is_digit(spec_digits(n)[k]));
    }
}

proof fn lemma_round_trip_publisher(q: Seq<u8>)
    requires
        wf_name(q),
    ensures
        spec_parse_bytes(spec_serialize(SpecCommand::Publisher { queue_name: q }))
            == Result::<Seq<SpecCommand>, Seq<u8>>::Ok(
            seq![SpecCommand::Publisher { queue_name: q }],
        ),
{
    let c = SpecCommand::Publisher { queue_name: q };
    let s = spec_serialize(c);
    let slen = s.len() as int;
    lemma_kw_facts_publisher();
    assert(slen == 10 + q.len());
    assert(forall|k: int| 0 <= k < 9 ==> s[k] == #[trigger] spec_kw_publisher()[k]);
    assert(s[9] == 32);
    assert(forall|k: int| 10 <= k < slen ==> s[k] == #[trigger] q[k - 10]);

    // first token: the keyword
    assert forall|k: int| 0 <= k < 9 implies is_word_byte(#[trigger] s[k]) by {
        assert(s[k] == spec_kw_publisher()[k]);
    }
    lemma_next_token_word_at(s, 0nat, 0nat, 9nat);
    assert(s.subrange(0, 9) =~= spec_kw_publisher());
    let t0 = spec_next_token(s, 0nat).0;
    assert(t0.token_type == TokenType::Publisher);

    // second token: the queue name
    assert forall|k: int| 10 <= k < slen implies is_word_byte(#[trigger] s[k]) by {
        assert(s[k] == q[k - 10]);
    }
    assert(is_word_start(s[10]));
    lemma_next_token_word_at(s, 9nat, 10nat, s.len());
    assert(s.subrange(10, slen) =~= q);
    let t1 = spec_next_token(s, 9nat).0;
    assert(t1.token_type == TokenType::Name);
    assert(t1.value == Option::Some(q));

    // the stream ends there
    lemma_next_token_eof_at(s, s.len());
    assert(spec_tokens_from(s, s.len()) =~= Seq::<SpecToken>::empty());
    lemma_tokens_from_step(s, 9nat);
    lemma_tokens_from_step(s, 0nat);
    let ts = spec_tokenize(s);
    assert(ts =~= seq![t0, t1]);

    // parsing those two tokens yields the command
    assert(tok_at(ts, 0).token_type == TokenType::Publisher);
    assert(tok_at(ts, 1) == t1);
    assert(spec_parse_from(ts, 2nat) == Result::<Seq<SpecCommand>, Seq<u8>>::Ok(
        Seq::<SpecCommand>::empty(),
    ));
    assert(spec_parse_from(ts, 0nat) == Result::<Seq<SpecCommand>, Seq<u8>>::Ok(seq![c] + Seq::<
        SpecCommand,
    >::empty()));
    assert(seq![c] + Seq::<SpecCommand>::empty() =~= seq![c]);
}


proof fn lemma_round_trip_okay(len: nat)
    requires
        len <= usize::MAX,
    ensures
        spec_parse_bytes(spec_serialize(SpecCommand::Okay { len }))
            == Result::<Seq<SpecCommand>, Seq<u8>>::Ok(seq![SpecCommand::Okay { len }]),
{
    let c = SpecCommand::Okay { len };
    let s = spec_serialize(c);
    let d = spec_digits(len).len() as int;
    let slen = s.len() as int;
    lemma_kw_facts_ok();
    lemma_digits_chars(len);
    lemma_digits_wf(len);
    lemma_digits_value(len);
    assert(slen == 7 + d);
    assert(forall|k: int| 0 <= k < 2 ==> s[k] == #[trigger] spec_kw_ok()[k]);
    assert(s[2] == 32);
    assert(s[3] == 43);
    assert(s[4] == 108);
    assert(forall|k: int| 5 <= k < 5 + d ==> s[k] == #[trigger] spec_digits(len)[k - 5]);
    assert(s[5 + d] == 32);
    assert(s[6 + d] == 35);

    // token: the keyword
    assert forall|k: int| 0 <= k < 2 implies is_word_byte(#[trigger] s[k]) by {
        assert(s[k] == spec_kw_ok()[k]);
    }
    lemma_next_token_word_at(s, 0nat, 0nat, 2nat);
    assert(s.subrange(0, 2) =~= spec_kw_ok());
    let t0 = spec_next_token(s, 0nat).0;
    assert(t0.token_type == TokenType::Okay);

    // token: the +l marker with its digits
    assert forall|k: int| 3 <= k < 5 + d implies is_illegal_byte(#[trigger] s[k]) by {
        if 5 <= k {
            assert(s[k] == spec_digits(len)[k - 5]);
        }
    }
    assert(!is_word_start(s[3]));
    lemma_next_token_word_at(s, 0nat, 0nat, 2nat);
    lemma_next_token_illegal_at(s, 2nat, 3nat, (5 + spec_digits(len).len()) as nat);
    let t1 = spec_next_token(s, 2nat).0;
    assert(s.subrange(3, 5 + d) =~= seq![43u8, 108u8] + spec_digits(len));
    assert(t1.token_type == TokenType::Illegal);

    // token: the closing #
    assert(!is_word_start(s[6 + d]));
    assert(is_illegal_byte(35u8));
    lemma_next_token_illegal_at(s, (5 + spec_digits(len).len()) as nat, (6
        + spec_digits(len).len()) as nat, (7 + spec_digits(len).len()) as nat);
    let t2 = spec_next_token(s, (5 + spec_digits(len).len()) as nat).0;
    assert(s.subrange(6 + d, 7 + d) =~= seq![35u8]);
    assert(t2.token_type == TokenType::Illegal);
    assert(t2.value == Option::Some(seq![35u8]));

    lemma_next_token_eof_at(s, s.len());
    assert(spec_tokens_from(s, s.len()) =~= Seq::<SpecToken>::empty());
    lemma_tokens_from_step(s, (5 + spec_digits(len).len()) as nat);
    lemma_tokens_from_step(s, 2nat);
    lemma_tokens_from_step(s, 0nat);
    let ts = spec_tokenize(s);
    assert(ts =~= seq![t0, t1, t2]);

    // parsing: `ok +l<digits> #` is one acknowledgement
    let v = seq![43u8, 108u8] + spec_digits(len);
    assert(v.skip(2) =~= spec_digits(len));
    assert(tok_at(ts, 1) == t1);
    assert(tok_at(ts, 2) == t2);
    assert(spec_parse_from(ts, 3nat) == Result::<Seq<SpecCommand>, Seq<u8>>::Ok(
        Seq::<SpecCommand>::empty(),
    ));
    assert(spec_parse_from(ts, 0nat) == Result::<Seq<SpecCommand>, Seq<u8>>::Ok(seq![c] + Seq::<
        SpecCommand,
    >::empty()));
    assert(seq![c] + Seq::<SpecCommand>::empty() =~= seq![c]);
}

proof fn lemma_round_trip_error(m: Seq<u8>)
    requires
        wf_payload(m),
    ensures
        spec_parse_bytes(spec_serialize(SpecCommand::Error { message: m }))
            == Result::<Seq<SpecCommand>, Seq<u8>>::Ok(seq![SpecCommand::Error { message: m }]),
{
    let c = SpecCommand::Error { message: m };
    let s = spec_serialize(c);
    let mlen = m.len() as int;
    let slen = s.len() as int;
    lemma_kw_facts_error();
    assert(slen == 8 + mlen);
    assert(forall|k: int| 0 <= k < 5 ==> s[k] == #[trigger] spec_word_error()[k]);
    assert(s[5] == 32);
    assert(s[6] == 34);
    assert(forall|k: int| 7 <= k < 7 + mlen ==> s[k] == #[trigger] m[k - 7]);
    assert(s[7 + mlen] == 34);

    // token: the word `error`
    assert forall|k: int| 0 <= k < 5 implies is_word_byte(#[trigger] s[k]) by {
        assert(s[k] == spec_word_error()[k]);
    }
    lemma_next_token_word_at(s, 0nat, 0nat, 5nat);
    assert(s.subrange(0, 5) =~= spec_word_error());
    let t0 = spec_next_token(s, 0nat).0;
    assert(t0.token_type == TokenType::Name);
    assert(t0.value == Option::Some(spec_word_error()));

    // token: the quoted text
    assert forall|k: int| 6 < k < 7 + mlen implies #[trigger] s[k] != 34 by {
        assert(s[k] == m[k - 7]);
    }
    lemma_next_token_binary_at(s, 5nat, 6nat, (7 + m.len()) as nat);
    let t1 = spec_next_token(s, 5nat).0;
    assert(s.subrange(7, 7 + mlen) =~= m);
    assert(t1.token_type == TokenType::Binary);
    assert(t1.value == Option::Some(m));

    lemma_next_token_eof_at(s, s.len());
    assert(spec_tokens_from(s, s.len()) =~= Seq::<SpecToken>::empty());
    lemma_tokens_from_step(s, 5nat);
    lemma_tokens_from_step(s, 0nat);
    let ts = spec_tokenize(s);
    assert(ts =~= seq![t0, t1]);

    // parsing: the word `error` then quoted text is one error command
    assert(spec_lower_seq(spec_word_error()) == spec_word_error());
    assert(tok_at(ts, 1) == t1);
    assert(spec_parse_from(ts, 2nat) == Result::<Seq<SpecCommand>, Seq<u8>>::Ok(
        Seq::<SpecCommand>::empty(),
    ));
    assert(spec_parse_from(ts, 0nat) == Result::<Seq<SpecCommand>, Seq<u8>>::Ok(seq![c] + Seq::<
        SpecCommand,
    >::empty()));
    assert(seq![c] + Seq::<SpecCommand>::empty() =~= seq![c]);
}

proof fn lemma_round_trip_message(m: Seq<u8>, len: nat)
    requires
        wf_payload(m),
        len <= usize::MAX,
    ensures
        spec_parse_bytes(spec_serialize(SpecCommand::Message { message: m, len }))
            == Result::<Seq<SpecCommand>, Seq<u8>>::Ok(
            seq![SpecCommand::Message { message: m, len }],
        ),
{
    let c = SpecCommand::Message { message: m, len };
    let s = spec_serialize(c);
    let d = spec_digits(len).len() as int;
    let mlen = m.len() as int;
    let slen = s.len() as int;
    lemma_kw_facts_message();
    lemma_digits_chars(len);
    lemma_digits_wf(len);
    lemma_digits_value(len);
    assert(slen == 14 + d + mlen);
    assert(forall|k: int| 0 <= k < 7 ==> s[k] == #[trigger] spec_kw_message()[k]);
    assert(s[7] == 32);
    assert(s[8] == 43);
    assert(s[9] == 108);
    assert(forall|k: int| 10 <= k < 10 + d ==> s[k] == #[trigger] spec_digits(len)[k - 10]);
    assert(s[10 + d] == 32);
    assert(s[11 + d] == 35);
    assert(s[12 + d] == 34);
    assert(forall|k: int| 13 + d <= k < 13 + d + mlen ==> s[k] == #[trigger] m[k - 13 - d]);
    assert(s[13 + d + mlen] == 34);

    // token: the keyword
    assert forall|k: int| 0 <= k < 7 implies is_word_byte(#[trigger] s[k]) by {
        assert(s[k] == spec_kw_message()[k]);
    }
    lemma_next_token_word_at(s, 0nat, 0nat, 7nat);
    assert(s.subrange(0, 7) =~= spec_kw_message());
    let t0 = spec_next_token(s, 0nat).0;
    assert(t0.token_type == TokenType::Message);

    // token: the +l marker with its digits
    assert forall|k: int| 8 <= k < 10 + d implies is_illegal_byte(#[trigger] s[k]) by {
        if 10 <= k {
            assert(s[k] == spec_digits(len)[k - 10]);
        }
    }
    assert(!is_word_start(s[8]));
    lemma_next_token_illegal_at(s, 7nat, 8nat, (10 + spec_digits(len).len()) as nat);
    let t1 = spec_next_token(s, 7nat).0;
    assert(s.subrange(8, 10 + d) =~= seq![43u8, 108u8] + spec_digits(len));
    assert(t1.token_type == TokenType::Illegal);

    // token: the closing #
    assert(!is_word_start(s[11 + d]));
    lemma_next_token_illegal_at(s, (10 + spec_digits(len).len()) as nat, (11
        + spec_digits(len).len()) as nat, (12 + spec_digits(len).len()) as nat);
    let t2 = spec_next_token(s, (10 + spec_digits(len).len()) as nat).0;
    assert(s.subrange(11 + d, 12 + d) =~= seq![35u8]);
    assert(t2.token_type == TokenType::Illegal);
    assert(t2.value == Option::Some(seq![35u8]));

    // token: the quoted payload
    assert forall|k: int| 12 + d < k < 13 + d + mlen implies #[trigger] s[k] != 34 by {
        assert(s[k] == m[k - 13 - d]);
    }
    lemma_next_token_binary_at(s, (12 + spec_digits(len).len()) as nat, (12
        + spec_digits(len).len()) as nat, (13 + spec_digits(len).len() + m.len()) as nat);
    let t3 = spec_next_token(s, (12 + spec_digits(len).len()) as nat).0;
    assert(s.subrange(13 + d, 13 + d + mlen) =~= m);
    assert(t3.token_type == TokenType::Binary);
    assert(t3.value == Option::Some(m));

    lemma_next_token_eof_at(s, s.len());
    assert(spec_tokens_from(s, s.len()) =~= Seq::<SpecToken>::empty());
    lemma_tokens_from_step(s, (12 + spec_digits(len).len()) as nat);
    lemma_tokens_from_step(s, (10 + spec_digits(len).len()) as nat);
    lemma_tokens_from_step(s, 7nat);
    lemma_tokens_from_step(s, 0nat);
    let ts = spec_tokenize(s);
    assert(ts =~= seq![t0, t1, t2, t3]);

    // parsing: `message +l<digits> #"<payload>"` is one message command
    let v = seq![43u8, 108u8] + spec_digits(len);
    assert(v.skip(2) =~= spec_digits(len));
    assert(tok_at(ts, 1) == t1);
    assert(tok_at(ts, 2) == t2);
    assert(tok_at(ts, 3) == t3);
    assert(spec_parse_from(ts, 4nat) == Result::<Seq<SpecCommand>, Seq<u8>>::Ok(
        Seq::<SpecCommand>::empty(),
    ));
    assert(spec_parse_from(ts, 0nat) == Result::<Seq<SpecCommand>, Seq<u8>>::Ok(seq![c] + Seq::<
        SpecCommand,
    >::empty()));
    assert(seq![c] + Seq::<SpecCommand>::empty() =~= seq![c]);
}

proof fn lemma_round_trip_subscriber(q: Seq<u8>, g: Seq<u8>)
    requires
        wf_name(q),
        wf_name(g),
    ensures
        spec_parse_bytes(spec_serialize(SpecCommand::Subscriber { queue_name: q, group_name: g }))
            == Result::<Seq<SpecCommand>, Seq<u8>>::Ok(
            seq![SpecCommand::Subscriber { queue_name: q, group_name: g }],
        ),
{
    let c = SpecCommand::Subscriber { queue_name: q, group_name: g };
    let s = spec_serialize(c);
    let ql = q.len() as int;
    let gl = g.len() as int;
    let slen = s.len() as int;
    lemma_kw_facts_subscribe();
    lemma_kw_facts_with();
    lemma_kw_facts_group();
    assert(slen == 22 + ql + gl);
    assert(forall|k: int| 0 <= k < 9 ==> s[k] == #[trigger] spec_kw_subscribe()[k]);
    assert(s[9] == 32);
    assert(forall|k: int| 10 <= k < 10 + ql ==> s[k] == #[trigger] q[k - 10]);
    assert(s[10 + ql] == 32);
    assert(forall|k: int| 11 + ql <= k < 15 + ql ==> s[k] == #[trigger] spec_kw_with()[k - 11
        - ql]);
    assert(s[15 + ql] == 32);
    assert(forall|k: int| 16 + ql <= k < 21 + ql ==> s[k] == #[trigger] spec_kw_group()[k - 16
        - ql]);
    assert(s[21 + ql] == 32);
    assert(forall|k: int| 22 + ql <= k < slen ==> s[k] == #[trigger] g[k - 22 - ql]);

    // token: the keyword `subscribe`
    assert forall|k: int| 0 <= k < 9 implies is_word_byte(#[trigger] s[k]) by {
        assert(s[k] == spec_kw_subscribe()[k]);
    }
    lemma_next_token_word_at(s, 0nat, 0nat, 9nat);
    assert(s.subrange(0, 9) =~= spec_kw_subscribe());
    let t0 = spec_next_token(s, 0nat).0;
    assert(t0.token_type == TokenType::Subscribe);

    // token: the queue name
    assert forall|k: int| 10 <= k < 10 + ql implies is_word_byte(#[trigger] s[k]) by {
        assert(s[k] == q[k - 10]);
    }
    assert(is_word_start(s[10]));
    lemma_next_token_word_at(s, 9nat, 10nat, (10 + q.len()) as nat);
    assert(s.subrange(10, 10 + ql) =~= q);
    let t1 = spec_next_token(s, 9nat).0;
    assert(t1.token_type == TokenType::Name);
    assert(t1.value == Option::Some(q));

    // token: the keyword `with`
    assert forall|k: int| 11 + ql <= k < 15 + ql implies is_word_byte(#[trigger] s[k]) by {
        assert(s[k] == spec_kw_with()[k - 11 - ql]);
    }
    assert(is_word_start(s[11 + ql]));
    lemma_next_token_word_at(s, (10 + q.len()) as nat, (11 + q.len()) as nat, (15
        + q.len()) as nat);
    assert(s.subrange(11 + ql, 15 + ql) =~= spec_kw_with());
    let t2 = spec_next_token(s, (10 + q.len()) as nat).0;
    assert(t2.token_type == TokenType::With);

    // token: the keyword `group`
    assert forall|k: int| 16 + ql <= k < 21 + ql implies is_word_byte(#[trigger] s[k]) by {
        assert(s[k] == spec_kw_group()[k - 16 - ql]);
    }
    assert(is_word_start(s[16 + ql]));
    lemma_next_token_word_at(s, (15 + q.len()) as nat, (16 + q.len()) as nat, (21
        + q.len()) as nat);
    assert(s.subrange(16 + ql, 21 + ql) =~= spec_kw_group());
    let t3 = spec_next_token(s, (15 + q.len()) as nat).0;
    assert(t3.token_type == TokenType::Group);

    // token: the group name
    assert forall|k: int| 22 + ql <= k < slen implies is_word_byte(#[trigger] s[k]) by {
        assert(s[k] == g[k - 22 - ql]);
    }
    assert(is_word_start(s[22 + ql]));
    lemma_next_token_word_at(s, (21 + q.len()) as nat, (22 + q.len()) as nat, s.len());
    assert(s.subrange(22 + ql, slen) =~= g);
    let t4 = spec_next_token(s, (21 + q.len()) as nat).0;
    assert(t4.token_type == TokenType::Name);
    assert(t4.value == Option::Some(g));

    lemma_next_token_eof_at(s, s.len());
    assert(spec_tokens_from(s, s.len()) =~= Seq::<SpecToken>::empty());
    lemma_tokens_from_step(s, (21 + q.len()) as nat);
    lemma_tokens_from_step(s, (15 + q.len()) as nat);
    lemma_tokens_from_step(s, (10 + q.len()) as nat);
    lemma_tokens_from_step(s, 9nat);
    lemma_tokens_from_step(s, 0nat);
    let ts = spec_tokenize(s);
    assert(ts =~= seq![t0, t1, t2, t3, t4]);

    // parsing: `subscribe <q> with group <g>` is one subscription
    assert(tok_at(ts, 1) == t1);
    assert(tok_at(ts, 2) == t2);
    assert(tok_at(ts, 3) == t3);
    assert(tok_at(ts, 4) == t4);
    assert(spec_parse_from(ts, 5nat) == Result::<Seq<SpecCommand>, Seq<u8>>::Ok(
        Seq::<SpecCommand>::empty(),
    ));
    assert(spec_parse_from(ts, 0nat) == Result::<Seq<SpecCommand>, Seq<u8>>::Ok(seq![c] + Seq::<
        SpecCommand,
    >::empty()));
    assert(seq![c] + Seq::<SpecCommand>::empty() =~= seq![c]);
}

/// The wire round trip: parsing the wire text of any well-formed command
/// yields exactly that command.
pub proof fn lemma_serialize_round_trip(c: SpecCommand)
    requires
        wf_command(c),
    ensures
        spec_parse_bytes(spec_serialize(c)) == Result::<Seq<SpecCommand>, Seq<u8>>::Ok(seq![c]),
{
    match c {
        SpecCommand::Message { message, len } => lemma_round_trip_message(message, len),
        SpecCommand::Subscriber { queue_name, group_name } => lemma_round_trip_subscriber(
            queue_name,
            group_name,
        ),
        SpecCommand::Publisher { queue_name } => lemma_round_trip_publisher(queue_name),
        SpecCommand::Okay { len } => lemma_round_trip_okay(len),
        SpecCommand::Error { message } => lemma_round_trip_error(message),
    }
}


// --- the token stream survives re-rendering -------------------------------

/// A token as the lexer itself produces them, whose bytes can stand
/// alone in wire text again.
pub open spec fn wf_token(t: SpecToken) -> bool {
    match t.token_type {
        TokenType::Name => match t.value {
            Option::Some(v) => v.len() > 0 && is_word_start(v[0]) && (forall|i: int|
                0 <= i < v.len() ==> is_word_byte(#[trigger] v[i])) && spec_word_token_type(v)
                == TokenType::Name,
            Option::None => false,
        },
        TokenType::Binary => match t.value {
            Option::Some(v) => wf_payload(v),
            Option::None => false,
        },
        TokenType::Illegal => match t.value {
            Option::Some(v) => v.len() > 0 && !is_word_start(v[0]) && (forall|i: int|
                0 <= i < v.len() ==> is_illegal_byte(#[trigger] v[i])),
            Option::None => false,
        },
        TokenType::Eof => false,
        _ => t.value is None,
    }
}

/// The wire text of one token.
pub open spec fn spec_token_text(t: SpecToken) -> Seq<u8> {
    match t.token_type {
        TokenType::Okay => spec_kw_ok(),
        TokenType::With => spec_kw_with(),
        TokenType::Group => spec_kw_group(),
        TokenType::Message => spec_kw_message(),
        TokenType::Publisher => spec_kw_publisher(),
        TokenType::Subscribe => spec_kw_subscribe(),
        TokenType::Semicolon => seq![59u8],
        TokenType::Binary => seq![34u8] + spec_token_value(t) + seq![34u8],
        _ => spec_token_value(t),
    }
}

/// The wire text of a token stream: each token's text, a whitespace
/// separator before each.
pub open spec fn spec_render_tokens(ts: Seq<SpecToken>) -> Seq<u8>
    decreases ts.len(),
{
    if ts.len() == 0 {
        Seq::empty()
    } else {
        seq![32u8] + spec_token_text(ts[0]) + spec_render_tokens(ts.drop_first())
    }
}

proof fn lemma_relex_tokens(ts: Seq<SpecToken>)
    requires
        forall|i: int| 0 <= i < ts.len() ==> wf_token(#[trigger] ts[i]),
    ensures
        spec_tokenize(spec_render_tokens(ts)) == ts,
    decreases ts.len(),
{
    if ts.len() == 0 {
        assert(spec_tokenize(Seq::<u8>::empty()) =~= Seq::<SpecToken>::empty());
    } else {
        let t = ts[0];
        assert(wf_token(t));
        let txt = spec_token_text(t);
        let rest = spec_render_tokens(ts.drop_first());
        let head = seq![32u8] + txt;
        let s = spec_render_tokens(ts);
        assert(s == seq![32u8] + txt + rest);
        assert(s =~= head + rest);
        let tlen = txt.len() as int;
        assert(forall|k: int| 0 <= k < tlen ==> s[1 + k] == #[trigger] txt[k]);
        assert(s[0] == 32);
        if ts.drop_first().len() > 0 {
            assert(rest[0] == 32);
            assert(s[1 + tlen] == 32);
        }

        // the first token of the rendered text is the first token itself
        match t.token_type {
            TokenType::Binary => {
                let v = spec_token_value(t);
                assert(txt == seq![34u8] + v + seq![34u8]);
                assert(s[1] == 34);
                assert(forall|k: int| 0 <= k < v.len() ==> s[2 + k] == #[trigger] v[k]);
                assert(s[2 + v.len() as int] == 34);
                assert forall|k: int| 1 < k < 2 + v.len() implies #[trigger] s[k] != 34 by {
                    assert(s[k] == v[k - 2]);
                }
                lemma_next_token_binary_at(s, 0nat, 1nat, (2 + v.len()) as nat);
                assert(s.subrange(2, 2 + v.len() as int) =~= v);
                assert(spec_next_token(s, 0nat).0 == t);
                assert(spec_next_token(s, 0nat).1 == 1 + tlen);
            },
            TokenType::Semicolon => {
                assert(s[1] == 59);
                crate::lexer::lemma_skip_spaces_at(s, 0nat, 1nat);
                assert(spec_next_token(s, 0nat).0 == t);
                assert(spec_next_token(s, 0nat).1 == 1 + tlen);
            },
            TokenType::Illegal => {
                let v = spec_token_value(t);
                assert(txt == v);
                assert forall|k: int| 1 <= k < 1 + tlen implies is_illegal_byte(
                    #[trigger] s[k],
                ) by {
                    assert(s[k] == v[k - 1]);
                }
                assert(s[1] == v[0]);
                lemma_next_token_illegal_at(s, 0nat, 1nat, (1 + txt.len()) as nat);
                assert(s.subrange(1, 1 + tlen) =~= v);
                assert(spec_next_token(s, 0nat).0 == t);
                assert(spec_next_token(s, 0nat).1 == 1 + tlen);
            },
            _ => {
                // a bare word: a name or a keyword
                match t.token_type {
                    TokenType::Okay => lemma_kw_facts_ok(),
                    TokenType::With => lemma_kw_facts_with(),
                    TokenType::Group => lemma_kw_facts_group(),
                    TokenType::Message => lemma_kw_facts_message(),
                    TokenType::Publisher => lemma_kw_facts_publisher(),
                    TokenType::Subscribe => lemma_kw_facts_subscribe(),
                    _ => {},
                }
                assert(txt.len() > 0);
                assert(is_word_start(txt[0]));
                assert(forall|k: int| 0 <= k < tlen ==> is_word_byte(#[trigger] txt[k]));
                assert(spec_word_token_type(txt) == t.token_type);
                assert forall|k: int| 1 <= k < 1 + tlen implies is_word_byte(
                    #[trigger] s[k],
                ) by {
                    assert(s[k] == txt[k - 1]);
                }
                assert(s[1] == txt[0]);
                lemma_next_token_word_at(s, 0nat, 1nat, (1 + txt.len()) as nat);
                assert(s.subrange(1, 1 + tlen) =~= txt);
                assert(spec_next_token(s, 0nat).0 == t);
                assert(spec_next_token(s, 0nat).1 == 1 + tlen);
            },
        }

        // the rest of the rendered text carries the rest of the stream
        assert(forall|i: int|
            0 <= i < ts.drop_first().len() ==> wf_token(#[trigger] ts.drop_first()[i]));
        lemma_relex_tokens(ts.drop_first());
        crate::lexer::lemma_tokens_from_shift(head, rest, 0nat);
        assert(head.len() + 0nat == (1 + txt.len()) as nat);
        lemma_tokens_from_step(s, 0nat);
        assert(spec_tokenize(s) == seq![t] + spec_tokens_from(s, (1 + txt.len()) as nat));
        assert(spec_tokens_from(s, (1 + txt.len()) as nat) == spec_tokenize(rest));
        assert(seq![t] + ts.drop_first() =~= ts);
    }
}

/// Lexing loses nothing but whitespace: writing every token of an input
/// out again, one whitespace separator apiece, and lexing that text
/// yields the same token stream. Inputs whose lexing produced a token
/// that cannot stand alone in wire text (an unterminated quoted text)
/// are outside this law.
pub proof fn lemma_render_relex(s: Seq<u8>)
    requires
        quotes_terminated(s, 0nat),
    ensures
        spec_tokenize(spec_render_tokens(spec_tokenize(s))) == spec_tokenize(s),
{
    lemma_lexed_tokens_wf(s, 0nat);
    lemma_relex_tokens(spec_tokenize(s));
}

/// Every token the lexer hands out can stand alone in wire text again —
/// as long as the input closed each quoted text it opened.
pub proof fn lemma_lexed_tokens_wf(s: Seq<u8>, i: nat)
    requires
        i <= s.len(),
        quotes_terminated(s, i),
    ensures
        forall|k: int|
            0 <= k < spec_tokens_from(s, i).len() ==> wf_token(
                #[trigger] spec_tokens_from(s, i)[k],
            ),
    decreases s.len() - i,
{
    lemma_next_token_progress(s, i);
    let (t, j) = spec_next_token(s, i);
    if t.token_type == TokenType::Eof {
    } else {
        lemma_tokens_from_step(s, i);
        lemma_skip_spaces(s, i);
        let p = skip_spaces(s, i);
        assert(p < s.len() && s[p as int] != 0);
        if is_word_start(s[p as int]) {
            lemma_scan_word_end(s, p);
            let e = scan_word_end(s, p);
            assert(is_word_byte(s[p as int]));
            let w = s.subrange(p as int, e as int);
            assert(w.len() > 0);
            assert(w[0] == s[p as int]);
            assert forall|x: int| 0 <= x < w.len() implies is_word_byte(#[trigger] w[x]) by {
                assert(w[x] == s[p + x]);
            }
            assert(wf_token(t));
        } else if s[p as int] == 34 {
            let e = scan_quote_end(s, (p + 1) as nat);
            lemma_scan_quote_end(s, (p + 1) as nat);
            assert(e < s.len());
            let v = s.subrange(p as int + 1, e as int);
            assert forall|x: int| 0 <= x < v.len() implies #[trigger] v[x] != 34 by {
                assert(v[x] == s[p + 1 + x]);
            }
            assert(wf_token(t));
        } else if s[p as int] == 59 {
            assert(wf_token(t));
        } else {
            lemma_scan_illegal_end(s, p);
            let e = scan_illegal_end(s, p);
            assert(is_illegal_byte(s[p as int]));
            let v = s.subrange(p as int, e as int);
            assert(v.len() > 0);
            assert(v[0] == s[p as int]);
            assert forall|x: int| 0 <= x < v.len() implies is_illegal_byte(#[trigger] v[x]) by {
                assert(v[x] == s[p + x]);
            }
            assert(wf_token(t));
        }
        lemma_lexed_tokens_wf(s, j);
        assert(forall|k: int|
            1 <= k < spec_tokens_from(s, i).len() ==> #[trigger] spec_tokens_from(s, i)[k]
                == spec_tokens_from(s, j)[k - 1]);
    }
}

} // verus!




