use vstd::prelude::*;

use crate::lexer::lemma_next_token_progress;
use crate::lexer::lemma_tokens_from_step;
use crate::lexer::spec_tokenize;
use crate::lexer::spec_tokens_from;
use crate::lexer::Lexer;
use crate::text::all_digits;
use crate::text::bytes_eq;
use crate::text::lower_bytes;
use crate::text::parse_digits;
use crate::text::push_all;
use crate::text::spec_digits_value;
use crate::text::spec_lower_seq;
use crate::token::kw_group;
use crate::token::kw_message;
use crate::token::kw_ok;
use crate::token::kw_publisher;
use crate::token::kw_subscribe;
use crate::token::kw_with;
use crate::token::spec_kw_group;
use crate::token::spec_kw_message;
use crate::token::spec_kw_ok;
use crate::token::spec_kw_publisher;
use crate::token::spec_kw_subscribe;
use crate::token::spec_kw_with;
use crate::token::spec_word_error;
use crate::token::word_error;
use crate::token::SpecToken;
use crate::token::Token;
use crate::token::TokenType;

verus! {

// --- commands ------------------------------------------------------------

/// The mathematical model of one parsed command.
pub ghost enum SpecCommand {
    Message { message: Seq<u8>, len: nat },
    Subscriber { queue_name: Seq<u8>, group_name: Seq<u8> },
    Publisher { queue_name: Seq<u8> },
    Okay { len: nat },
    Error { message: Seq<u8> },
}

/// One parsed command of the wire protocol.
#[derive(Debug, Clone, PartialEq, Eq)]
pub enum Command {
    /// Publish a payload; `len` is the declared total frame length.
    Message { message: Vec<u8>, len: usize },
    /// Enroll the connection as a consumer of a queue, under a group.
    Subscriber { queue_name: Vec<u8>, group_name: Vec<u8> },
    /// Claim the publisher role for a queue.
    Publisher { queue_name: Vec<u8> },
    /// Acknowledge a received frame of `len` bytes.
    Okay { len: usize },
    /// Report an error to the peer.
    Error { message: Vec<u8> },
}

impl View for Command {
    type V = SpecCommand;

    open spec fn view(&self) -> SpecCommand {
        match self {
            Command::Message { message, len } => SpecCommand::Message {
                message: message@,
                len: *len as nat,
            },
            Command::Subscriber { queue_name, group_name } => SpecCommand::Subscriber {
                queue_name: queue_name@,
                group_name: group_name@,
            },
            Command::Publisher { queue_name } => SpecCommand::Publisher {
                queue_name: queue_name@,
            },
            Command::Okay { len } => SpecCommand::Okay { len: *len as nat },
            Command::Error { message } => SpecCommand::Error { message: message@ },
        }
    }
}

/// The views of a list of tokens.
pub open spec fn view_tokens(ts: Seq<Token>) -> Seq<SpecToken> {
    ts.map_values(|t: Token| t@)
}

/// The views of a list of commands.
pub open spec fn view_commands(cs: Seq<Command>) -> Seq<SpecCommand> {
    cs.map_values(|c: Command| c@)
}

/// The error the parser reports: a human-readable message.
#[derive(Debug, Clone, PartialEq, Eq)]
pub struct ParseError {
    message: Vec<u8>,
}

impl View for ParseError {
    type V = Seq<u8>;

    closed spec fn view(&self) -> Seq<u8> {
        self.message@
    }
}

impl ParseError {
    pub fn new(message: Vec<u8>) -> (e: ParseError)
        ensures
            e@ == message@,
    {
        ParseError { message }
    }

    pub fn message(&self) -> (m: &Vec<u8>)
        ensures
            m@ == self@,
    {
        &self.message
    }
}

// --- token helpers -------------------------------------------------------

pub open spec fn spec_eof_token() -> SpecToken {
    SpecToken { token_type: TokenType::Eof, value: Option::None }
}

/// The token at position `p`, an `Eof` token beyond the end.
pub open spec fn tok_at(ts: Seq<SpecToken>, p: int) -> SpecToken {
    if 0 <= p < ts.len() {
        ts[p]
    } else {
        spec_eof_token()
    }
}

/// The bytes a token carries, the empty string if it carries none.
pub open spec fn spec_token_value(t: SpecToken) -> Seq<u8> {
    match t.value {
        Option::Some(v) => v,
        Option::None => Seq::empty(),
    }
}

fn value_or_empty(t: &Token) -> (r: Vec<u8>)
    ensures
        r@ == spec_token_value(t@),
{
    match t.value() {
        Option::Some(v) => v,
        Option::None => Vec::new(),
    }
}

// --- wording of parse errors ---------------------------------------------

/// The name of a token kind, as parse errors write it.
pub open spec fn spec_token_type_name(t: TokenType) -> Seq<u8> {
    match t {
        TokenType::Okay => spec_kw_ok(),
        TokenType::Eof => seq![101u8, 111u8, 102u8],
        TokenType::With => spec_kw_with(),
        TokenType::Name => seq![110u8, 97u8, 109u8, 101u8],
        TokenType::Group => spec_kw_group(),
        TokenType::Illegal => seq![105u8, 108u8, 108u8, 101u8, 103u8, 97u8, 108u8],
        TokenType::Message => spec_kw_message(),
        TokenType::Publisher => spec_kw_publisher(),
        TokenType::Subscribe => spec_kw_subscribe(),
        TokenType::Semicolon => seq![59u8],
        TokenType::Binary => seq![98u8, 105u8, 110u8, 97u8, 114u8, 121u8],
    }
}

pub fn token_type_name(t: TokenType) -> (r: Vec<u8>)
    ensures
        r@ == spec_token_type_name(t),
{
    let r: Vec<u8> = match t {
        TokenType::Okay => kw_ok(),
        TokenType::Eof => vec![101u8, 111u8, 102u8],
        TokenType::With => kw_with(),
        TokenType::Name => vec![110u8, 97u8, 109u8, 101u8],
        TokenType::Group => kw_group(),
        TokenType::Illegal => vec![105u8, 108u8, 108u8, 101u8, 103u8, 97u8, 108u8],
        TokenType::Message => kw_message(),
        TokenType::Publisher => kw_publisher(),
        TokenType::Subscribe => kw_subscribe(),
        TokenType::Semicolon => vec![59u8],
        TokenType::Binary => vec![98u8, 105u8, 110u8, 97u8, 114u8, 121u8],
    };
    proof {
        assert(r@ =~= spec_token_type_name(t));
    }
    r
}

/// `expected <kind> but got <kind>`.
pub open spec fn spec_msg_expected(expected: TokenType, got: TokenType) -> Seq<u8> {
    seq![101u8, 120u8, 112u8, 101u8, 99u8, 116u8, 101u8, 100u8, 32u8] + spec_token_type_name(
        expected,
    ) + seq![32u8, 98u8, 117u8, 116u8, 32u8, 103u8, 111u8, 116u8, 32u8] + spec_token_type_name(got)
}

pub fn msg_expected(expected: TokenType, got: TokenType) -> (r: Vec<u8>)
    ensures
        r@ == spec_msg_expected(expected, got),
{
    let mut m: Vec<u8> = vec![101u8, 120u8, 112u8, 101u8, 99u8, 116u8, 101u8, 100u8, 32u8];
    proof {
        assert(m@ =~= seq![101u8, 120u8, 112u8, 101u8, 99u8, 116u8, 101u8, 100u8, 32u8]);
    }
    push_all(&mut m, &token_type_name(expected));
    let sep: Vec<u8> = vec![32u8, 98u8, 117u8, 116u8, 32u8, 103u8, 111u8, 116u8, 32u8];
    proof {
        assert(sep@ =~= seq![32u8, 98u8, 117u8, 116u8, 32u8, 103u8, 111u8, 116u8, 32u8]);
    }
    push_all(&mut m, &sep);
    push_all(&mut m, &token_type_name(got));
    proof {
        assert(m@ =~= spec_msg_expected(expected, got));
    }
    m
}

/// `miss expression, expression cannot start with <kind>`.
pub open spec fn spec_msg_bad_start(t: TokenType) -> Seq<u8> {
    seq![
        109u8, 105u8, 115u8, 115u8, 32u8, 101u8, 120u8, 112u8, 114u8, 101u8, 115u8, 115u8, 105u8,
        111u8, 110u8, 44u8, 32u8, 101u8, 120u8, 112u8, 114u8, 101u8, 115u8, 115u8, 105u8, 111u8,
        110u8, 32u8, 99u8, 97u8, 110u8, 110u8, 111u8, 116u8, 32u8, 115u8, 116u8, 97u8, 114u8,
        116u8, 32u8, 119u8, 105u8, 116u8, 104u8, 32u8,
    ] + spec_token_type_name(t)
}

pub fn msg_bad_start(t: TokenType) -> (r: Vec<u8>)
    ensures
        r@ == spec_msg_bad_start(t),
{
    let mut m: Vec<u8> = vec![
        109u8, 105u8, 115u8, 115u8, 32u8, 101u8, 120u8, 112u8, 114u8, 101u8, 115u8, 115u8, 105u8,
        111u8, 110u8, 44u8, 32u8, 101u8, 120u8, 112u8, 114u8, 101u8, 115u8, 115u8, 105u8, 111u8,
        110u8, 32u8, 99u8, 97u8, 110u8, 110u8, 111u8, 116u8, 32u8, 115u8, 116u8, 97u8, 114u8,
        116u8, 32u8, 119u8, 105u8, 116u8, 104u8, 32u8,
    ];
    proof {
        assert(m@ =~= spec_msg_bad_start(t).take(46));
    }
    push_all(&mut m, &token_type_name(t));
    proof {
        assert(m@ =~= spec_msg_bad_start(t));
    }
    m
}

/// `expected a +l length marker`.
pub open spec fn spec_msg_bad_len_marker() -> Seq<u8> {
    seq![
        101u8, 120u8, 112u8, 101u8, 99u8, 116u8, 101u8, 100u8, 32u8, 97u8, 32u8, 43u8, 108u8,
        32u8, 108u8, 101u8, 110u8, 103u8, 116u8, 104u8, 32u8, 109u8, 97u8, 114u8, 107u8, 101u8,
        114u8,
    ]
}

pub fn msg_bad_len_marker() -> (r: Vec<u8>)
    ensures
        r@ == spec_msg_bad_len_marker(),
{
    let r: Vec<u8> = vec![
        101u8, 120u8, 112u8, 101u8, 99u8, 116u8, 101u8, 100u8, 32u8, 97u8, 32u8, 43u8, 108u8,
        32u8, 108u8, 101u8, 110u8, 103u8, 116u8, 104u8, 32u8, 109u8, 97u8, 114u8, 107u8, 101u8,
        114u8,
    ];
    proof {
        assert(r@ =~= spec_msg_bad_len_marker());
    }
    r
}

/// `expected # after the length marker`.
pub open spec fn spec_msg_bad_len_hash() -> Seq<u8> {
    seq![
        101u8, 120u8, 112u8, 101u8, 99u8, 116u8, 101u8, 100u8, 32u8, 35u8, 32u8, 97u8, 102u8,
        116u8, 101u8, 114u8, 32u8, 116u8, 104u8, 101u8, 32u8, 108u8, 101u8, 110u8, 103u8, 116u8,
        104u8, 32u8, 109u8, 97u8, 114u8, 107u8, 101u8, 114u8,
    ]
}

pub fn msg_bad_len_hash() -> (r: Vec<u8>)
    ensures
        r@ == spec_msg_bad_len_hash(),
{
    let r: Vec<u8> = vec![
        101u8, 120u8, 112u8, 101u8, 99u8, 116u8, 101u8, 100u8, 32u8, 35u8, 32u8, 97u8, 102u8,
        116u8, 101u8, 114u8, 32u8, 116u8, 104u8, 101u8, 32u8, 108u8, 101u8, 110u8, 103u8, 116u8,
        104u8, 32u8, 109u8, 97u8, 114u8, 107u8, 101u8, 114u8,
    ];
    proof {
        assert(r@ =~= spec_msg_bad_len_hash());
    }
    r
}

// --- the grammar, in spec form -------------------------------------------

/// A `+l<digits>` token: an unquoted run starting `+l`, then decimal
/// digits that fit a machine word.
pub open spec fn is_len_marker(t: SpecToken) -> bool {
    &&& t.token_type == TokenType::Illegal
    &&& t.value is Some
    &&& spec_token_value(t).len() > 2
    &&& spec_token_value(t)[0] == 43
    &&& spec_token_value(t)[1] == 108
    &&& all_digits(spec_token_value(t).skip(2))
    &&& spec_digits_value(spec_token_value(t).skip(2)) <= usize::MAX
}

pub open spec fn len_marker_value(t: SpecToken) -> int {
    spec_digits_value(spec_token_value(t).skip(2))
}

/// The lone `#` token that closes a length marker.
pub open spec fn is_hash_token(t: SpecToken) -> bool {
    &&& t.token_type == TokenType::Illegal
    &&& t.value == Option::Some(seq![35u8])
}

/// Parse `+l<digits> #` at positions `q`, `q + 1`.
pub open spec fn spec_parse_len_tail(ts: Seq<SpecToken>, q: nat) -> Result<(int, nat), Seq<u8>> {
    if is_len_marker(tok_at(ts, q as int)) {
        if is_hash_token(tok_at(ts, q as int + 1)) {
            Result::Ok((len_marker_value(tok_at(ts, q as int)), (q + 2) as nat))
        } else {
            Result::Err(spec_msg_bad_len_hash())
        }
    } else {
        Result::Err(spec_msg_bad_len_marker())
    }
}

/// Parse `message +l<N> # "<payload>"` with the `message` keyword at `p`.
pub open spec fn spec_parse_message(ts: Seq<SpecToken>, p: nat) -> Result<
    (SpecCommand, nat),
    Seq<u8>,
> {
    match spec_parse_len_tail(ts, (p + 1) as nat) {
        Result::Ok((len, q)) => {
            let t = tok_at(ts, q as int);
            if t.token_type == TokenType::Binary {
                Result::Ok(
                    (
                        SpecCommand::Message { message: spec_token_value(t), len: len as nat },
                        (q + 1) as nat,
                    ),
                )
            } else {
                Result::Err(spec_msg_expected(TokenType::Binary, t.token_type))
            }
        },
        Result::Err(e) => Result::Err(e),
    }
}

/// Parse `publisher <name>` with the `publisher` keyword at `p`.
pub open spec fn spec_parse_publisher(ts: Seq<SpecToken>, p: nat) -> Result<
    (SpecCommand, nat),
    Seq<u8>,
> {
    let t = tok_at(ts, p as int + 1);
    if t.token_type == TokenType::Name {
        Result::Ok(
            (SpecCommand::Publisher { queue_name: spec_token_value(t) }, (p + 2) as nat),
        )
    } else {
        Result::Err(spec_msg_expected(TokenType::Name, t.token_type))
    }
}

/// Parse `subscribe <name> with group <name>` with `subscribe` at `p`.
pub open spec fn spec_parse_subscriber(ts: Seq<SpecToken>, p: nat) -> Result<
    (SpecCommand, nat),
    Seq<u8>,
> {
    let t1 = tok_at(ts, p as int + 1);
    if t1.token_type != TokenType::Name {
        Result::Err(spec_msg_expected(TokenType::Name, t1.token_type))
    } else {
        let t2 = tok_at(ts, p as int + 2);
        if t2.token_type != TokenType::With {
            Result::Err(spec_msg_expected(TokenType::With, t2.token_type))
        } else {
            let t3 = tok_at(ts, p as int + 3);
            if t3.token_type != TokenType::Group {
                Result::Err(spec_msg_expected(TokenType::Group, t3.token_type))
            } else {
                let t4 = tok_at(ts, p as int + 4);
                if t4.token_type != TokenType::Name {
                    Result::Err(spec_msg_expected(TokenType::Name, t4.token_type))
                } else {
                    Result::Ok(
                        (
                            SpecCommand::Subscriber {
                                queue_name: spec_token_value(t1),
                                group_name: spec_token_value(t4),
                            },
                            (p + 5) as nat,
                        ),
                    )
                }
            }
        }
    }
}

/// Parse `ok +l<N> #` with the `ok` keyword at `p`.
pub open spec fn spec_parse_okay(ts: Seq<SpecToken>, p: nat) -> Result<
    (SpecCommand, nat),
    Seq<u8>,
> {
    match spec_parse_len_tail(ts, (p + 1) as nat) {
        Result::Ok((len, q)) => Result::Ok((SpecCommand::Okay { len: len as nat }, q)),
        Result::Err(e) => Result::Err(e),
    }
}

/// Parse `error "<text>"` with the word `error` at `p`.
pub open spec fn spec_parse_error_cmd(ts: Seq<SpecToken>, p: nat) -> Result<
    (SpecCommand, nat),
    Seq<u8>,
> {
    let t = tok_at(ts, p as int + 1);
    if t.token_type == TokenType::Binary {
        Result::Ok((SpecCommand::Error { message: spec_token_value(t) }, (p + 2) as nat))
    } else {
        Result::Err(spec_msg_expected(TokenType::Binary, t.token_type))
    }
}

/// Whether a `Name` token holds the word `error`, in any letter case.
pub open spec fn is_error_word(t: SpecToken) -> bool {
    &&& t.token_type == TokenType::Name
    &&& spec_lower_seq(spec_token_value(t)) == spec_word_error()
}

/// Parse one command starting at position `p`.
pub open spec fn spec_parse_command(ts: Seq<SpecToken>, p: nat) -> Result<
    (SpecCommand, nat),
    Seq<u8>,
> {
    let t = tok_at(ts, p as int);
    if t.token_type == TokenType::Message {
        spec_parse_message(ts, p)
    } else if t.token_type == TokenType::Publisher {
        spec_parse_publisher(ts, p)
    } else if t.token_type == TokenType::Subscribe {
        spec_parse_subscriber(ts, p)
    } else if t.token_type == TokenType::Okay {
        spec_parse_okay(ts, p)
    } else if is_error_word(t) {
        spec_parse_error_cmd(ts, p)
    } else {
        Result::Err(spec_msg_bad_start(t.token_type))
    }
}

/// A parsed command always ends past where it began, and within the
/// token list.
pub proof fn lemma_parse_command_progress(ts: Seq<SpecToken>, p: nat)
    ensures
        spec_parse_command(ts, p) matches Result::Ok((c, p2)) ==> p < p2 <= ts.len(),
{
    if spec_parse_command(ts, p) matches Result::Ok((c, p2)) {
        let t = tok_at(ts, p as int);
        if t.token_type == TokenType::Message {
            assert(is_hash_token(tok_at(ts, p as int + 2)));
            assert(tok_at(ts, p as int + 3).token_type == TokenType::Binary);
            assert(p + 3 < ts.len());
        } else if t.token_type == TokenType::Publisher {
            assert(tok_at(ts, p as int + 1).token_type == TokenType::Name);
            assert(p + 1 < ts.len());
        } else if t.token_type == TokenType::Subscribe {
            assert(tok_at(ts, p as int + 4).token_type == TokenType::Name);
            assert(p + 4 < ts.len());
        } else if t.token_type == TokenType::Okay {
            assert(is_hash_token(tok_at(ts, p as int + 2)));
            assert(p + 2 < ts.len());
        } else {
            assert(tok_at(ts, p as int + 1).token_type == TokenType::Binary);
            assert(p + 1 < ts.len());
        }
    }
}

/// Parse a whole token list from position `p` on: commands separated by
/// optional semicolons, up to the end of the list.
pub open spec fn spec_parse_from(ts: Seq<SpecToken>, p: nat) -> Result<Seq<SpecCommand>, Seq<u8>>
    decreases ts.len() - p,
    when p <= ts.len()
{
    if p >= ts.len() {
        Result::Ok(Seq::empty())
    } else {
        let p1 = if ts[p as int].token_type == TokenType::Semicolon {
            (p + 1) as nat
        } else {
            p
        };
        if p1 >= ts.len() {
            Result::Ok(Seq::empty())
        } else {
            match spec_parse_command(ts, p1) {
                Result::Ok((cmd, p2)) => {
                    if p2 <= p || p2 > ts.len() {
                        Result::Ok(Seq::empty())
                    } else {
                        match spec_parse_from(ts, p2) {
                            Result::Ok(rest) => Result::Ok(seq![cmd] + rest),
                            Result::Err(e) => Result::Err(e),
                        }
                    }
                },
                Result::Err(e) => Result::Err(e),
            }
        }
    }
}

/// What parsing an input byte string yields: the commands, or the message
/// of the first error. A function of the bytes alone, so parsing is
/// deterministic.
pub open spec fn spec_parse_bytes(s: Seq<u8>) -> Result<Seq<SpecCommand>, Seq<u8>> {
    spec_parse_from(spec_tokenize(s), 0)
}

/// Parsing is deterministic: the same bytes always yield the same
/// commands, or the same error.
pub proof fn lemma_parse_deterministic(s1: Seq<u8>, s2: Seq<u8>)
    requires
        s1 == s2,
    ensures
        spec_parse_bytes(s1) == spec_parse_bytes(s2),
{
}

// --- the parser ----------------------------------------------------------

/// A cursor over the token list of one input.
pub struct Parser {
    tokens: Vec<Token>,
    pos: usize,
}

impl Parser {
    /// The tokens the parser walks over.
    pub closed spec fn spec_tokens(&self) -> Seq<SpecToken> {
        view_tokens(self.tokens@)
    }

    /// The position of the cursor.
    pub closed spec fn spec_pos(&self) -> nat {
        self.pos as nat
    }

    pub open spec fn wf(&self) -> bool {
        self.spec_pos() <= self.spec_tokens().len()
    }

    /// Prime the parser with every token the lexer has left.
    #[verifier::loop_isolation(false)]
    pub fn new(lexer: Lexer) -> (p: Parser)
        requires
            lexer.wf(),
        ensures
            p.wf(),
            p.spec_pos() == 0,
            p.spec_tokens() == spec_tokens_from(lexer.spec_input(), lexer.spec_idx()),
    {
        let ghost s = lexer.spec_input();
        let ghost i0 = lexer.spec_idx();
        let mut lx = lexer;
        let mut tokens: Vec<Token> = Vec::new();
        loop
            invariant
                lx.wf(),
                lx.spec_input() == s,
                view_tokens(tokens@) + spec_tokens_from(s, lx.spec_idx())
                    == spec_tokens_from(s, i0),
            decreases s.len() - lx.spec_idx(),
        {
            let ghost before = lx.spec_idx();
            let ghost m0 = view_tokens(tokens@);
            let t = lx.next_token();
            proof {
                lemma_tokens_from_step(s, before);
                lemma_next_token_progress(s, before);
            }
            if t.token_type() == TokenType::Eof {
                proof {
                    assert(spec_tokens_from(s, before) =~= Seq::<SpecToken>::empty());
                    assert(m0 + spec_tokens_from(s, before) =~= m0);
                }
                return Parser { tokens, pos: 0 };
            }
            tokens.push(t);
            proof {
                assert(view_tokens(tokens@) =~= m0.push(t@));
                assert(spec_tokens_from(s, before) == seq![t@] + spec_tokens_from(
                    s,
                    lx.spec_idx(),
                ));
                assert(m0.push(t@) + spec_tokens_from(s, lx.spec_idx()) =~= m0 + (seq![t@]
                    + spec_tokens_from(s, lx.spec_idx())));
            }
        }
    }

    /// Step to the next token when it has the expected kind; report which
    /// kind stood there otherwise.
    fn expected_token(&mut self, token_type: TokenType) -> (r: Result<(), ParseError>)
        requires
            old(self).wf(),
            old(self).spec_pos() < old(self).spec_tokens().len(),
        ensures
            final(self).wf(),
            final(self).spec_tokens() == old(self).spec_tokens(),
            ({
                let nt = tok_at(old(self).spec_tokens(), old(self).spec_pos() as int + 1);
                match r {
                    Result::Ok(()) => nt.token_type == token_type && final(self).spec_pos() == old(self).spec_pos() + 1,
                    Result::Err(e) => nt.token_type != token_type && e@ == spec_msg_expected(
                        token_type,
                        nt.token_type,
                    ) && final(self).spec_pos() == old(self).spec_pos(),
                }
            }),
    {
        let n_tokens = self.tokens.len();
        proof {
            // grounds the token count as a machine word
            assert(self.spec_tokens().len() == n_tokens);
        }
        let next_kind = if self.pos + 1 < self.tokens.len() {
            self.tokens[self.pos + 1].token_type()
        } else {
            TokenType::Eof
        };
        if next_kind == token_type {
            self.pos = self.pos + 1;
            Result::Ok(())
        } else {
            Result::Err(ParseError::new(msg_expected(token_type, next_kind)))
        }
    }

    /// Read the `+l<digits> #` pair that follows the token at the cursor.
    fn parse_len_tail(&self) -> (r: Result<usize, ParseError>)
        requires
            self.wf(),
            self.spec_pos() < self.spec_tokens().len(),
        ensures
            ({
                let sr = spec_parse_len_tail(self.spec_tokens(), (self.spec_pos() + 1) as nat);
                match r {
                    Result::Ok(v) => sr matches Result::Ok((sv, _)) && v == sv,
                    Result::Err(e) => sr matches Result::Err(se) && e@ == se,
                }
            }),
    {
        let n_tokens = self.tokens.len();
        proof {
            // grounds the token count as a machine word
            assert(self.spec_tokens().len() == n_tokens);
        }
        let ghost ts = self.spec_tokens();
        let ghost q = (self.spec_pos() + 1) as nat;
        let q1 = self.pos + 1;
        if q1 == self.tokens.len() {
            return Result::Err(ParseError::new(msg_bad_len_marker()));
        }
        let t = &self.tokens[q1];
        if !(t.token_type() == TokenType::Illegal) {
            return Result::Err(ParseError::new(msg_bad_len_marker()));
        }
        let v = match t.value() {
            Option::Some(v) => v,
            Option::None => {
                return Result::Err(ParseError::new(msg_bad_len_marker()));
            },
        };
        if v.len() <= 2 || v[0] != 43 || v[1] != 108 {
            return Result::Err(ParseError::new(msg_bad_len_marker()));
        }
        let n = match parse_digits(&v, 2) {
            Option::Some(n) => n,
            Option::None => {
                proof {
                    assert(v@.skip(2) =~= spec_token_value(tok_at(ts, q as int)).skip(2));
                }
                return Result::Err(ParseError::new(msg_bad_len_marker()));
            },
        };
        proof {
            assert(v@.skip(2) =~= spec_token_value(tok_at(ts, q as int)).skip(2));
            assert(is_len_marker(tok_at(ts, q as int)));
        }
        // the closing # token
        if q1 + 1 == self.tokens.len() {
            return Result::Err(ParseError::new(msg_bad_len_hash()));
        }
        let h = &self.tokens[q1 + 1];
        if !(h.token_type() == TokenType::Illegal) {
            return Result::Err(ParseError::new(msg_bad_len_hash()));
        }
        let hv = match h.value() {
            Option::Some(hv) => hv,
            Option::None => {
                return Result::Err(ParseError::new(msg_bad_len_hash()));
            },
        };
        let hash: Vec<u8> = vec![35u8];
        proof {
            assert(hash@ =~= seq![35u8]);
        }
        if !bytes_eq(&hv, &hash) {
            return Result::Err(ParseError::new(msg_bad_len_hash()));
        }
        proof {
            assert(is_hash_token(tok_at(ts, q as int + 1)));
        }
        Result::Ok(n)
    }

    /// Parse `message +l<N> # "<payload>"`, the keyword at the cursor.
    fn parse_message(&mut self) -> (r: Result<Command, ParseError>)
        requires
            old(self).wf(),
            tok_at(old(self).spec_tokens(), old(self).spec_pos() as int).token_type
                == TokenType::Message,
        ensures
            final(self).wf(),
            final(self).spec_tokens() == old(self).spec_tokens(),
            ({
                let sr = spec_parse_message(old(self).spec_tokens(), old(self).spec_pos());
                match r {
                    Result::Ok(cmd) => sr matches Result::Ok((sc, p2)) && cmd@ == sc && final(self).spec_pos() == p2,
                    Result::Err(e) => sr matches Result::Err(se) && e@ == se,
                }
            }),
    {
        let n_tokens = self.tokens.len();
        proof {
            // grounds the token count as a machine word
            assert(self.spec_tokens().len() == n_tokens);
        }
        let ghost ts = self.spec_tokens();
        proof {
            assert(self.spec_pos() < ts.len());
        }
        let len = match self.parse_len_tail() {
            Result::Ok(len) => len,
            Result::Err(e) => {
                return Result::Err(e);
            },
        };
        proof {
            assert(is_hash_token(tok_at(ts, self.spec_pos() as int + 2)));
            assert(self.spec_pos() + 2 < ts.len());
        }
        let q = self.pos + 3;
        let kind = if q < self.tokens.len() {
            self.tokens[q].token_type()
        } else {
            TokenType::Eof
        };
        if kind == TokenType::Binary {
            let message = value_or_empty(&self.tokens[q]);
            self.pos = q + 1;
            Result::Ok(Command::Message { message, len })
        } else {
            Result::Err(ParseError::new(msg_expected(TokenType::Binary, kind)))
        }
    }

    /// Parse `publisher <name>`, the keyword at the cursor.
    fn parse_publisher(&mut self) -> (r: Result<Command, ParseError>)
        requires
            old(self).wf(),
            tok_at(old(self).spec_tokens(), old(self).spec_pos() as int).token_type
                == TokenType::Publisher,
        ensures
            final(self).wf(),
            final(self).spec_tokens() == old(self).spec_tokens(),
            ({
                let sr = spec_parse_publisher(old(self).spec_tokens(), old(self).spec_pos());
                match r {
                    Result::Ok(cmd) => sr matches Result::Ok((sc, p2)) && cmd@ == sc && final(self).spec_pos() == p2,
                    Result::Err(e) => sr matches Result::Err(se) && e@ == se,
                }
            }),
    {
        let n_tokens = self.tokens.len();
        proof {
            // grounds the token count as a machine word
            assert(self.spec_tokens().len() == n_tokens);
        }
        proof {
            assert(self.spec_pos() < self.spec_tokens().len());
        }
        match self.expected_token(TokenType::Name) {
            Result::Ok(()) => {},
            Result::Err(e) => {
                return Result::Err(e);
            },
        }
        let queue_name = value_or_empty(&self.tokens[self.pos]);
        let n2 = self.tokens.len();
        proof {
            assert(self.spec_pos() < n2);
        }
        self.pos = self.pos + 1;
        Result::Ok(Command::Publisher { queue_name })
    }

    /// Parse `subscribe <name> with group <name>`, the keyword at the cursor.
    fn parse_subscriber(&mut self) -> (r: Result<Command, ParseError>)
        requires
            old(self).wf(),
            tok_at(old(self).spec_tokens(), old(self).spec_pos() as int).token_type
                == TokenType::Subscribe,
        ensures
            final(self).wf(),
            final(self).spec_tokens() == old(self).spec_tokens(),
            ({
                let sr = spec_parse_subscriber(old(self).spec_tokens(), old(self).spec_pos());
                match r {
                    Result::Ok(cmd) => sr matches Result::Ok((sc, p2)) && cmd@ == sc && final(self).spec_pos() == p2,
                    Result::Err(e) => sr matches Result::Err(se) && e@ == se,
                }
            }),
    {
        let n_tokens = self.tokens.len();
        proof {
            // grounds the token count as a machine word
            assert(self.spec_tokens().len() == n_tokens);
        }
        proof {
            assert(self.spec_pos() < self.spec_tokens().len());
        }
        match self.expected_token(TokenType::Name) {
            Result::Ok(()) => {},
            Result::Err(e) => {
                return Result::Err(e);
            },
        }
        let queue_name = value_or_empty(&self.tokens[self.pos]);
        match self.expected_token(TokenType::With) {
            Result::Ok(()) => {},
            Result::Err(e) => {
                return Result::Err(e);
            },
        }
        match self.expected_token(TokenType::Group) {
            Result::Ok(()) => {},
            Result::Err(e) => {
                return Result::Err(e);
            },
        }
        match self.expected_token(TokenType::Name) {
            Result::Ok(()) => {},
            Result::Err(e) => {
                return Result::Err(e);
            },
        }
        let group_name = value_or_empty(&self.tokens[self.pos]);
        let n2 = self.tokens.len();
        proof {
            assert(self.spec_pos() < n2);
        }
        self.pos = self.pos + 1;
        Result::Ok(Command::Subscriber { queue_name, group_name })
    }

    /// Parse `ok +l<N> #`, the keyword at the cursor.
    fn parse_okay(&mut self) -> (r: Result<Command, ParseError>)
        requires
            old(self).wf(),
            tok_at(old(self).spec_tokens(), old(self).spec_pos() as int).token_type
                == TokenType::Okay,
        ensures
            final(self).wf(),
            final(self).spec_tokens() == old(self).spec_tokens(),
            ({
                let sr = spec_parse_okay(old(self).spec_tokens(), old(self).spec_pos());
                match r {
                    Result::Ok(cmd) => sr matches Result::Ok((sc, p2)) && cmd@ == sc && final(self).spec_pos() == p2,
                    Result::Err(e) => sr matches Result::Err(se) && e@ == se,
                }
            }),
    {
        let n_tokens = self.tokens.len();
        proof {
            // grounds the token count as a machine word
            assert(self.spec_tokens().len() == n_tokens);
        }
        let ghost ts = self.spec_tokens();
        proof {
            assert(self.spec_pos() < ts.len());
        }
        let len = match self.parse_len_tail() {
            Result::Ok(len) => len,
            Result::Err(e) => {
                return Result::Err(e);
            },
        };
        proof {
            assert(is_hash_token(tok_at(ts, self.spec_pos() as int + 2)));
            assert(self.spec_pos() + 2 < ts.len());
        }
        let n2 = self.tokens.len();
        proof {
            assert(self.spec_pos() as int + 2 < n2);
        }
        self.pos = self.pos + 3;
        Result::Ok(Command::Okay { len })
    }

    /// Parse `error "<text>"`, the word `error` at the cursor.
    fn parse_error_cmd(&mut self) -> (r: Result<Command, ParseError>)
        requires
            old(self).wf(),
            is_error_word(tok_at(old(self).spec_tokens(), old(self).spec_pos() as int)),
        ensures
            final(self).wf(),
            final(self).spec_tokens() == old(self).spec_tokens(),
            ({
                let sr = spec_parse_error_cmd(old(self).spec_tokens(), old(self).spec_pos());
                match r {
                    Result::Ok(cmd) => sr matches Result::Ok((sc, p2)) && cmd@ == sc && final(self).spec_pos() == p2,
                    Result::Err(e) => sr matches Result::Err(se) && e@ == se,
                }
            }),
    {
        let n_tokens = self.tokens.len();
        proof {
            // grounds the token count as a machine word
            assert(self.spec_tokens().len() == n_tokens);
        }
        proof {
            assert(self.spec_pos() < self.spec_tokens().len());
        }
        match self.expected_token(TokenType::Binary) {
            Result::Ok(()) => {},
            Result::Err(e) => {
                return Result::Err(e);
            },
        }
        let message = value_or_empty(&self.tokens[self.pos]);
        let n2 = self.tokens.len();
        proof {
            assert(self.spec_pos() < n2);
        }
        self.pos = self.pos + 1;
        Result::Ok(Command::Error { message })
    }

    /// Parse every command up to the end of the input.
    #[verifier::loop_isolation(false)]
    pub fn parse_commands(&mut self) -> (r: Result<Vec<Command>, ParseError>)
        requires
            old(self).wf(),
        ensures
            final(self).wf(),
            ({
                let sr = spec_parse_from(old(self).spec_tokens(), old(self).spec_pos());
                match r {
                    Result::Ok(cmds) => sr matches Result::Ok(sc) && view_commands(cmds@) == sc,
                    Result::Err(e) => sr matches Result::Err(se) && e@ == se,
                }
            }),
    {
        let n_tokens = self.tokens.len();
        proof {
            // grounds the token count as a machine word
            assert(self.spec_tokens().len() == n_tokens);
        }
        let ghost ts = self.spec_tokens();
        let ghost pos0 = self.spec_pos();
        let mut commands: Vec<Command> = Vec::new();
        loop
            invariant
                self.wf(),
                self.spec_tokens() == ts,
                spec_parse_from(ts, pos0) == (match spec_parse_from(ts, self.spec_pos()) {
                    Result::Ok(rest) => Result::Ok(view_commands(commands@) + rest),
                    Result::Err(e) => Result::<Seq<SpecCommand>, Seq<u8>>::Err(e),
                }),
            decreases ts.len() - self.spec_pos(),
        {
            let ghost lp = self.spec_pos();
            let ghost done = view_commands(commands@);
            if self.pos == self.tokens.len() {
                proof {
                    assert(spec_parse_from(ts, lp) == Result::<Seq<SpecCommand>, Seq<u8>>::Ok(
                        Seq::empty(),
                    ));
                    assert(done + Seq::<SpecCommand>::empty() =~= done);
                }
                return Result::Ok(commands);
            }
            if self.tokens[self.pos].token_type() == TokenType::Semicolon {
                self.pos = self.pos + 1;
                if self.pos == self.tokens.len() {
                    proof {
                        assert(spec_parse_from(ts, lp) == Result::<Seq<SpecCommand>, Seq<u8>>::Ok(
                            Seq::empty(),
                        ));
                        assert(done + Seq::<SpecCommand>::empty() =~= done);
                    }
                    return Result::Ok(commands);
                }
            }
            let ghost p1 = self.spec_pos();
            // dispatch on the token that starts the command
            let tt = self.tokens[self.pos].token_type();
            let cmd_r: Result<Command, ParseError> = if tt == TokenType::Message {
                self.parse_message()
            } else if tt == TokenType::Publisher {
                self.parse_publisher()
            } else if tt == TokenType::Subscribe {
                self.parse_subscriber()
            } else if tt == TokenType::Okay {
                self.parse_okay()
            } else {
                let is_err_word = if tt == TokenType::Name {
                    let v = value_or_empty(&self.tokens[self.pos]);
                    let lv = lower_bytes(&v);
                    bytes_eq(&lv, &word_error())
                } else {
                    false
                };
                if is_err_word {
                    self.parse_error_cmd()
                } else {
                    return Result::Err(ParseError::new(msg_bad_start(tt)));
                }
            };
            match cmd_r {
                Result::Ok(cmd) => {
                    proof {
                        lemma_parse_command_progress(ts, p1);
                    }
                    let ghost p2 = self.spec_pos();
                    commands.push(cmd);
                    proof {
                        assert(spec_parse_command(ts, p1) == Result::<
                            (SpecCommand, nat),
                            Seq<u8>,
                        >::Ok((cmd@, p2)));
                        assert(view_commands(commands@) =~= done.push(cmd@));
                        let inner = spec_parse_from(ts, p2);
                        match inner {
                            Result::Ok(rest) => {
                                assert(spec_parse_from(ts, lp) == Result::<
                                    Seq<SpecCommand>,
                                    Seq<u8>,
                                >::Ok(seq![cmd@] + rest));
                                assert(done + (seq![cmd@] + rest) =~= done.push(cmd@) + rest);
                            },
                            Result::Err(e) => {
                                assert(spec_parse_from(ts, lp) == Result::<
                                    Seq<SpecCommand>,
                                    Seq<u8>,
                                >::Err(e));
                            },
                        }
                    }
                },
                Result::Err(e) => {
                    proof {
                        assert(spec_parse_from(ts, lp) matches Result::Err(se) && se == e@);
                    }
                    return Result::Err(e);
                },
            }
        }
    }
}

/// Parse an input byte string into its commands.
pub fn parse(input: Vec<u8>) -> (r: Result<Vec<Command>, ParseError>)
    ensures
        ({
            let sr = spec_parse_bytes(input@);
            match r {
                Result::Ok(cmds) => sr matches Result::Ok(sc) && view_commands(cmds@) == sc,
                Result::Err(e) => sr matches Result::Err(se) && e@ == se,
            }
        }),
{
    let lexer = Lexer::new(input);
    let mut parser = Parser::new(lexer);
    parser.parse_commands()
}

} // verus!
