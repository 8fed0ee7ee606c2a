use vstd::prelude::*;

use crate::text::bytes_eq;
use crate::text::copy_bytes;
use crate::text::lower_bytes;
use crate::text::spec_lower_seq;

verus! {

/// The kind of one protocol token.
#[derive(Clone, Copy, Debug, PartialEq, Eq, Structural)]
pub enum TokenType {
    Okay,
    Eof,
    With,
    Name,
    Group,
    Illegal,
    Message,
    Publisher,
    Subscribe,
    Semicolon,
    Binary,
}

/// The mathematical model of a token: its kind, and the bytes it carries.
/// Only `Name`, `Binary` and `Illegal` tokens carry bytes.
pub ghost struct SpecToken {
    pub token_type: TokenType,
    pub value: Option<Seq<u8>>,
}

/// One protocol token, as the lexer hands it out.
#[derive(Debug, Clone, PartialEq, Eq)]
pub struct Token {
    token_type: TokenType,
    value: Option<Vec<u8>>,
}

impl View for Token {
    type V = SpecToken;

    closed spec fn view(&self) -> SpecToken {
        SpecToken {
            token_type: self.token_type,
            value: match self.value {
                Option::Some(v) => Option::Some(v@),
                Option::None => Option::None,
            },
        }
    }
}

impl Token {
    pub fn new(token_type: TokenType, value: Option<Vec<u8>>) -> (t: Token)
        ensures
            t@.token_type == token_type,
            t@.value == (match value {
                Option::Some(v) => Option::Some(v@),
                Option::None => Option::<Seq<u8>>::None,
            }),
    {
        Token { token_type, value }
    }

    pub fn token_type(&self) -> (t: TokenType)
        ensures
            t == self@.token_type,
    {
        self.token_type
    }

    /// A copy of the bytes this token carries, if it carries any.
    pub fn value(&self) -> (v: Option<Vec<u8>>)
        ensures
            v matches Option::Some(b) ==> self@.value matches Option::Some(sb) && b@ == sb,
            v is None <==> self@.value is None,
    {
        match &self.value {
            Option::Some(b) => Option::Some(copy_bytes(b)),
            Option::None => Option::None,
        }
    }
}

// --- keywords ------------------------------------------------------------

pub open spec fn spec_kw_with() -> Seq<u8> {
    seq![119u8, 105u8, 116u8, 104u8]
}

pub open spec fn spec_kw_group() -> Seq<u8> {
    seq![103u8, 114u8, 111u8, 117u8, 112u8]
}

pub open spec fn spec_kw_publisher() -> Seq<u8> {
    seq![112u8, 117u8, 98u8, 108u8, 105u8, 115u8, 104u8, 101u8, 114u8]
}

pub open spec fn spec_kw_subscribe() -> Seq<u8> {
    seq![115u8, 117u8, 98u8, 115u8, 99u8, 114u8, 105u8, 98u8, 101u8]
}

pub open spec fn spec_kw_message() -> Seq<u8> {
    seq![109u8, 101u8, 115u8, 115u8, 97u8, 103u8, 101u8]
}

pub open spec fn spec_kw_ok() -> Seq<u8> {
    seq![111u8, 107u8]
}

/// The word `error`, which introduces an error command but is no keyword
/// of the lexer: it reaches the parser as a `Name` token.
pub open spec fn spec_word_error() -> Seq<u8> {
    seq![101u8, 114u8, 114u8, 111u8, 114u8]
}

pub fn kw_with() -> (r: Vec<u8>)
    ensures
        r@ == spec_kw_with(),
{
    let r: Vec<u8> = vec![119u8, 105u8, 116u8, 104u8];
    proof {
        assert(r@ =~= spec_kw_with());
    }
    r
}

pub fn kw_group() -> (r: Vec<u8>)
    ensures
        r@ == spec_kw_group(),
{
    let r: Vec<u8> = vec![103u8, 114u8, 111u8, 117u8, 112u8];
    proof {
        assert(r@ =~= spec_kw_group());
    }
    r
}

pub fn kw_publisher() -> (r: Vec<u8>)
    ensures
        r@ == spec_kw_publisher(),
{
    let r: Vec<u8> = vec![112u8, 117u8, 98u8, 108u8, 105u8, 115u8, 104u8, 101u8, 114u8];
    proof {
        assert(r@ =~= spec_kw_publisher());
    }
    r
}

pub fn kw_subscribe() -> (r: Vec<u8>)
    ensures
        r@ == spec_kw_subscribe(),
{
    let r: Vec<u8> = vec![115u8, 117u8, 98u8, 115u8, 99u8, 114u8, 105u8, 98u8, 101u8];
    proof {
        assert(r@ =~= spec_kw_subscribe());
    }
    r
}

pub fn kw_message() -> (r: Vec<u8>)
    ensures
        r@ == spec_kw_message(),
{
    let r: Vec<u8> = vec![109u8, 101u8, 115u8, 115u8, 97u8, 103u8, 101u8];
    proof {
        assert(r@ =~= spec_kw_message());
    }
    r
}

pub fn kw_ok() -> (r: Vec<u8>)
    ensures
        r@ == spec_kw_ok(),
{
    let r: Vec<u8> = vec![111u8, 107u8];
    proof {
        assert(r@ =~= spec_kw_ok());
    }
    r
}

pub fn word_error() -> (r: Vec<u8>)
    ensures
        r@ == spec_word_error(),
{
    let r: Vec<u8> = vec![101u8, 114u8, 114u8, 111u8, 114u8];
    proof {
        assert(r@ =~= spec_word_error());
    }
    r
}

/// Which kind of token a bare word makes: a keyword kind when its
/// ASCII-lowercased form matches one, a `Name` otherwise.
pub open spec fn spec_word_token_type(w: Seq<u8>) -> TokenType {
    let l = spec_lower_seq(w);
    if l == spec_kw_with() {
        TokenType::With
    } else if l == spec_kw_group() {
        TokenType::Group
    } else if l == spec_kw_publisher() {
        TokenType::Publisher
    } else if l == spec_kw_subscribe() {
        TokenType::Subscribe
    } else if l == spec_kw_message() {
        TokenType::Message
    } else if l == spec_kw_ok() {
        TokenType::Okay
    } else {
        TokenType::Name
    }
}

pub fn word_token_type(w: &Vec<u8>) -> (t: TokenType)
    ensures
        t == spec_word_token_type(w@),
{
    let l = lower_bytes(w);
    if bytes_eq(&l, &kw_with()) {
        TokenType::With
    } else if bytes_eq(&l, &kw_group()) {
        TokenType::Group
    } else if bytes_eq(&l, &kw_publisher()) {
        TokenType::Publisher
    } else if bytes_eq(&l, &kw_subscribe()) {
        TokenType::Subscribe
    } else if bytes_eq(&l, &kw_message()) {
        TokenType::Message
    } else if bytes_eq(&l, &kw_ok()) {
        TokenType::Okay
    } else {
        TokenType::Name
    }
}

} // verus!
