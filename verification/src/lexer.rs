use vstd::prelude::*;

use crate::text::byte_is_ascii_space;
use crate::text::byte_is_illegal_byte;
use crate::text::byte_is_word_byte;
use crate::text::byte_is_word_start;
use crate::text::is_ascii_space;
use crate::text::is_illegal_byte;
use crate::text::is_word_byte;
use crate::text::is_word_start;
use crate::text::sub_bytes;
use crate::token::spec_word_token_type;
use crate::token::word_token_type;
use crate::token::SpecToken;
use crate::token::Token;
use crate::token::TokenType;

verus! {

// --- scanning specs ------------------------------------------------------

/// The first position at or after `i` that holds no ASCII whitespace.
pub open spec fn skip_spaces(s: Seq<u8>, i: nat) -> nat
    decreases s.len() - i,
    when i <= s.len()
{
    if i >= s.len() {
        i
    } else if is_ascii_space(s[i as int]) {
        skip_spaces(s, (i + 1) as nat)
    } else {
        i
    }
}

/// The first position at or after `i` whose byte ends a bare word.
pub open spec fn scan_word_end(s: Seq<u8>, i: nat) -> nat
    decreases s.len() - i,
    when i <= s.len()
{
    if i >= s.len() {
        i
    } else if is_word_byte(s[i as int]) {
        scan_word_end(s, (i + 1) as nat)
    } else {
        i
    }
}

/// The first position at or after `i` whose byte ends an unquoted
/// run of punctuation.
pub open spec fn scan_illegal_end(s: Seq<u8>, i: nat) -> nat
    decreases s.len() - i,
    when i <= s.len()
{
    if i >= s.len() {
        i
    } else if is_illegal_byte(s[i as int]) {
        scan_illegal_end(s, (i + 1) as nat)
    } else {
        i
    }
}

/// The first position at or after `i` that holds a double quote.
pub open spec fn scan_quote_end(s: Seq<u8>, i: nat) -> nat
    decreases s.len() - i,
    when i <= s.len()
{
    if i >= s.len() {
        i
    } else if s[i as int] != 34 {
        scan_quote_end(s, (i + 1) as nat)
    } else {
        i
    }
}

pub proof fn lemma_skip_spaces(s: Seq<u8>, i: nat)
    requires
        i <= s.len(),
    ensures
        i <= skip_spaces(s, i) <= s.len(),
        skip_spaces(s, i) < s.len() ==> !is_ascii_space(s[skip_spaces(s, i) as int]),
        forall|k: int| i <= k < skip_spaces(s, i) ==> is_ascii_space(#[trigger] s[k]),
    decreases s.len() - i,
{
    if i >= s.len() {
    } else if is_ascii_space(s[i as int]) {
        lemma_skip_spaces(s, (i + 1) as nat);
    } else {
    }
}

pub proof fn lemma_scan_word_end(s: Seq<u8>, i: nat)
    requires
        i <= s.len(),
    ensures
        i <= scan_word_end(s, i) <= s.len(),
        scan_word_end(s, i) < s.len() ==> !is_word_byte(s[scan_word_end(s, i) as int]),
        forall|k: int| i <= k < scan_word_end(s, i) ==> is_word_byte(#[trigger] s[k]),
    decreases s.len() - i,
{
    if i >= s.len() {
    } else if is_word_byte(s[i as int]) {
        lemma_scan_word_end(s, (i + 1) as nat);
    } else {
    }
}

pub proof fn lemma_scan_illegal_end(s: Seq<u8>, i: nat)
    requires
        i <= s.len(),
    ensures
        i <= scan_illegal_end(s, i) <= s.len(),
        scan_illegal_end(s, i) < s.len() ==> !is_illegal_byte(s[scan_illegal_end(s, i) as int]),
        forall|k: int| i <= k < scan_illegal_end(s, i) ==> is_illegal_byte(#[trigger] s[k]),
    decreases s.len() - i,
{
    if i >= s.len() {
    } else if is_illegal_byte(s[i as int]) {
        lemma_scan_illegal_end(s, (i + 1) as nat);
    } else {
    }
}

pub proof fn lemma_scan_quote_end(s: Seq<u8>, i: nat)
    requires
        i <= s.len(),
    ensures
        i <= scan_quote_end(s, i) <= s.len(),
        scan_quote_end(s, i) < s.len() ==> s[scan_quote_end(s, i) as int] == 34,
        forall|k: int| i <= k < scan_quote_end(s, i) ==> #[trigger] s[k] != 34,
    decreases s.len() - i,
{
    if i >= s.len() {
    } else if s[i as int] != 34 {
        lemma_scan_quote_end(s, (i + 1) as nat);
    } else {
    }
}

// --- one token -----------------------------------------------------------

/// The token that starts at or after position `i0` of `s`, and the
/// position just past it.
pub open spec fn spec_next_token(s: Seq<u8>, i0: nat) -> (SpecToken, nat) {
    let i = skip_spaces(s, i0);
    if i >= s.len() || s[i as int] == 0 {
        (SpecToken { token_type: TokenType::Eof, value: Option::None }, i)
    } else if is_word_start(s[i as int]) {
        let j = scan_word_end(s, i);
        let w = s.subrange(i as int, j as int);
        let tt = spec_word_token_type(w);
        (
            SpecToken {
                token_type: tt,
                value: if tt == TokenType::Name {
                    Option::Some(w)
                } else {
                    Option::None
                },
            },
            j,
        )
    } else if s[i as int] == 34 {
        let j = scan_quote_end(s, (i + 1) as nat);
        if j >= s.len() {
            // unterminated quoted text: everything after the quote, as one
            // illegal token
            (
                SpecToken {
                    token_type: TokenType::Illegal,
                    value: Option::Some(s.subrange(i + 1 as int, s.len() as int)),
                },
                j,
            )
        } else {
            (
                SpecToken {
                    token_type: TokenType::Binary,
                    value: Option::Some(s.subrange(i + 1 as int, j as int)),
                },
                (j + 1) as nat,
            )
        }
    } else if s[i as int] == 59 {
        (SpecToken { token_type: TokenType::Semicolon, value: Option::None }, (i + 1) as nat)
    } else {
        let j = scan_illegal_end(s, i);
        (
            SpecToken {
                token_type: TokenType::Illegal,
                value: Option::Some(s.subrange(i as int, j as int)),
            },
            j,
        )
    }
}

/// Reading one token never moves backwards, stays inside the input, and
/// moves strictly forward unless it reads `Eof`.
pub proof fn lemma_next_token_progress(s: Seq<u8>, i0: nat)
    requires
        i0 <= s.len(),
    ensures
        ({
            let (t, j) = spec_next_token(s, i0);
            &&& i0 <= j <= s.len()
            &&& (t.token_type != TokenType::Eof ==> j > i0)
        }),
{
    lemma_skip_spaces(s, i0);
    let i = skip_spaces(s, i0);
    if i >= s.len() || s[i as int] == 0 {
    } else if is_word_start(s[i as int]) {
        lemma_scan_word_end(s, i);
        assert(is_word_byte(s[i as int]));
        lemma_scan_word_end(s, (i + 1) as nat);
    } else if s[i as int] == 34 {
        lemma_scan_quote_end(s, (i + 1) as nat);
    } else if s[i as int] == 59 {
    } else {
        assert(is_illegal_byte(s[i as int]));
        lemma_scan_illegal_end(s, i);
        lemma_scan_illegal_end(s, (i + 1) as nat);
    }
}

// --- the token stream ----------------------------------------------------

/// All tokens of `s` from position `i` on, up to but not including `Eof`.
pub open spec fn spec_tokens_from(s: Seq<u8>, i: nat) -> Seq<SpecToken>
    decreases s.len() - i,
    when i <= s.len()
{
    let (t, j) = spec_next_token(s, i);
    if t.token_type == TokenType::Eof {
        Seq::empty()
    } else if j <= i || j > s.len() {
        Seq::empty()
    } else {
        seq![t] + spec_tokens_from(s, j)
    }
}

/// The token stream of a whole input.
pub open spec fn spec_tokenize(s: Seq<u8>) -> Seq<SpecToken> {
    spec_tokens_from(s, 0)
}

/// Unfolding the token stream by one (non-`Eof`) token.
pub proof fn lemma_tokens_from_step(s: Seq<u8>, i: nat)
    requires
        i <= s.len(),
    ensures
        ({
            let (t, j) = spec_next_token(s, i);
            t.token_type != TokenType::Eof ==> spec_tokens_from(s, i) == seq![t]
                + spec_tokens_from(s, j)
        }),
{
    lemma_next_token_progress(s, i);
}

// --- the lexer -----------------------------------------------------------

/// A cursor over an input byte string that hands out one token at a time.
pub struct Lexer {
    input: Vec<u8>,
    idx: usize,
}

impl Lexer {
    /// The input bytes the lexer walks over.
    pub closed spec fn spec_input(&self) -> Seq<u8> {
        self.input@
    }

    /// The position of the cursor.
    pub closed spec fn spec_idx(&self) -> nat {
        self.idx as nat
    }

    pub open spec fn wf(&self) -> bool {
        self.spec_idx() <= self.spec_input().len()
    }

    pub fn new(input: Vec<u8>) -> (l: Lexer)
        ensures
            l.wf(),
            l.spec_input() == input@,
            l.spec_idx() == 0,
    {
        Lexer { input, idx: 0 }
    }

    /// Read the token that starts at the cursor and move the cursor past it.
    pub fn next_token(&mut self) -> (t: Token)
        requires
            old(self).wf(),
        ensures
            final(self).wf(),
            final(self).spec_input() == old(self).spec_input(),
            t@ == spec_next_token(old(self).spec_input(), old(self).spec_idx()).0,
            final(self).spec_idx() == spec_next_token(
                old(self).spec_input(),
                old(self).spec_idx(),
            ).1,
    {
        let ghost s = self.input@;
        let ghost i0 = self.idx as nat;
        proof {
            lemma_skip_spaces(s, i0);
        }
        while self.idx < self.input.len() && byte_is_ascii_space(self.input[self.idx])
            invariant
                self.input@ == s,
                i0 <= self.idx as nat <= s.len(),
                skip_spaces(s, i0) == skip_spaces(s, self.idx as nat),
            decreases s.len() - self.idx,
        {
            self.idx = self.idx + 1;
        }
        assert(self.idx as nat == skip_spaces(s, i0));
        let i = self.idx;
        if i == self.input.len() {
            return Token::new(TokenType::Eof, Option::None);
        }
        let b = self.input[i];
        if b == 0 {
            Token::new(TokenType::Eof, Option::None)
        } else if byte_is_word_start(b) {
            proof {
                lemma_scan_word_end(s, i as nat);
            }
            while self.idx < self.input.len() && byte_is_word_byte(self.input[self.idx])
                invariant
                    self.input@ == s,
                    i <= self.idx as nat <= s.len(),
                    scan_word_end(s, i as nat) == scan_word_end(s, self.idx as nat),
                decreases s.len() - self.idx,
            {
                self.idx = self.idx + 1;
            }
            assert(self.idx as nat == scan_word_end(s, i as nat));
            let w = sub_bytes(&self.input, i, self.idx);
            let tt = word_token_type(&w);
            if tt == TokenType::Name {
                Token::new(tt, Option::Some(w))
            } else {
                Token::new(tt, Option::None)
            }
        } else if b == 34 {
            self.idx = self.idx + 1;
            let start = self.idx;
            proof {
                lemma_scan_quote_end(s, start as nat);
            }
            while self.idx < self.input.len() && self.input[self.idx] != 34
                invariant
                    self.input@ == s,
                    start <= self.idx as nat <= s.len(),
                    scan_quote_end(s, start as nat) == scan_quote_end(s, self.idx as nat),
                decreases s.len() - self.idx,
            {
                self.idx = self.idx + 1;
            }
            assert(self.idx as nat == scan_quote_end(s, start as nat));
            let v = sub_bytes(&self.input, start, self.idx);
            if self.idx == self.input.len() {
                // unterminated quoted text
                Token::new(TokenType::Illegal, Option::Some(v))
            } else {
                self.idx = self.idx + 1;
                Token::new(TokenType::Binary, Option::Some(v))
            }
        } else if b == 59 {
            self.idx = self.idx + 1;
            Token::new(TokenType::Semicolon, Option::None)
        } else {
            proof {
                lemma_scan_illegal_end(s, i as nat);
            }
            while self.idx < self.input.len() && byte_is_illegal_byte(self.input[self.idx])
                invariant
                    self.input@ == s,
                    i <= self.idx as nat <= s.len(),
                    scan_illegal_end(s, i as nat) == scan_illegal_end(s, self.idx as nat),
                decreases s.len() - self.idx,
            {
                self.idx = self.idx + 1;
            }
            assert(self.idx as nat == scan_illegal_end(s, i as nat));
            let v = sub_bytes(&self.input, i, self.idx);
            Token::new(TokenType::Illegal, Option::Some(v))
        }
    }
}

/// A run of word bytes from `i` to `j`, stopped there, scans to `j`.
pub proof fn lemma_scan_word_end_at(s: Seq<u8>, i: nat, j: nat)
    requires
        i <= j <= s.len(),
        forall|k: int| i <= k < j ==> is_word_byte(#[trigger] s[k]),
        j < s.len() ==> !is_word_byte(s[j as int]),
    ensures
        scan_word_end(s, i) == j,
    decreases j - i,
{
    if i == j {
    } else {
        lemma_scan_word_end_at(s, (i + 1) as nat, j);
    }
}

/// A run of unquoted punctuation from `i` to `j`, stopped there, scans
/// to `j`.
pub proof fn lemma_scan_illegal_end_at(s: Seq<u8>, i: nat, j: nat)
    requires
        i <= j <= s.len(),
        forall|k: int| i <= k < j ==> is_illegal_byte(#[trigger] s[k]),
        j < s.len() ==> !is_illegal_byte(s[j as int]),
    ensures
        scan_illegal_end(s, i) == j,
    decreases j - i,
{
    if i == j {
    } else {
        lemma_scan_illegal_end_at(s, (i + 1) as nat, j);
    }
}

/// A run free of double quotes from `i` to `j`, with one at `j`, scans
/// to `j`.
pub proof fn lemma_scan_quote_end_at(s: Seq<u8>, i: nat, j: nat)
    requires
        i <= j <= s.len(),
        forall|k: int| i <= k < j ==> #[trigger] s[k] != 34,
        j < s.len() ==> s[j as int] == 34,
    ensures
        scan_quote_end(s, i) == j,
    decreases j - i,
{
    if i == j {
    } else {
        lemma_scan_quote_end_at(s, (i + 1) as nat, j);
    }
}

/// A run of whitespace from `i` to `j`, stopped there, skips to `j`.
pub proof fn lemma_skip_spaces_at(s: Seq<u8>, i: nat, j: nat)
    requires
        i <= j <= s.len(),
        forall|k: int| i <= k < j ==> is_ascii_space(#[trigger] s[k]),
        j < s.len() ==> !is_ascii_space(s[j as int]),
    ensures
        skip_spaces(s, i) == j,
    decreases j - i,
{
    if i == j {
    } else {
        lemma_skip_spaces_at(s, (i + 1) as nat, j);
    }
}

/// The token that a bare word, preceded by whitespace, makes.
pub proof fn lemma_next_token_word_at(s: Seq<u8>, i0: nat, i: nat, j: nat)
    requires
        i0 <= i < j <= s.len(),
        forall|k: int| i0 <= k < i ==> is_ascii_space(#[trigger] s[k]),
        is_word_start(s[i as int]),
        forall|k: int| i <= k < j ==> is_word_byte(#[trigger] s[k]),
        j < s.len() ==> !is_word_byte(s[j as int]),
    ensures
        ({
            let w = s.subrange(i as int, j as int);
            let tt = spec_word_token_type(w);
            spec_next_token(s, i0) == (
                SpecToken {
                    token_type: tt,
                    value: if tt == TokenType::Name {
                        Option::Some(w)
                    } else {
                        Option::<Seq<u8>>::None
                    },
                },
                j,
            )
        }),
{
    assert(!is_ascii_space(s[i as int]));
    lemma_skip_spaces_at(s, i0, i);
    lemma_scan_word_end_at(s, i, j);
    assert(s[i as int] != 0);
}

/// The token that a run of unquoted punctuation, preceded by whitespace,
/// makes.
pub proof fn lemma_next_token_illegal_at(s: Seq<u8>, i0: nat, i: nat, j: nat)
    requires
        i0 <= i < j <= s.len(),
        forall|k: int| i0 <= k < i ==> is_ascii_space(#[trigger] s[k]),
        !is_word_start(s[i as int]),
        s[i as int] != 34,
        s[i as int] != 59,
        forall|k: int| i <= k < j ==> is_illegal_byte(#[trigger] s[k]),
        j < s.len() ==> !is_illegal_byte(s[j as int]),
    ensures
        spec_next_token(s, i0) == (
            SpecToken {
                token_type: TokenType::Illegal,
                value: Option::Some(s.subrange(i as int, j as int)),
            },
            j,
        ),
{
    assert(is_illegal_byte(s[i as int]));
    assert(!is_ascii_space(s[i as int]));
    lemma_skip_spaces_at(s, i0, i);
    lemma_scan_illegal_end_at(s, i, j);
    assert(s[i as int] != 0);
}

/// The token that quoted text, preceded by whitespace, makes.
pub proof fn lemma_next_token_binary_at(s: Seq<u8>, i0: nat, i: nat, j: nat)
    requires
        i0 <= i < j < s.len(),
        forall|k: int| i0 <= k < i ==> is_ascii_space(#[trigger] s[k]),
        s[i as int] == 34,
        forall|k: int| i < k < j ==> #[trigger] s[k] != 34,
        s[j as int] == 34,
    ensures
        spec_next_token(s, i0) == (
            SpecToken {
                token_type: TokenType::Binary,
                value: Option::Some(s.subrange(i as int + 1, j as int)),
            },
            (j + 1) as nat,
        ),
{
    assert(!is_ascii_space(s[i as int]));
    lemma_skip_spaces_at(s, i0, i);
    lemma_scan_quote_end_at(s, (i + 1) as nat, j);
    assert(!is_word_start(34));
}

/// The `Eof` token that the end of the input, preceded by whitespace,
/// makes.
pub proof fn lemma_next_token_eof_at(s: Seq<u8>, i0: nat)
    requires
        i0 <= s.len(),
        forall|k: int| i0 <= k < s.len() ==> is_ascii_space(#[trigger] s[k]),
    ensures
        spec_next_token(s, i0).0.token_type == TokenType::Eof,
{
    lemma_skip_spaces_at(s, i0, s.len());
}

// --- tokenization is suffix-local ----------------------------------------

proof fn lemma_skip_spaces_shift(s1: Seq<u8>, s2: Seq<u8>, i: nat)
    requires
        i <= s2.len(),
    ensures
        skip_spaces(s1 + s2, (s1.len() + i) as nat) == s1.len() + skip_spaces(s2, i),
    decreases s2.len() - i,
{
    if i >= s2.len() {
    } else {
        assert((s1 + s2)[s1.len() + i as int] == s2[i as int]);
        if is_ascii_space(s2[i as int]) {
            lemma_skip_spaces_shift(s1, s2, (i + 1) as nat);
        }
    }
}

proof fn lemma_scan_word_end_shift(s1: Seq<u8>, s2: Seq<u8>, i: nat)
    requires
        i <= s2.len(),
    ensures
        scan_word_end(s1 + s2, (s1.len() + i) as nat) == s1.len() + scan_word_end(s2, i),
    decreases s2.len() - i,
{
    if i >= s2.len() {
    } else {
        assert((s1 + s2)[s1.len() + i as int] == s2[i as int]);
        if is_word_byte(s2[i as int]) {
            lemma_scan_word_end_shift(s1, s2, (i + 1) as nat);
        }
    }
}

proof fn lemma_scan_illegal_end_shift(s1: Seq<u8>, s2: Seq<u8>, i: nat)
    requires
        i <= s2.len(),
    ensures
        scan_illegal_end(s1 + s2, (s1.len() + i) as nat) == s1.len() + scan_illegal_end(s2, i),
    decreases s2.len() - i,
{
    if i >= s2.len() {
    } else {
        assert((s1 + s2)[s1.len() + i as int] == s2[i as int]);
        if is_illegal_byte(s2[i as int]) {
            lemma_scan_illegal_end_shift(s1, s2, (i + 1) as nat);
        }
    }
}

proof fn lemma_scan_quote_end_shift(s1: Seq<u8>, s2: Seq<u8>, i: nat)
    requires
        i <= s2.len(),
    ensures
        scan_quote_end(s1 + s2, (s1.len() + i) as nat) == s1.len() + scan_quote_end(s2, i),
    decreases s2.len() - i,
{
    if i >= s2.len() {
    } else {
        assert((s1 + s2)[s1.len() + i as int] == s2[i as int]);
        if s2[i as int] != 34 {
            lemma_scan_quote_end_shift(s1, s2, (i + 1) as nat);
        }
    }
}

/// Reading a token from a position inside the second part of a
/// concatenation sees the second part alone.
pub proof fn lemma_next_token_shift(s1: Seq<u8>, s2: Seq<u8>, i: nat)
    requires
        i <= s2.len(),
    ensures
        spec_next_token(s1 + s2, (s1.len() + i) as nat).0 == spec_next_token(s2, i).0,
        spec_next_token(s1 + s2, (s1.len() + i) as nat).1 == s1.len() + spec_next_token(s2, i).1,
{
    let s = s1 + s2;
    lemma_skip_spaces_shift(s1, s2, i);
    lemma_skip_spaces(s2, i);
    let j = skip_spaces(s2, i);
    assert(forall|k: int| 0 <= k < s2.len() ==> s[s1.len() + k] == #[trigger] s2[k]);
    if j >= s2.len() {
    } else {
        assert(s[s1.len() + j as int] == s2[j as int]);
        if s2[j as int] == 0 {
        } else if is_word_start(s2[j as int]) {
            lemma_scan_word_end_shift(s1, s2, j);
            lemma_scan_word_end(s2, j);
            let e = scan_word_end(s2, j);
            assert(s.subrange(s1.len() + j as int, s1.len() + e as int) =~= s2.subrange(j as int, e as int));
        } else if s2[j as int] == 34 {
            lemma_scan_quote_end_shift(s1, s2, (j + 1) as nat);
            lemma_scan_quote_end(s2, (j + 1) as nat);
            let e = scan_quote_end(s2, (j + 1) as nat);
            if e >= s2.len() {
                assert(s.subrange(s1.len() + j as int + 1, s.len() as int) =~= s2.subrange(
                    j + 1 as int,
                    s2.len() as int,
                ));
            } else {
                assert(s.subrange(s1.len() + j as int + 1, s1.len() + e as int) =~= s2.subrange(
                    j + 1 as int,
                    e as int,
                ));
            }
        } else if s2[j as int] == 59 {
        } else {
            lemma_scan_illegal_end_shift(s1, s2, j);
            lemma_scan_illegal_end(s2, j);
            let e = scan_illegal_end(s2, j);
            assert(s.subrange(s1.len() + j as int, s1.len() + e as int) =~= s2.subrange(j as int, e as int));
        }
    }
}

/// The token stream from a position inside the second part of a
/// concatenation is the second part's own stream.
pub proof fn lemma_tokens_from_shift(s1: Seq<u8>, s2: Seq<u8>, i: nat)
    requires
        i <= s2.len(),
    ensures
        spec_tokens_from(s1 + s2, (s1.len() + i) as nat) == spec_tokens_from(s2, i),
    decreases s2.len() - i,
{
    lemma_next_token_shift(s1, s2, i);
    lemma_next_token_progress(s2, i);
    let (t, j) = spec_next_token(s2, i);
    if t.token_type == TokenType::Eof {
    } else {
        lemma_tokens_from_shift(s1, s2, j);
        lemma_tokens_from_step(s1 + s2, (s1.len() + i) as nat);
        lemma_tokens_from_step(s2, i);
    }
}

/// Every quoted text that the lexing of `s` from `i` on walks into is
/// closed by a second double quote before the input ends.
pub open spec fn quotes_terminated(s: Seq<u8>, i: nat) -> bool
    decreases s.len() - i,
    when i <= s.len()
{
    let (t, j) = spec_next_token(s, i);
    if t.token_type == TokenType::Eof {
        true
    } else if j <= i || j > s.len() {
        true
    } else {
        let p = skip_spaces(s, i);
        &&& !(p < s.len() && s[p as int] == 34 && scan_quote_end(s, (p + 1) as nat) >= s.len())
        &&& quotes_terminated(s, j)
    }
}

} // verus!



