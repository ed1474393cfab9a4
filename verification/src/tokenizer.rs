//! The tokenizer.
//!
//! `tokenize` turns a `&str` into a stream of `Token` values. Tokens are
//! produced lazily, one per call to `next`; `spec_tokens` gives the whole
//! sequence that such a stream yields, and every contract below speaks in
//! terms of it. Whitespace is skipped, a run of digits becomes a single
//! `Number` (its value wrapping around `usize` on overflow), and any
//! unrecognized character becomes an `InvalidToken` — the tokenizer itself
//! never fails.

use vstd::prelude::*;

verus! {

use vstd::arithmetic::div_mod::lemma_small_mod;
use vstd::wrapping::usize_specs;

#[derive(PartialEq, Eq, Structural, Debug, Copy, Clone)]
pub enum Operator {
    Add,
    Substract,
    Multiply,
}

#[derive(PartialEq, Eq, Structural, Debug, Copy, Clone)]
pub enum Token {
    Number(usize),
    LeftParen,
    RightParen,
    Operator(Operator),
    InvalidToken,
}

/// Whether `c` is an ASCII decimal digit.
pub open spec fn is_digit(c: char) -> bool {
    48 <= c as u32 <= 57
}

/// The numeric value of the digit `c`.
pub open spec fn digit_val(c: char) -> int {
    c as u32 - 48
}

/// The length of the run of digits at the front of `s`.
pub open spec fn digit_run_len(s: Seq<char>) -> nat
    decreases s.len(),
{
    if s.len() > 0 && is_digit(s[0]) {
        1 + digit_run_len(s.drop_first())
    } else {
        0
    }
}

/// The mathematical value of a digit string, most significant digit first.
pub open spec fn digits_int(s: Seq<char>) -> int
    decreases s.len(),
{
    if s.len() == 0 {
        0
    } else {
        10 * digits_int(s.drop_last()) + digit_val(s.last())
    }
}

/// The value of a digit string as accumulated left to right with wrapping
/// `usize` arithmetic: the value of a `Number` token.
pub open spec fn wrapped_num(s: Seq<char>) -> usize
    decreases s.len(),
{
    if s.len() == 0 {
        0usize
    } else {
        usize_specs::wrapping_add(
            usize_specs::wrapping_mul(wrapped_num(s.drop_last()), 10),
            digit_val(s.last()) as usize,
        )
    }
}

proof fn lemma_digit_run_len_le(s: Seq<char>)
    ensures
        digit_run_len(s) <= s.len(),
    decreases s.len(),
{
    if s.len() > 0 && is_digit(s[0]) {
        lemma_digit_run_len_le(s.drop_first());
    }
}

/// The sequence of tokens that scanning `s` yields, in order.
pub open spec fn spec_tokens(s: Seq<char>) -> Seq<Token>
    decreases s.len(),
    via spec_tokens_decreases
{
    if s.len() == 0 {
        Seq::empty()
    } else if s[0] == ' ' {
        spec_tokens(s.drop_first())
    } else if s[0] == '+' {
        seq![Token::Operator(Operator::Add)] + spec_tokens(s.drop_first())
    } else if s[0] == '-' {
        seq![Token::Operator(Operator::Substract)] + spec_tokens(s.drop_first())
    } else if s[0] == '*' {
        seq![Token::Operator(Operator::Multiply)] + spec_tokens(s.drop_first())
    } else if s[0] == '(' {
        seq![Token::LeftParen] + spec_tokens(s.drop_first())
    } else if s[0] == ')' {
        seq![Token::RightParen] + spec_tokens(s.drop_first())
    } else if is_digit(s[0]) {
        let k = digit_run_len(s) as int;
        seq![Token::Number(wrapped_num(s.take(k)))] + spec_tokens(s.skip(k))
    } else {
        seq![Token::InvalidToken] + spec_tokens(s.drop_first())
    }
}

#[via_fn]
proof fn spec_tokens_decreases(s: Seq<char>) {
    lemma_digit_run_len_le(s);
}

proof fn lemma_digit_run_len_char(s: Seq<char>, k: int)
    requires
        0 <= k <= s.len(),
        forall|j: int| 0 <= j < k ==> is_digit(s[j]),
        k == s.len() || !is_digit(s[k]),
    ensures
        digit_run_len(s) == k,
    decreases s.len(),
{
    if k == 0 {
    } else {
        assert(is_digit(s[0]));
        lemma_digit_run_len_char(s.drop_first(), k - 1);
    }
}

proof fn lemma_digit_run_digits(s: Seq<char>)
    ensures
        forall|j: int| 0 <= j < digit_run_len(s) ==> is_digit(s[j]),
        digit_run_len(s) == s.len() || !is_digit(s[digit_run_len(s) as int]),
    decreases s.len(),
{
    if s.len() > 0 && is_digit(s[0]) {
        let df = s.drop_first();
        lemma_digit_run_len_le(df);
        lemma_digit_run_digits(df);
        assert(digit_run_len(s) == 1 + digit_run_len(df));
        assert forall|j: int| 0 <= j < digit_run_len(s) implies is_digit(s[j]) by {
            if j > 0 {
                assert(s[j] == df[j - 1]);
                assert(is_digit(df[j - 1]));
            }
        }
        if digit_run_len(s) < s.len() {
            assert(s[digit_run_len(s) as int] == df[digit_run_len(df) as int]);
        }
    }
}

proof fn lemma_digits_int_nonneg(s: Seq<char>)
    requires
        forall|i: int| 0 <= i < s.len() ==> is_digit(s[i]),
    ensures
        digits_int(s) >= 0,
    decreases s.len(),
{
    if s.len() > 0 {
        assert(forall|i: int| 0 <= i < s.drop_last().len() ==> is_digit(s.drop_last()[i]));
        lemma_digits_int_nonneg(s.drop_last());
        assert(is_digit(s.last()));
    }
}

/// Wrapping accumulation agrees with the mathematical value of a digit
/// string whenever that value fits in `usize`.
pub proof fn lemma_wrapped_num_exact(s: Seq<char>)
    requires
        forall|i: int| 0 <= i < s.len() ==> is_digit(s[i]),
        digits_int(s) <= usize::MAX as int,
    ensures
        wrapped_num(s) as int == digits_int(s),
    decreases s.len(),
{
    if s.len() > 0 {
        let p = s.drop_last();
        assert(forall|i: int| 0 <= i < p.len() ==> is_digit(p[i]));
        lemma_digits_int_nonneg(p);
        assert(is_digit(s.last()));
        assert(digits_int(p) <= usize::MAX as int);
        lemma_wrapped_num_exact(p);
        lemma_small_mod(
            (wrapped_num(p) * 10) as nat,
            (usize::MAX - usize::MIN + 1) as nat,
        );
    }
}

/// A non-empty text of digits alone scans to a single `Number` token.
pub proof fn lemma_tokens_of_digits(s: Seq<char>)
    requires
        s.len() > 0,
        forall|i: int| 0 <= i < s.len() ==> is_digit(s[i]),
    ensures
        spec_tokens(s) == seq![Token::Number(wrapped_num(s))],
{
    lemma_digit_run_len_char(s, s.len() as int);
    assert(is_digit(s[0]));
    assert(s.take(s.len() as int) =~= s);
    assert(s.skip(s.len() as int) =~= Seq::<char>::empty());
    assert(spec_tokens(Seq::<char>::empty()) == Seq::<Token>::empty());
    assert(spec_tokens(s) == seq![Token::Number(wrapped_num(s.take(s.len() as int)))]
        + spec_tokens(s.skip(s.len() as int)));
    assert(spec_tokens(s) =~= seq![Token::Number(wrapped_num(s))]);
}

/// Inserting a space anywhere but inside a run of digits leaves the token
/// sequence unchanged: whitespace between tokens is insignificant.
pub proof fn lemma_space_insertion(s: Seq<char>, i: int)
    requires
        0 <= i <= s.len(),
        !(0 < i < s.len() && is_digit(s[i - 1]) && is_digit(s[i])),
    ensures
        spec_tokens(s.insert(i, ' ')) == spec_tokens(s),
    decreases s.len(),
{
    let s2 = s.insert(i, ' ');
    if i == 0 {
        assert(s2[0] == ' ');
        assert(s2.drop_first() =~= s);
    } else {
        assert(s2[0] == s[0]);
        let c = s[0];
        if !is_digit(c) || c == ' ' {
            assert(s2.drop_first() =~= s.drop_first().insert(i - 1, ' '));
            if 0 < i - 1 < s.drop_first().len() {
                assert(s.drop_first()[i - 2] == s[i - 1]);
                assert(s.drop_first()[i - 1] == s[i]);
            }
            lemma_space_insertion(s.drop_first(), i - 1);
        } else {
            let k = digit_run_len(s) as int;
            lemma_digit_run_len_le(s);
            lemma_digit_run_digits(s);
            assert(i >= k) by {
                if i < k {
                    assert(is_digit(s[i - 1]) && is_digit(s[i]));
                }
            }
            assert forall|j: int| 0 <= j < k implies is_digit(s2[j]) by {
                assert(s2[j] == s[j]);
            }
            if i == k {
                assert(s2[k] == ' ');
            } else {
                assert(s2[k] == s[k]);
            }
            lemma_digit_run_len_char(s2, k);
            assert(digit_run_len(s2) == k);
            assert(s2.take(k) =~= s.take(k));
            assert(s2.skip(k) =~= s.skip(k).insert(i - k, ' '));
            if 0 < i - k < s.skip(k).len() {
                assert(s.skip(k)[i - k - 1] == s[i - 1]);
                assert(s.skip(k)[i - k] == s[i]);
            }
            lemma_space_insertion(s.skip(k), i - k);
        }
    }
}

/// Removing a space that does not separate two digits leaves the token
/// sequence unchanged: the converse direction of `lemma_space_insertion`.
pub proof fn lemma_space_removal(s: Seq<char>, i: int)
    requires
        0 <= i < s.len(),
        s[i] == ' ',
        !(0 < i && i + 1 < s.len() && is_digit(s[i - 1]) && is_digit(s[i + 1])),
    ensures
        spec_tokens(s.remove(i)) == spec_tokens(s),
{
    let r = s.remove(i);
    assert(r.insert(i, ' ') =~= s);
    if 0 < i < r.len() {
        assert(r[i - 1] == s[i - 1]);
        assert(r[i] == s[i + 1]);
    }
    lemma_space_insertion(r, i);
}

/// Appending a closing parenthesis to a text appends its token to the
/// text's token sequence: a digit run in progress is closed, never extended.
pub proof fn lemma_tokens_append_rparen(s: Seq<char>)
    ensures
        spec_tokens(s + seq![')']) == spec_tokens(s) + seq![Token::RightParen],
    decreases s.len(),
{
    let s2 = s + seq![')'];
    if s.len() == 0 {
        assert(s2 =~= seq![')']);
        assert(s2.drop_first() =~= Seq::<char>::empty());
        assert(spec_tokens(Seq::<char>::empty()) == Seq::<Token>::empty());
        assert(s2[0] == ')');
        assert(spec_tokens(s2) == seq![Token::RightParen] + spec_tokens(s2.drop_first()));
        assert(spec_tokens(s2) =~= spec_tokens(s) + seq![Token::RightParen]);
    } else {
        assert(s2[0] == s[0]);
        let c = s[0];
        if !is_digit(c) || c == ' ' {
            assert(s2.drop_first() =~= s.drop_first() + seq![')']);
            lemma_tokens_append_rparen(s.drop_first());
            assert(spec_tokens(s2.drop_first()) == spec_tokens(s.drop_first()) + seq![
                Token::RightParen,
            ]);
            if c == ' ' {
                assert(spec_tokens(s2) == spec_tokens(s2.drop_first()));
                assert(spec_tokens(s) == spec_tokens(s.drop_first()));
            } else {
                assert(spec_tokens(s2) =~= spec_tokens(s) + seq![Token::RightParen]);
            }
        } else {
            let k = digit_run_len(s) as int;
            lemma_digit_run_len_le(s);
            lemma_digit_run_digits(s);
            assert forall|j: int| 0 <= j < k implies is_digit(s2[j]) by {
                assert(s2[j] == s[j]);
            }
            if k == s.len() {
                assert(s2[k] == ')');
            } else {
                assert(s2[k] == s[k]);
            }
            lemma_digit_run_len_char(s2, k);
            assert(s2.take(k) =~= s.take(k));
            assert(s2.skip(k) =~= s.skip(k) + seq![')']);
            lemma_tokens_append_rparen(s.skip(k));
            assert(spec_tokens(s2) =~= spec_tokens(s) + seq![Token::RightParen]);
        }
    }
}

/// Relates a scanning step to `spec_tokens`: from the characters `s`, the
/// step yielded `t` and left the characters `s2`.
pub open spec fn next_token_of(s: Seq<char>, t: Option<Token>, s2: Seq<char>) -> bool {
    match t {
        None => spec_tokens(s) == Seq::<Token>::empty() && spec_tokens(s2) == Seq::<
            Token,
        >::empty(),
        Some(tok) => spec_tokens(s).len() > 0 && tok == spec_tokens(s)[0] && spec_tokens(s2)
            == spec_tokens(s).drop_first(),
    }
}

/// Scans the one token that starts at or after `pos`: skips spaces, then
/// reads a single lexeme, returning it with the position just past it.
fn scan(chars: &Vec<char>, pos: usize) -> (r: (Option<Token>, usize))
    requires
        pos <= chars.len(),
    ensures
        pos <= r.1 <= chars.len(),
        r.0 is Some ==> pos < r.1,
        next_token_of(chars@.skip(pos as int), r.0, chars@.skip(r.1 as int)),
{
    let len = chars.len();
    let mut i = pos;
    while i < len && chars[i] == ' '
        invariant
            pos <= i <= len,
            len == chars.len(),
            spec_tokens(chars@.skip(pos as int)) == spec_tokens(chars@.skip(i as int)),
        decreases len - i,
    {
        proof {
            assert(chars@.skip(i as int)[0] == ' ');
            assert(chars@.skip(i as int).drop_first() =~= chars@.skip(i as int + 1));
        }
        i = i + 1;
    }
    if i == len {
        proof {
            assert(chars@.skip(i as int) =~= Seq::<char>::empty());
        }
        return (None, i);
    }
    let ghost rem = chars@.skip(i as int);
    let c = chars[i];
    proof {
        assert(rem[0] == c);
        assert(rem.drop_first() =~= chars@.skip(i as int + 1));
    }
    if c == '+' {
        proof {
            assert(spec_tokens(rem).drop_first() =~= spec_tokens(chars@.skip(i as int + 1)));
        }
        (Some(Token::Operator(Operator::Add)), i + 1)
    } else if c == '-' {
        proof {
            assert(spec_tokens(rem).drop_first() =~= spec_tokens(chars@.skip(i as int + 1)));
        }
        (Some(Token::Operator(Operator::Substract)), i + 1)
    } else if c == '*' {
        proof {
            assert(spec_tokens(rem).drop_first() =~= spec_tokens(chars@.skip(i as int + 1)));
        }
        (Some(Token::Operator(Operator::Multiply)), i + 1)
    } else if c == '(' {
        proof {
            assert(spec_tokens(rem).drop_first() =~= spec_tokens(chars@.skip(i as int + 1)));
        }
        (Some(Token::LeftParen), i + 1)
    } else if c == ')' {
        proof {
            assert(spec_tokens(rem).drop_first() =~= spec_tokens(chars@.skip(i as int + 1)));
        }
        (Some(Token::RightParen), i + 1)
    } else {
        let u0 = c as u32;
        if 48 <= u0 && u0 <= 57 {
            let mut acc: usize = (u0 - 48) as usize;
            let mut j = i + 1;
            proof {
                assert(chars@.subrange(i as int, i as int + 1).drop_last() =~= Seq::<
                    char,
                >::empty());
                assert(chars@.subrange(i as int, i as int + 1).last() == c);
                assert(wrapped_num(Seq::<char>::empty()) == 0usize);
                assert(usize_specs::wrapping_mul(0usize, 10usize) == 0usize) by {
                    lemma_small_mod(0nat, (usize::MAX - usize::MIN + 1) as nat);
                }
                assert(digit_val(c) == u0 - 48);
                assert(usize_specs::wrapping_add(0usize, acc) == acc);
                assert(acc == wrapped_num(chars@.subrange(i as int, i as int + 1)));
            }
            while j < len && 48 <= chars[j] as u32 && chars[j] as u32 <= 57
                invariant
                    i < j <= len,
                    len == chars.len(),
                    forall|m: int| i <= m < j ==> is_digit(chars@[m]),
                    acc == wrapped_num(chars@.subrange(i as int, j as int)),
                decreases len - j,
            {
                let d = (chars[j] as u32 - 48) as usize;
                proof {
                    assert(chars@.subrange(i as int, j as int + 1).drop_last() =~= chars@.subrange(
                        i as int,
                        j as int,
                    ));
                    assert(chars@.subrange(i as int, j as int + 1).last() == chars@[j as int]);
                }
                acc = acc.wrapping_mul(10).wrapping_add(d);
                j = j + 1;
            }
            proof {
                assert forall|m: int| 0 <= m < j - i implies is_digit(rem[m]) by {
                    assert(rem[m] == chars@[i + m]);
                }
                lemma_digit_run_len_char(rem, j - i);
                assert(rem.take(j - i) =~= chars@.subrange(i as int, j as int));
                assert(rem.skip(j - i) =~= chars@.skip(j as int));
                assert(spec_tokens(rem) == seq![Token::Number(acc)] + spec_tokens(
                    chars@.skip(j as int),
                ));
                assert(spec_tokens(rem).drop_first() =~= spec_tokens(chars@.skip(j as int)));
            }
            (Some(Token::Number(acc)), j)
        } else {
            proof {
                assert(!is_digit(rem[0]));
                assert(spec_tokens(rem).drop_first() =~= spec_tokens(chars@.skip(i as int + 1)));
            }
            (Some(Token::InvalidToken), i + 1)
        }
    }
}

/// The character-level scanner: holds the text and the position reached.
pub struct Expression {
    chars: Vec<char>,
    pos: usize,
}

impl Expression {
    /// The position reached lies within the text.
    pub closed spec fn wf(&self) -> bool {
        self.pos <= self.chars.len()
    }

    /// The characters not yet consumed.
    pub closed spec fn remaining(&self) -> Seq<char> {
        self.chars@.skip(self.pos as int)
    }

    /// The tokens this scanner will yield from here on.
    pub open spec fn tokens(&self) -> Seq<Token> {
        spec_tokens(self.remaining())
    }

    /// Produce the next token, or `None` at the end of the input.
    pub fn next(&mut self) -> (t: Option<Token>)
        requires
            old(self).wf(),
        ensures
            final(self).wf(),
            match t {
                None => old(self).tokens().len() == 0 && final(self).tokens().len() == 0,
                Some(tok) => old(self).tokens().len() > 0 && tok == old(self).tokens()[0]
                    && final(self).tokens() == old(self).tokens().drop_first(),
            },
    {
        let (t, new_pos) = scan(&self.chars, self.pos);
        self.pos = new_pos;
        t
    }
}

/// The token stream handed to the parser: the scanner plus one token of
/// lookahead through `peek`.
pub struct Tokens {
    expr: Expression,
}

impl Tokens {
    pub closed spec fn wf(&self) -> bool {
        self.expr.wf()
    }

    /// The tokens not yet consumed.
    pub closed spec fn tokens(&self) -> Seq<Token> {
        self.expr.tokens()
    }

    /// Consume and return the next token, or `None` at the end of the input.
    pub fn next(&mut self) -> (t: Option<Token>)
        requires
            old(self).wf(),
        ensures
            final(self).wf(),
            match t {
                None => old(self).tokens().len() == 0 && final(self).tokens().len() == 0,
                Some(tok) => old(self).tokens().len() > 0 && tok == old(self).tokens()[0]
                    && final(self).tokens() == old(self).tokens().drop_first(),
            },
    {
        self.expr.next()
    }

    /// Look at the next token without consuming it.
    pub fn peek(&self) -> (t: Option<Token>)
        requires
            self.wf(),
        ensures
            match t {
                None => self.tokens().len() == 0,
                Some(tok) => self.tokens().len() > 0 && tok == self.tokens()[0],
            },
    {
        let (t, _) = scan(&self.expr.chars, self.expr.pos);
        t
    }
}

/// Turn the input text into a token stream that yields `spec_tokens(s@)`.
pub fn tokenize(s: &str) -> (r: Tokens)
    ensures
        r.wf(),
        r.tokens() == spec_tokens(s@),
{
    let mut chars: Vec<char> = Vec::new();
    for c in it: s.chars()
        invariant
            it.seq() == s@,
            chars@ == it.seq().take(it.index() as int),
    {
        chars.push(c);
    }
    proof {
        assert(chars@ =~= s@);
        assert(chars@.skip(0) =~= chars@);
    }
    Tokens { expr: Expression { chars, pos: 0 } }
}

} // verus!
