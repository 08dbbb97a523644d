//! Lexical analysis: converts a line of characters into a sequence of tokens.
//!
//! The rules, tried in this order at each position: an arithmetic operator
//! character, `=`, `(`, `)`, a run of decimal digits, a run of alphabetic
//! characters, whitespace (skipped), anything else (an error token). A digit
//! or letter run that ends at a character which is neither whitespace, an
//! operator, `=` nor `)` is malformed: an error token carries the run plus the
//! offending character, and lexing stops. A digit run whose value does not fit
//! a signed 32-bit integer also becomes an error token. A line lexed to the
//! end is terminated by exactly one end-of-input token; an error token is
//! always the last token emitted.

use vstd::prelude::*;

verus! {

/// The four arithmetic operators.
#[derive(PartialEq, Debug, Copy, Clone)]
pub enum Operator {
    Plus,
    Minus,
    Times,
    Divide,
}

/// A lexical token. `Ident` and `Error` carry the text they were read from;
/// `Num` carries only digits already validated and bounds-checked.
#[derive(PartialEq, Debug, Clone)]
pub enum Token {
    LParen,
    RParen,
    Assign,
    Op(Operator),
    Ident(String),
    Num(i32),
    Error(String),
    End,
}

/// Mathematical model of a token: text as a character sequence.
pub enum TokenModel {
    LParen,
    RParen,
    Assign,
    Op(Operator),
    Ident(Seq<char>),
    Num(i32),
    Error(Seq<char>),
    End,
}

impl DeepView for Token {
    type V = TokenModel;

    open spec fn deep_view(&self) -> TokenModel {
        match self {
            Token::LParen => TokenModel::LParen,
            Token::RParen => TokenModel::RParen,
            Token::Assign => TokenModel::Assign,
            Token::Op(op) => TokenModel::Op(*op),
            Token::Ident(s) => TokenModel::Ident(s@),
            Token::Num(n) => TokenModel::Num(*n),
            Token::Error(s) => TokenModel::Error(s@),
            Token::End => TokenModel::End,
        }
    }
}

/// Whether `c` is one of the four operator characters.
pub open spec fn is_op_char(c: char) -> bool {
    c == '+' || c == '-' || c == '*' || c == '/'
}

/// The operator a character stands for.
pub open spec fn op_of_char(c: char) -> Operator {
    if c == '-' {
        Operator::Minus
    } else if c == '*' {
        Operator::Times
    } else if c == '/' {
        Operator::Divide
    } else {
        Operator::Plus
    }
}

/// Whether `c` is a decimal digit.
pub open spec fn is_digit_char(c: char) -> bool {
    '0' as u32 <= c as u32 && c as u32 <= '9' as u32
}

/// The numeric value of a decimal digit character.
pub open spec fn digit_val(c: char) -> int {
    c as u32 - '0' as u32
}

/// What `char::is_alphabetic` returns; it depends on the character alone.
pub uninterp spec fn is_alpha_char(c: char) -> bool;

/// What `char::is_whitespace` returns; it depends on the character alone.
pub uninterp spec fn is_space_char(c: char) -> bool;

/// Relies on char::is_alphabetic: whether the character has the Unicode
/// `Alphabetic` property, a function of the character alone.
#[verifier::external_body]
fn alphabetic(c: char) -> (r: bool)
    ensures
        r == is_alpha_char(c),
{
    c.is_alphabetic()
}

/// Relies on char::is_whitespace: whether the character has the Unicode
/// `White_Space` property, a function of the character alone.
#[verifier::external_body]
fn whitespace(c: char) -> (r: bool)
    ensures
        r == is_space_char(c),
{
    c.is_whitespace()
}

/// Relies on String::push: appends the character to the end of the string.
#[verifier::external_body]
fn push_char(s: &mut String, c: char)
    ensures
        final(s)@ == old(s)@.push(c),
{
    s.push(c)
}

/// The value of a sequence of decimal digit characters, most significant
/// first.
pub open spec fn digits_val(ds: Seq<char>) -> int
    decreases ds.len(),
{
    if ds.len() == 0 {
        0
    } else {
        digits_val(ds.drop_last()) * 10 + digit_val(ds.last())
    }
}

/// The token a completed digit run turns into, followed by `rest` when the
/// value fits a signed 32-bit integer; a too-large value is an error token
/// that ends the line.
pub open spec fn number_then(digits: Seq<char>, rest: Seq<TokenModel>) -> Seq<TokenModel> {
    if digits_val(digits) > i32::MAX {
        seq![TokenModel::Error(digits)]
    } else {
        seq![TokenModel::Num(digits_val(digits) as i32)] + rest
    }
}

/// The token sequence that lexing `s` produces.
pub open spec fn spec_lex(s: Seq<char>) -> Seq<TokenModel>
    decreases s.len(),
{
    if s.len() == 0 {
        seq![TokenModel::End]
    } else {
        let c = s[0];
        if is_op_char(c) {
            seq![TokenModel::Op(op_of_char(c))] + spec_lex(s.skip(1))
        } else if c == '=' {
            seq![TokenModel::Assign] + spec_lex(s.skip(1))
        } else if c == '(' {
            seq![TokenModel::LParen] + spec_lex(s.skip(1))
        } else if c == ')' {
            seq![TokenModel::RParen] + spec_lex(s.skip(1))
        } else if is_digit_char(c) {
            spec_lex_number(s.skip(1), seq![c])
        } else if is_alpha_char(c) {
            spec_lex_ident(s.skip(1), seq![c])
        } else if is_space_char(c) {
            spec_lex(s.skip(1))
        } else {
            seq![TokenModel::Error(seq![c])]
        }
    }
}

/// Lexing in the middle of a digit run: `digits` has been accumulated and `s`
/// is the rest of the line.
pub open spec fn spec_lex_number(s: Seq<char>, digits: Seq<char>) -> Seq<TokenModel>
    decreases s.len(),
{
    if s.len() == 0 {
        number_then(digits, seq![TokenModel::End])
    } else {
        let c = s[0];
        if is_digit_char(c) {
            spec_lex_number(s.skip(1), digits.push(c))
        } else if is_space_char(c) {
            number_then(digits, spec_lex(s.skip(1)))
        } else if is_op_char(c) {
            number_then(digits, seq![TokenModel::Op(op_of_char(c))] + spec_lex(s.skip(1)))
        } else if c == '=' {
            number_then(digits, seq![TokenModel::Assign] + spec_lex(s.skip(1)))
        } else if c == ')' {
            number_then(digits, seq![TokenModel::RParen] + spec_lex(s.skip(1)))
        } else {
            seq![TokenModel::Error(digits.push(c))]
        }
    }
}

/// Lexing in the middle of an identifier: `name` has been accumulated and `s`
/// is the rest of the line.
pub open spec fn spec_lex_ident(s: Seq<char>, name: Seq<char>) -> Seq<TokenModel>
    decreases s.len(),
{
    if s.len() == 0 {
        seq![TokenModel::Ident(name), TokenModel::End]
    } else {
        let c = s[0];
        if is_alpha_char(c) {
            spec_lex_ident(s.skip(1), name.push(c))
        } else if is_space_char(c) {
            seq![TokenModel::Ident(name)] + spec_lex(s.skip(1))
        } else if is_op_char(c) {
            seq![TokenModel::Ident(name), TokenModel::Op(op_of_char(c))] + spec_lex(s.skip(1))
        } else if c == '=' {
            seq![TokenModel::Ident(name), TokenModel::Assign] + spec_lex(s.skip(1))
        } else if c == ')' {
            seq![TokenModel::Ident(name), TokenModel::RParen] + spec_lex(s.skip(1))
        } else {
            seq![TokenModel::Error(name.push(c))]
        }
    }
}

/// The shape every lexed line has: at least one token; the last token is the
/// end marker or an error and no earlier one is; a number token is never
/// negative; an identifier token is never empty.
pub open spec fn well_formed_tokens(toks: Seq<TokenModel>) -> bool {
    &&& toks.len() > 0
    &&& (toks.last() is End || toks.last() is Error)
    &&& forall|k: int|
        0 <= k < toks.len() - 1 ==> !((#[trigger] toks[k]) is End) && !(toks[k] is Error)
    &&& forall|k: int| 0 <= k < toks.len() && (#[trigger] toks[k]) is Num ==> toks[k]->Num_0 >= 0
    &&& forall|k: int|
        0 <= k < toks.len() && (#[trigger] toks[k]) is Ident ==> toks[k]->Ident_0.len() > 0
}

/// An ordinary token in front of a well-formed tail keeps the shape.
proof fn lemma_prepend_ordinary(t: TokenModel, toks: Seq<TokenModel>)
    requires
        well_formed_tokens(toks),
        !(t is End),
        !(t is Error),
        t is Num ==> t->Num_0 >= 0,
        t is Ident ==> t->Ident_0.len() > 0,
    ensures
        well_formed_tokens(seq![t] + toks),
{
    let all = seq![t] + toks;
    assert(all.last() == toks.last());
    assert forall|k: int| 0 <= k < all.len() - 1 implies !((#[trigger] all[k]) is End) && !(
    all[k] is Error) by {
        if k > 0 {
            assert(all[k] == toks[k - 1]);
        }
    }
    assert forall|k: int| 0 <= k < all.len() && (#[trigger] all[k]) is Num implies all[k]->Num_0
        >= 0 by {
        if k > 0 {
            assert(all[k] == toks[k - 1]);
        }
    }
    assert forall|k: int|
        0 <= k < all.len() && (#[trigger] all[k]) is Ident implies all[k]->Ident_0.len() > 0 by {
        if k > 0 {
            assert(all[k] == toks[k - 1]);
        }
    }
}

/// Law: every lexed line is well formed: the tokens end with exactly one end
/// marker, or with an error token that nothing follows; numbers carry only
/// validated nonnegative values; identifiers are never empty.
pub proof fn lemma_lex_well_formed(s: Seq<char>)
    ensures
        well_formed_tokens(spec_lex(s)),
    decreases s.len(),
{
    if s.len() == 0 {
        assert(well_formed_tokens(seq![TokenModel::End]));
    } else {
        let c = s[0];
        if is_op_char(c) {
            lemma_lex_well_formed(s.skip(1));
            lemma_prepend_ordinary(TokenModel::Op(op_of_char(c)), spec_lex(s.skip(1)));
        } else if c == '=' {
            lemma_lex_well_formed(s.skip(1));
            lemma_prepend_ordinary(TokenModel::Assign, spec_lex(s.skip(1)));
        } else if c == '(' {
            lemma_lex_well_formed(s.skip(1));
            lemma_prepend_ordinary(TokenModel::LParen, spec_lex(s.skip(1)));
        } else if c == ')' {
            lemma_lex_well_formed(s.skip(1));
            lemma_prepend_ordinary(TokenModel::RParen, spec_lex(s.skip(1)));
        } else if is_digit_char(c) {
            lemma_lex_number_well_formed(s.skip(1), seq![c]);
        } else if is_alpha_char(c) {
            lemma_lex_ident_well_formed(s.skip(1), seq![c]);
        } else if is_space_char(c) {
            lemma_lex_well_formed(s.skip(1));
        } else {
            assert(well_formed_tokens(seq![TokenModel::Error(seq![c])]));
        }
    }
}

/// The emitted number (or terminal error) in front of what follows keeps the
/// shape.
proof fn lemma_number_then_well_formed(digits: Seq<char>, rest: Seq<TokenModel>)
    requires
        digits.len() > 0,
        forall|k: int| 0 <= k < digits.len() ==> is_digit_char(#[trigger] digits[k]),
        well_formed_tokens(rest),
    ensures
        well_formed_tokens(number_then(digits, rest)),
{
    lemma_digits_val_nonneg(digits);
    if digits_val(digits) > i32::MAX {
        assert(well_formed_tokens(seq![TokenModel::Error(digits)]));
    } else {
        lemma_prepend_ordinary(TokenModel::Num(digits_val(digits) as i32), rest);
        assert(seq![TokenModel::Num(digits_val(digits) as i32)] + rest == number_then(
            digits,
            rest,
        ));
    }
}

proof fn lemma_lex_number_well_formed(s: Seq<char>, digits: Seq<char>)
    requires
        digits.len() > 0,
        forall|k: int| 0 <= k < digits.len() ==> is_digit_char(#[trigger] digits[k]),
    ensures
        well_formed_tokens(spec_lex_number(s, digits)),
    decreases s.len(),
{
    if s.len() == 0 {
        assert(well_formed_tokens(seq![TokenModel::End]));
        lemma_number_then_well_formed(digits, seq![TokenModel::End]);
    } else {
        let c = s[0];
        if is_digit_char(c) {
            assert(forall|k: int|
                0 <= k < digits.push(c).len() ==> is_digit_char(#[trigger] digits.push(c)[k]));
            lemma_lex_number_well_formed(s.skip(1), digits.push(c));
        } else if is_space_char(c) {
            lemma_lex_well_formed(s.skip(1));
            lemma_number_then_well_formed(digits, spec_lex(s.skip(1)));
        } else if is_op_char(c) {
            lemma_lex_well_formed(s.skip(1));
            lemma_prepend_ordinary(TokenModel::Op(op_of_char(c)), spec_lex(s.skip(1)));
            lemma_number_then_well_formed(
                digits,
                seq![TokenModel::Op(op_of_char(c))] + spec_lex(s.skip(1)),
            );
        } else if c == '=' {
            lemma_lex_well_formed(s.skip(1));
            lemma_prepend_ordinary(TokenModel::Assign, spec_lex(s.skip(1)));
            lemma_number_then_well_formed(digits, seq![TokenModel::Assign] + spec_lex(s.skip(1)));
        } else if c == ')' {
            lemma_lex_well_formed(s.skip(1));
            lemma_prepend_ordinary(TokenModel::RParen, spec_lex(s.skip(1)));
            lemma_number_then_well_formed(digits, seq![TokenModel::RParen] + spec_lex(s.skip(1)));
        } else {
            assert(well_formed_tokens(seq![TokenModel::Error(digits.push(c))]));
        }
    }
}

proof fn lemma_lex_ident_well_formed(s: Seq<char>, name: Seq<char>)
    requires
        name.len() > 0,
    ensures
        well_formed_tokens(spec_lex_ident(s, name)),
    decreases s.len(),
{
    if s.len() == 0 {
        assert(well_formed_tokens(seq![TokenModel::Ident(name), TokenModel::End])) by {
            let two = seq![TokenModel::Ident(name), TokenModel::End];
            assert(two[0] is Ident && two[0]->Ident_0.len() > 0);
            assert(two.last() is End);
        }
    } else {
        let c = s[0];
        if is_alpha_char(c) {
            lemma_lex_ident_well_formed(s.skip(1), name.push(c));
        } else if is_space_char(c) {
            lemma_lex_well_formed(s.skip(1));
            lemma_prepend_ordinary(TokenModel::Ident(name), spec_lex(s.skip(1)));
        } else if is_op_char(c) {
            lemma_lex_well_formed(s.skip(1));
            lemma_prepend_ordinary(TokenModel::Op(op_of_char(c)), spec_lex(s.skip(1)));
            lemma_prepend_ordinary(
                TokenModel::Ident(name),
                seq![TokenModel::Op(op_of_char(c))] + spec_lex(s.skip(1)),
            );
            assert(seq![TokenModel::Ident(name)] + (seq![TokenModel::Op(op_of_char(c))] + spec_lex(
                s.skip(1),
            )) =~= seq![TokenModel::Ident(name), TokenModel::Op(op_of_char(c))] + spec_lex(
                s.skip(1),
            ));
        } else if c == '=' {
            lemma_lex_well_formed(s.skip(1));
            lemma_prepend_ordinary(TokenModel::Assign, spec_lex(s.skip(1)));
            lemma_prepend_ordinary(
                TokenModel::Ident(name),
                seq![TokenModel::Assign] + spec_lex(s.skip(1)),
            );
            assert(seq![TokenModel::Ident(name)] + (seq![TokenModel::Assign] + spec_lex(s.skip(1)))
                =~= seq![TokenModel::Ident(name), TokenModel::Assign] + spec_lex(s.skip(1)));
        } else if c == ')' {
            lemma_lex_well_formed(s.skip(1));
            lemma_prepend_ordinary(TokenModel::RParen, spec_lex(s.skip(1)));
            lemma_prepend_ordinary(
                TokenModel::Ident(name),
                seq![TokenModel::RParen] + spec_lex(s.skip(1)),
            );
            assert(seq![TokenModel::Ident(name)] + (seq![TokenModel::RParen] + spec_lex(s.skip(1)))
                =~= seq![TokenModel::Ident(name), TokenModel::RParen] + spec_lex(s.skip(1)));
        } else {
            assert(well_formed_tokens(seq![TokenModel::Error(name.push(c))]));
        }
    }
}

/// The lexer: it owns the characters of one line and accumulates the tokens
/// read from them.
pub struct Tokens {
    pub tokens: Vec<Token>,
    input: Vec<char>,
    pos: usize,
}

impl Tokens {
    /// The tokens accumulated so far, as their mathematical models.
    pub closed spec fn model(self) -> Seq<TokenModel> {
        self.tokens.deep_view()
    }

    /// The characters not yet consumed.
    pub closed spec fn remaining(self) -> Seq<char> {
        if self.pos <= self.input@.len() {
            self.input@.skip(self.pos as int)
        } else {
            Seq::empty()
        }
    }

    /// How many characters are left to consume.
    pub closed spec fn fuel(self) -> nat {
        self.remaining().len()
    }

    pub fn new(characters: Vec<char>) -> (t: Tokens)
        ensures
            t.model() == Seq::<TokenModel>::empty(),
            t.remaining() == characters@,
    {
        let t = Tokens { tokens: Vec::new(), input: characters, pos: 0 };
        proof {
            assert(t.remaining() =~= t.input@);
            assert(t.model() =~= Seq::<TokenModel>::empty());
        }
        t
    }

    /// Lexes the characters still unconsumed and appends the tokens they form.
    pub fn tokenize(&mut self)
        ensures
            final(self).model() == old(self).model() + spec_lex(old(self).remaining()),
        decreases self.fuel(), 0int,
    {
        if self.pos < self.input.len() {
            let c = self.input[self.pos];
            self.pos = self.pos + 1;
            proof {
                assert(old(self).remaining()[0] == c);
                assert(self.remaining() =~= old(self).remaining().skip(1));
            }
            if c == '+' || c == '-' || c == '*' || c == '/' {
                self.into_operator(c);
                proof {
                    assert(self.model() =~~= old(self).model() + spec_lex(
                        old(self).remaining(),
                    ));
                }
            } else if c == '=' {
                self.tokens.push(Token::Assign);
                self.tokenize();
                proof {
                    assert(self.model() =~~= old(self).model() + spec_lex(
                        old(self).remaining(),
                    ));
                }
            } else if c == '(' {
                self.tokens.push(Token::LParen);
                self.tokenize();
                proof {
                    assert(self.model() =~~= old(self).model() + spec_lex(
                        old(self).remaining(),
                    ));
                }
            } else if c == ')' {
                self.tokens.push(Token::RParen);
                self.tokenize();
                proof {
                    assert(self.model() =~~= old(self).model() + spec_lex(
                        old(self).remaining(),
                    ));
                }
            } else if digit(c) {
                let num = String::new();
                self.into_number(c, num);
                proof {
                    assert(Seq::<char>::empty().push(c) =~= seq![c]);
                    assert(self.model() =~~= old(self).model() + spec_lex(
                        old(self).remaining(),
                    ));
                }
            } else if alphabetic(c) {
                let ident = String::new();
                self.into_identifier(c, ident);
                proof {
                    assert(Seq::<char>::empty().push(c) =~= seq![c]);
                    assert(self.model() =~~= old(self).model() + spec_lex(
                        old(self).remaining(),
                    ));
                }
            } else if whitespace(c) {
                self.tokenize();
            } else {
                let mut text = String::new();
                push_char(&mut text, c);
                self.tokens.push(Token::Error(text));
                proof {
                    assert(Seq::<char>::empty().push(c) =~= seq![c]);
                    assert(self.model() =~~= old(self).model() + spec_lex(
                        old(self).remaining(),
                    ));
                }
            }
        } else {
            self.tokens.push(Token::End);
            proof {
                assert(old(self).remaining().len() == 0);
                assert(self.model() =~~= old(self).model() + spec_lex(
                    old(self).remaining(),
                ));
            }
        }
    }

    /// Emits the operator token a character stands for, then lexes on.
    fn into_operator(&mut self, o: char)
        ensures
            final(self).model() == old(self).model() + seq![
                TokenModel::Op(op_of_char(o)),
            ] + spec_lex(old(self).remaining()),
        decreases self.fuel(), 1int,
    {
        let op = if o == '-' {
            Operator::Minus
        } else if o == '*' {
            Operator::Times
        } else if o == '/' {
            Operator::Divide
        } else {
            Operator::Plus
        };
        self.tokens.push(Token::Op(op));
        self.tokenize();
        proof {
            assert(self.model() =~~= old(self).model() + seq![
                TokenModel::Op(op_of_char(o)),
            ] + spec_lex(old(self).remaining()));
        }
    }

    /// Accumulates a run of digits begun by `n`, emits the number (or, for a
    /// value that does not fit, or a disqualifying following character, an
    /// error token that ends the line), then lexes on.
    fn into_number(&mut self, n: char, num: String)
        requires
            is_digit_char(n),
            forall|k: int| 0 <= k < num@.len() ==> is_digit_char(#[trigger] num@[k]),
        ensures
            final(self).model() == old(self).model() + spec_lex_number(
                old(self).remaining(),
                num@.push(n),
            ),
        decreases self.fuel(), 2int,
    {
        let ghost digits = num@.push(n);
        let mut num = num;
        push_char(&mut num, n);
        if self.pos < self.input.len() {
            let c = self.input[self.pos];
            self.pos = self.pos + 1;
            proof {
                assert(old(self).remaining()[0] == c);
                assert(self.remaining() =~= old(self).remaining().skip(1));
            }
            if digit(c) {
                self.into_number(c, num);
                proof {
                    assert(self.model() =~~= old(self).model() + spec_lex_number(
                        old(self).remaining(),
                        digits,
                    ));
                }
            } else if whitespace(c) {
                if self.emit_number(num) {
                    self.tokenize();
                }
                proof {
                    assert(self.model() =~~= old(self).model() + spec_lex_number(
                        old(self).remaining(),
                        digits,
                    ));
                }
            } else if c == '+' || c == '-' || c == '*' || c == '/' {
                if self.emit_number(num) {
                    self.into_operator(c);
                }
                proof {
                    assert(self.model() =~~= old(self).model() + spec_lex_number(
                        old(self).remaining(),
                        digits,
                    ));
                }
            } else if c == '=' {
                if self.emit_number(num) {
                    let ghost m1 = self.model();
                    self.tokens.push(Token::Assign);
                    proof {
                        assert(self.model() =~~= m1.push(TokenModel::Assign));
                    }
                    self.tokenize();
                }
                proof {
                    assert(self.model() =~~= old(self).model() + spec_lex_number(
                        old(self).remaining(),
                        digits,
                    ));
                }
            } else if c == ')' {
                if self.emit_number(num) {
                    let ghost m1 = self.model();
                    self.tokens.push(Token::RParen);
                    proof {
                        assert(self.model() =~~= m1.push(TokenModel::RParen));
                    }
                    self.tokenize();
                }
                proof {
                    assert(self.model() =~~= old(self).model() + spec_lex_number(
                        old(self).remaining(),
                        digits,
                    ));
                }
            } else {
                push_char(&mut num, c);
                self.tokens.push(Token::Error(num));
                proof {
                    assert(self.model() =~~= old(self).model() + spec_lex_number(
                        old(self).remaining(),
                        digits,
                    ));
                }
            }
        } else {
            if self.emit_number(num) {
                let ghost m1 = self.model();
                self.tokens.push(Token::End);
                proof {
                    assert(self.model() =~~= m1.push(TokenModel::End));
                }
            }
            proof {
                assert(old(self).remaining().len() == 0);
                assert(self.model() =~~= old(self).model() + spec_lex_number(
                    old(self).remaining(),
                    digits,
                ));
            }
        }
    }

    /// Pushes the token a completed digit run turns into: its number when the
    /// value fits a signed 32-bit integer, else an error token. Returns
    /// whether it fit, so the caller knows whether to lex on.
    fn emit_number(&mut self, num: String) -> (ok: bool)
        requires
            num@.len() > 0,
            forall|k: int| 0 <= k < num@.len() ==> is_digit_char(#[trigger] num@[k]),
        ensures
            final(self).remaining() == old(self).remaining(),
            ok == (digits_val(num@) <= i32::MAX),
            ok ==> final(self).model() == old(self).model().push(
                TokenModel::Num(digits_val(num@) as i32),
            ),
            !ok ==> final(self).model() == old(self).model().push(TokenModel::Error(num@)),
    {
        let parsed = parse_digits(&num);
        match parsed {
            Some(v) => {
                self.tokens.push(Token::Num(v));
                proof {
                    assert(self.model() =~~= old(self).model().push(
                        TokenModel::Num(digits_val(num@) as i32),
                    ));
                }
                true
            },
            None => {
                self.tokens.push(Token::Error(num));
                proof {
                    assert(self.model() =~~= old(self).model().push(
                        TokenModel::Error(num@),
                    ));
                }
                false
            },
        }
    }

    /// Accumulates a run of alphabetic characters begun by `i`, emits the
    /// identifier (or, for a disqualifying following character, an error token
    /// that ends the line), then lexes on.
    fn into_identifier(&mut self, i: char, ident: String)
        ensures
            final(self).model() == old(self).model() + spec_lex_ident(
                old(self).remaining(),
                ident@.push(i),
            ),
        decreases self.fuel(), 2int,
    {
        let ghost name = ident@.push(i);
        let mut ident = ident;
        push_char(&mut ident, i);
        if self.pos < self.input.len() {
            let c = self.input[self.pos];
            self.pos = self.pos + 1;
            proof {
                assert(old(self).remaining()[0] == c);
                assert(self.remaining() =~= old(self).remaining().skip(1));
            }
            if alphabetic(c) {
                self.into_identifier(c, ident);
                proof {
                    assert(self.model() =~~= old(self).model() + spec_lex_ident(
                        old(self).remaining(),
                        name,
                    ));
                }
            } else if whitespace(c) {
                self.tokens.push(Token::Ident(ident));
                self.tokenize();
                proof {
                    assert(self.model() =~~= old(self).model() + spec_lex_ident(
                        old(self).remaining(),
                        name,
                    ));
                }
            } else if c == '+' || c == '-' || c == '*' || c == '/' {
                self.tokens.push(Token::Ident(ident));
                self.into_operator(c);
                proof {
                    assert(self.model() =~~= old(self).model() + spec_lex_ident(
                        old(self).remaining(),
                        name,
                    ));
                }
            } else if c == '=' {
                self.tokens.push(Token::Ident(ident));
                self.tokens.push(Token::Assign);
                self.tokenize();
                proof {
                    assert(self.model() =~~= old(self).model() + spec_lex_ident(
                        old(self).remaining(),
                        name,
                    ));
                }
            } else if c == ')' {
                self.tokens.push(Token::Ident(ident));
                self.tokens.push(Token::RParen);
                self.tokenize();
                proof {
                    assert(self.model() =~~= old(self).model() + spec_lex_ident(
                        old(self).remaining(),
                        name,
                    ));
                }
            } else {
                push_char(&mut ident, c);
                self.tokens.push(Token::Error(ident));
                proof {
                    assert(self.model() =~~= old(self).model() + spec_lex_ident(
                        old(self).remaining(),
                        name,
                    ));
                }
            }
        } else {
            self.tokens.push(Token::Ident(ident));
            self.tokens.push(Token::End);
            proof {
                assert(old(self).remaining().len() == 0);
                assert(self.model() =~~= old(self).model() + spec_lex_ident(
                    old(self).remaining(),
                    name,
                ));
            }
        }
    }
}

/// Whether `c` is a decimal digit.
fn digit(c: char) -> (r: bool)
    ensures
        r == is_digit_char(c),
{
    '0' as u32 <= c as u32 && c as u32 <= '9' as u32
}

/// The value of a digit run is never negative.
proof fn lemma_digits_val_nonneg(ds: Seq<char>)
    requires
        forall|k: int| 0 <= k < ds.len() ==> is_digit_char(#[trigger] ds[k]),
    ensures
        digits_val(ds) >= 0,
    decreases ds.len(),
{
    if ds.len() > 0 {
        assert forall|k: int| 0 <= k < ds.drop_last().len() implies is_digit_char(
            #[trigger] ds.drop_last()[k],
        ) by {
            assert(ds.drop_last()[k] == ds[k]);
        }
        lemma_digits_val_nonneg(ds.drop_last());
        assert(is_digit_char(ds.last()));
        assert(digit_val(ds.last()) >= 0);
    }
}

/// Every prefix of a digit run is worth no more than the whole run.
proof fn lemma_digits_val_prefix_le(ds: Seq<char>, k: int)
    requires
        0 <= k <= ds.len(),
        forall|j: int| 0 <= j < ds.len() ==> is_digit_char(#[trigger] ds[j]),
    ensures
        digits_val(ds.take(k)) <= digits_val(ds),
    decreases ds.len() - k,
{
    if k == ds.len() {
        assert(ds.take(k) =~= ds);
    } else {
        assert forall|j: int| 0 <= j < ds.take(k).len() implies is_digit_char(
            #[trigger] ds.take(k)[j],
        ) by {
            assert(ds.take(k)[j] == ds[j]);
        }
        lemma_digits_val_nonneg(ds.take(k));
        assert(ds.take(k + 1).drop_last() =~= ds.take(k));
        assert(ds.take(k + 1).last() == ds[k]);
        assert(is_digit_char(ds[k]));
        assert(digits_val(ds.take(k + 1)) == digits_val(ds.take(k)) * 10 + digit_val(ds[k]));
        assert(digits_val(ds.take(k)) <= digits_val(ds.take(k + 1)));
        lemma_digits_val_prefix_le(ds, k + 1);
    }
}

/// Reads a nonempty digit run as a signed 32-bit integer; a value that does
/// not fit yields nothing.
fn parse_digits(digits: &String) -> (r: Option<i32>)
    requires
        digits@.len() > 0,
        forall|k: int| 0 <= k < digits@.len() ==> is_digit_char(#[trigger] digits@[k]),
    ensures
        r == if digits_val(digits@) > i32::MAX {
            None::<i32>
        } else {
            Some(digits_val(digits@) as i32)
        },
{
    let s = digits.as_str();
    let n = s.unicode_len();
    let mut i: usize = 0;
    let mut val: i32 = 0;
    proof {
        assert(digits@.take(0) =~= Seq::<char>::empty());
    }
    while i < n
        invariant
            0 <= i <= n,
            n == digits@.len(),
            s@ == digits@,
            forall|k: int| 0 <= k < digits@.len() ==> is_digit_char(#[trigger] digits@[k]),
            0 <= val <= i32::MAX,
            val == digits_val(digits@.take(i as int)),
        decreases n - i,
    {
        let c = s.get_char(i);
        proof {
            assert(c == digits@[i as int]);
            assert(is_digit_char(c));
        }
        let d = c as u32 - '0' as u32;
        let w: i64 = (val as i64) * 10 + (d as i64);
        proof {
            assert(digits@.take(i as int + 1).drop_last() =~= digits@.take(i as int));
            assert(digits@.take(i as int + 1).last() == c);
            assert(digits_val(digits@.take(i as int + 1)) == w);
        }
        if w > i32::MAX as i64 {
            proof {
                lemma_digits_val_prefix_le(digits@, i as int + 1);
            }
            return None;
        }
        val = w as i32;
        i = i + 1;
    }
    proof {
        assert(digits@.take(n as int) =~= digits@);
    }
    Some(val)
}

} // verus!
