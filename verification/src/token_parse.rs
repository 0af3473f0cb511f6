use vstd::prelude::*;

verus! {

/// ASCII codes of the characters the tokenizer recognises.
pub const SPACE: u8 = 32;

pub const UNDERSCORE: u8 = 95;

pub const OPEN_BRACKET: u8 = 40;

pub const CLOSE_BRACKET: u8 = 41;

pub const PLUS_SIGN: u8 = 43;

pub const MINUS_SIGN: u8 = 45;

pub const STAR_SIGN: u8 = 42;

pub const SLASH_SIGN: u8 = 47;

pub const DOT_SIGN: u8 = 46;

pub const DIGIT_ZERO: u8 = 48;

pub const DIGIT_NINE: u8 = 57;


/// The four binary operators of the expression language.
#[derive(Clone, Copy, Debug, PartialEq, Eq, Structural)]
pub enum Operator {
    Plus,
    Minus,
    Mul,
    Div,
}

/// `Plus` and `Minus` form the low-precedence (additive) class;
/// `Mul` and `Div` the high-precedence (multiplicative) class.
pub open spec fn additive(o: Operator) -> bool {
    o == Operator::Plus || o == Operator::Minus
}

pub open spec fn spec_operator_char(o: Operator) -> char {
    match o {
        Operator::Plus => '+',
        Operator::Minus => '-',
        Operator::Mul => '*',
        Operator::Div => '/',
    }
}

/// The display character of an operator.
pub fn operator_to_string(o: &Operator) -> (c: char)
    ensures
        c == spec_operator_char(*o),
{
    match o {
        Operator::Plus => '+',
        Operator::Minus => '-',
        Operator::Mul => '*',
        Operator::Div => '/',
    }
}

/// A numeric literal, kept as the digit characters (ASCII digits and at
/// most one decimal point) that were scanned from the input.
#[derive(Clone, Debug, PartialEq, Eq)]
pub struct Numeral {
    pub bytes: Vec<u8>,
}

/// A lexical token.  Brackets carry `true` for `(` and `false` for `)`.
#[derive(Clone, Debug, PartialEq, Eq)]
pub enum Token {
    Number(Numeral),
    Operator(Operator),
    Bracket(bool),
}

/// The mathematical value of a token: a numeral is just its character string.
pub enum Tok {
    Num(Seq<u8>),
    Op(Operator),
    Open,
    Close,
}

impl View for Token {
    type V = Tok;

    open spec fn view(&self) -> Tok {
        match self {
            Token::Number(n) => Tok::Num(n.bytes@),
            Token::Operator(o) => Tok::Op(*o),
            Token::Bracket(b) => if *b {
                Tok::Open
            } else {
                Tok::Close
            },
        }
    }
}

/// The view of a whole token sequence.
pub open spec fn tv(s: Seq<Token>) -> Seq<Tok> {
    s.map_values(|t: Token| t@)
}

/// A tokenizer failure: either a character that cannot start any token, or
/// a scanned numeric substring that is not a well-formed number.
#[derive(Clone, Debug, PartialEq, Eq)]
pub enum TokenizeError {
    UnexpectedCharacter(u8),
    InvalidNumberFormat(Vec<u8>),
}

pub enum TokErr {
    Unexpected(u8),
    BadNumber(Seq<u8>),
}

impl View for TokenizeError {
    type V = TokErr;

    open spec fn view(&self) -> TokErr {
        match self {
            TokenizeError::UnexpectedCharacter(c) => TokErr::Unexpected(*c),
            TokenizeError::InvalidNumberFormat(b) => TokErr::BadNumber(b@),
        }
    }
}

pub open spec fn is_digit_char(c: u8) -> bool {
    DIGIT_ZERO <= c && c <= DIGIT_NINE
}

pub open spec fn is_num_char(c: u8) -> bool {
    is_digit_char(c) || c == DOT_SIGN
}

/// Spaces and the digit-group separator `_` are skipped everywhere,
/// including inside a number.
pub open spec fn is_skip_char(c: u8) -> bool {
    c == SPACE || c == UNDERSCORE
}

pub open spec fn is_special_char(c: u8) -> bool {
    c == OPEN_BRACKET || c == CLOSE_BRACKET || c == PLUS_SIGN || c == MINUS_SIGN || c == STAR_SIGN || c == SLASH_SIGN
}

pub open spec fn special_tok(c: u8) -> Tok {
    if c == OPEN_BRACKET {
        Tok::Open
    } else if c == CLOSE_BRACKET {
        Tok::Close
    } else if c == PLUS_SIGN {
        Tok::Op(Operator::Plus)
    } else if c == MINUS_SIGN {
        Tok::Op(Operator::Minus)
    } else if c == STAR_SIGN {
        Tok::Op(Operator::Mul)
    } else {
        Tok::Op(Operator::Div)
    }
}

pub open spec fn digit_count(s: Seq<u8>) -> int
    decreases s.len(),
{
    if s.len() == 0 {
        0
    } else {
        digit_count(s.drop_last()) + if is_digit_char(s.last()) {
            1int
        } else {
            0int
        }
    }
}

pub open spec fn dot_count(s: Seq<u8>) -> int
    decreases s.len(),
{
    if s.len() == 0 {
        0
    } else {
        dot_count(s.drop_last()) + if s.last() == DOT_SIGN {
            1int
        } else {
            0int
        }
    }
}

/// A scanned numeric substring is a well-formed number exactly when it has
/// at least one digit and at most one decimal point.
pub open spec fn valid_numeral(s: Seq<u8>) -> bool {
    digit_count(s) >= 1 && dot_count(s) <= 1
}

/// Finish a pending numeral scan: nothing pending passes `rest` through, a
/// well-formed numeral is emitted in front of `rest`, and a malformed one
/// is the error (it precedes whatever `rest` holds).
pub open spec fn flush(cur: Seq<u8>, rest: Result<Seq<Tok>, TokErr>) -> Result<Seq<Tok>, TokErr> {
    if cur.len() == 0 {
        rest
    } else if valid_numeral(cur) {
        match rest {
            Ok(ts) => Ok(seq![Tok::Num(cur)] + ts),
            Err(e) => Err(e),
        }
    } else {
        Err(TokErr::BadNumber(cur))
    }
}

pub open spec fn push_tok(t: Tok, rest: Result<Seq<Tok>, TokErr>) -> Result<Seq<Tok>, TokErr> {
    match rest {
        Ok(ts) => Ok(seq![t] + ts),
        Err(e) => Err(e),
    }
}

/// The tokens of `s` from position `i` on, given the numeral characters
/// `cur` collected so far by a pending number scan.
pub open spec fn spec_tokenize_at(s: Seq<u8>, i: int, cur: Seq<u8>) -> Result<Seq<Tok>, TokErr>
    decreases s.len() - i,
{
    if i < 0 || i >= s.len() {
        flush(cur, Ok(Seq::empty()))
    } else {
        let c = s[i];
        if is_skip_char(c) {
            spec_tokenize_at(s, i + 1, cur)
        } else if is_num_char(c) {
            spec_tokenize_at(s, i + 1, cur.push(c))
        } else if is_special_char(c) {
            flush(cur, push_tok(special_tok(c), spec_tokenize_at(s, i + 1, Seq::empty())))
        } else {
            flush(cur, Err(TokErr::Unexpected(c)))
        }
    }
}

/// What tokenizing an input yields: the token sequence, or the leftmost
/// tokenizer error.
pub open spec fn spec_tokenize(s: Seq<u8>) -> Result<Seq<Tok>, TokErr> {
    spec_tokenize_at(s, 0, Seq::empty())
}

/// A cursor over the input bytes.
pub struct Parser {
    pub index: usize,
    pub buffer: Vec<u8>,
}

impl Parser {
    pub fn new(buffer: Vec<u8>) -> (p: Parser)
        ensures
            p.buffer@ == buffer@,
            p.index == 0,
    {
        Parser { buffer, index: 0 }
    }

    pub fn consume(&mut self) -> (c: u8)
        requires
            old(self).index < old(self).buffer.len(),
        ensures
            final(self).buffer@ == old(self).buffer@,
            final(self).index == old(self).index + 1,
            c == old(self).buffer@[old(self).index as int],
    {
        self.index = self.index + 1;
        self.buffer[self.index - 1]
    }

    pub fn has_next(&self) -> (b: bool)
        ensures
            b == (self.index < self.buffer.len()),
    {
        self.buffer.len() > self.index
    }

    pub fn back(&mut self)
        requires
            old(self).index >= 1,
        ensures
            final(self).buffer@ == old(self).buffer@,
            final(self).index == old(self).index - 1,
    {
        self.index = self.index - 1;
    }
}

/// Scan one number starting at the character just consumed (the cursor is
/// stepped back first).  Digits and decimal points are collected, spaces
/// and `_` are skipped without ending the scan, and anything else stops it.
fn parse_number(p: &mut Parser) -> (r: Result<Numeral, TokenizeError>)
    requires
        1 <= old(p).index <= old(p).buffer.len(),
        !is_skip_char(old(p).buffer@[old(p).index - 1]),
        !is_special_char(old(p).buffer@[old(p).index - 1]),
    ensures
        final(p).buffer@ == old(p).buffer@,
        final(p).index <= final(p).buffer.len(),
        match r {
            Ok(n) => {
                &&& old(p).index <= final(p).index
                &&& spec_tokenize_at(old(p).buffer@, old(p).index - 1, Seq::empty()) == push_tok(
                    Tok::Num(n.bytes@),
                    spec_tokenize_at(old(p).buffer@, final(p).index as int, Seq::empty()),
                )
            },
            Err(e) => spec_tokenize_at(old(p).buffer@, old(p).index - 1, Seq::empty()) == Err::<
                Seq<Tok>,
                TokErr,
            >(e@),
        },
{
    p.back();
    let ghost e: int = p.index as int;
    let ghost s: Seq<u8> = p.buffer@;
    let mut cur: Vec<u8> = Vec::new();
    let mut digits: usize = 0;
    let mut dots: usize = 0;
    let mut stopped = false;
    while !stopped && p.has_next()
        invariant
            s == p.buffer@,
            e <= p.index <= p.buffer.len(),
            0 <= e < p.buffer.len(),
            !is_skip_char(s[e]) && !is_special_char(s[e]),
            spec_tokenize_at(s, e, Seq::empty()) == spec_tokenize_at(s, p.index as int, cur@),
            digits == digit_count(cur@),
            dots == dot_count(cur@),
            digits <= cur.len() && dots <= cur.len() && cur.len() <= p.index,
            p.index > e ==> cur.len() > 0,
            p.index == e ==> cur.len() == 0,
            stopped ==> p.index < p.buffer.len() && !is_num_char(s[p.index as int])
                && !is_skip_char(s[p.index as int]),
        decreases p.buffer.len() - p.index + if stopped { 0int } else { 1int },
    {
        let c = p.consume();
        if c >= DIGIT_ZERO && c <= DIGIT_NINE {
            proof {
                assert(cur@.push(c).drop_last() =~= cur@);
            }
            cur.push(c);
            digits = digits + 1;
        } else if c == DOT_SIGN {
            proof {
                assert(cur@.push(c).drop_last() =~= cur@);
            }
            cur.push(c);
            dots = dots + 1;
        } else if c == SPACE || c == UNDERSCORE {
        } else {
            p.back();
            stopped = true;
        }
    }
    if cur.len() == 0 {
        let c = p.consume();
        return Err(TokenizeError::UnexpectedCharacter(c));
    }
    if digits >= 1 && dots <= 1 {
        let ghost nb: Seq<u8> = cur@;
        let r = Ok(Numeral { bytes: cur });
        proof {
            assert(spec_tokenize_at(s, e, Seq::empty()) == push_tok(
                Tok::Num(nb),
                spec_tokenize_at(s, p.index as int, Seq::empty()),
            ));
        }
        r
    } else {
        Err(TokenizeError::InvalidNumberFormat(cur))
    }
}

/// Tokenize the input: brackets and operators become their tokens, spaces
/// and `_` disappear, and every other character must belong to a number.
pub fn parse_exp(exp: &Vec<u8>) -> (r: Result<Vec<Token>, TokenizeError>)
    ensures
        match r {
            Ok(ts) => spec_tokenize(exp@) == Ok::<Seq<Tok>, TokErr>(tv(ts@)),
            Err(e) => spec_tokenize(exp@) == Err::<Seq<Tok>, TokErr>(e@),
        },
{
    let ghost s: Seq<u8> = exp@;
    let mut res: Vec<Token> = Vec::new();
    let mut parser = Parser::new(exp.clone());
    proof {
        assert(parser.buffer@ =~= s);
    }
    while parser.has_next()
        invariant
            s == exp@,
            s == parser.buffer@,
            parser.index <= parser.buffer.len(),
            spec_tokenize(s) == combine(tv(res@), spec_tokenize_at(s, parser.index as int, Seq::empty())),
        decreases parser.buffer.len() - parser.index,
    {
        let ghost i: int = parser.index as int;
        let ghost res0: Seq<Token> = res@;
        let c = parser.consume();
        if c == SPACE || c == UNDERSCORE {
        } else if c == OPEN_BRACKET {
            res.push(Token::Bracket(true));
            proof {
                lemma_combine_step(res0, special_tok(c), spec_tokenize_at(s, i + 1, Seq::empty()));
                assert(tv(res0.push(Token::Bracket(true))) =~= tv(res0).push(Tok::Open));
            }
        } else if c == CLOSE_BRACKET {
            res.push(Token::Bracket(false));
            proof {
                lemma_combine_step(res0, special_tok(c), spec_tokenize_at(s, i + 1, Seq::empty()));
                assert(tv(res0.push(Token::Bracket(false))) =~= tv(res0).push(Tok::Close));
            }
        } else if c == PLUS_SIGN {
            res.push(Token::Operator(Operator::Plus));
            proof {
                lemma_combine_step(res0, special_tok(c), spec_tokenize_at(s, i + 1, Seq::empty()));
                assert(tv(res0.push(Token::Operator(Operator::Plus))) =~= tv(res0).push(
                    Tok::Op(Operator::Plus),
                ));
            }
        } else if c == MINUS_SIGN {
            res.push(Token::Operator(Operator::Minus));
            proof {
                lemma_combine_step(res0, special_tok(c), spec_tokenize_at(s, i + 1, Seq::empty()));
                assert(tv(res0.push(Token::Operator(Operator::Minus))) =~= tv(res0).push(
                    Tok::Op(Operator::Minus),
                ));
            }
        } else if c == STAR_SIGN {
            res.push(Token::Operator(Operator::Mul));
            proof {
                lemma_combine_step(res0, special_tok(c), spec_tokenize_at(s, i + 1, Seq::empty()));
                assert(tv(res0.push(Token::Operator(Operator::Mul))) =~= tv(res0).push(
                    Tok::Op(Operator::Mul),
                ));
            }
        } else if c == SLASH_SIGN {
            res.push(Token::Operator(Operator::Div));
            proof {
                lemma_combine_step(res0, special_tok(c), spec_tokenize_at(s, i + 1, Seq::empty()));
                assert(tv(res0.push(Token::Operator(Operator::Div))) =~= tv(res0).push(
                    Tok::Op(Operator::Div),
                ));
            }
        } else {
            match parse_number(&mut parser) {
                Ok(n) => {
                    let ghost nb: Seq<u8> = n.bytes@;
                    let ghost ntok: Token = Token::Number(n);
                    res.push(Token::Number(n));
                    proof {
                        lemma_combine_step(
                            res0,
                            Tok::Num(nb),
                            spec_tokenize_at(s, parser.index as int, Seq::empty()),
                        );
                        assert(tv(res0.push(ntok)) =~= tv(res0).push(Tok::Num(nb)));
                    }
                },
                Err(er) => {
                    proof {
                        assert(spec_tokenize_at(s, i, Seq::empty()) == Err::<Seq<Tok>, TokErr>(er@));
                        assert(spec_tokenize(s) == combine(
                            tv(res0),
                            spec_tokenize_at(s, i, Seq::empty()),
                        ));
                        assert(spec_tokenize(s) == Err::<Seq<Tok>, TokErr>(er@));
                    }
                    return Err(er);
                },
            }
        }
    }
    proof {
        assert(spec_tokenize_at(s, parser.index as int, Seq::empty()) == Ok::<Seq<Tok>, TokErr>(
            Seq::empty(),
        ));
        assert(tv(res@) + Seq::<Tok>::empty() =~= tv(res@));
    }
    Ok(res)
}

/// Prepend already-produced tokens to the outcome of the rest of the scan.
pub open spec fn combine(ts: Seq<Tok>, rest: Result<Seq<Tok>, TokErr>) -> Result<Seq<Tok>, TokErr> {
    match rest {
        Ok(more) => Ok(ts + more),
        Err(e) => Err(e),
    }
}

proof fn lemma_combine_step(res0: Seq<Token>, t: Tok, rest: Result<Seq<Tok>, TokErr>)
    ensures
        combine(tv(res0), push_tok(t, rest)) == combine(tv(res0).push(t), rest),
{
    match rest {
        Ok(more) => {
            assert(tv(res0) + (seq![t] + more) =~= tv(res0).push(t) + more);
        },
        Err(_) => {},
    }
}

} // verus!
