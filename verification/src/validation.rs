use vstd::prelude::*;
use crate::token_parse::{tv, DIGIT_ZERO, Numeral, Operator, Tok, Token};

verus! {

/// One reason a token sequence breaks the expression grammar.
#[derive(Clone, Copy, Debug, PartialEq, Eq, Structural)]
pub enum GrammarError {
    NumberAfterNumber,
    OperatorAfterOperator,
    OperatorAfterOpenBracket,
    CloseAfterOperator,
    CloseAfterOpen,
    UnmatchedClose,
    UnclosedBracket,
    TrailingOperator,
}

/// The kind of the most recent token, as the validator tracks it.
#[derive(Clone, Copy, Debug, PartialEq, Eq, Structural)]
pub enum Last {
    Start,
    Open,
    Close,
    Num,
    Op,
}

pub open spec fn tok_kind(t: Tok) -> Last {
    match t {
        Tok::Num(_) => Last::Num,
        Tok::Op(_) => Last::Op,
        Tok::Open => Last::Open,
        Tok::Close => Last::Close,
    }
}

/// The validator's running state: the kind of the last token seen and the
/// current bracket depth.
pub struct VSt {
    pub last: Last,
    pub depth: int,
}

/// One validator transition.
pub open spec fn val_step(st: VSt, t: Tok) -> Result<VSt, GrammarError> {
    match t {
        Tok::Num(_) => if st.last == Last::Num {
            Err(GrammarError::NumberAfterNumber)
        } else {
            Ok(VSt { last: Last::Num, depth: st.depth })
        },
        Tok::Op(o) => if st.last == Last::Op {
            Err(GrammarError::OperatorAfterOperator)
        } else if st.last == Last::Open && o != Operator::Minus {
            Err(GrammarError::OperatorAfterOpenBracket)
        } else {
            Ok(VSt { last: Last::Op, depth: st.depth })
        },
        Tok::Open => Ok(VSt { last: Last::Open, depth: st.depth + 1 }),
        Tok::Close => if st.last == Last::Op {
            Err(GrammarError::CloseAfterOperator)
        } else if st.last == Last::Open {
            Err(GrammarError::CloseAfterOpen)
        } else if st.depth == 0 {
            Err(GrammarError::UnmatchedClose)
        } else {
            Ok(VSt { last: Last::Close, depth: st.depth - 1 })
        },
    }
}

/// The validator's state after reading the first `i` tokens, or the first
/// error raised on the way.
pub open spec fn val_at(s: Seq<Tok>, i: int) -> Result<VSt, GrammarError>
    decreases i,
{
    if i <= 0 {
        Ok(VSt { last: Last::Start, depth: 0 })
    } else {
        match val_at(s, i - 1) {
            Err(e) => Err(e),
            Ok(st) => val_step(st, s[i - 1]),
        }
    }
}

/// Whether a token sequence obeys the expression grammar, and if not, the
/// first error: scan errors first, then the end-of-stream checks.
pub open spec fn spec_validate(s: Seq<Tok>) -> Result<(), GrammarError> {
    match val_at(s, s.len() as int) {
        Err(e) => Err(e),
        Ok(st) => if st.depth > 0 {
            Err(GrammarError::UnclosedBracket)
        } else if st.last == Last::Op {
            Err(GrammarError::TrailingOperator)
        } else {
            Ok(())
        },
    }
}

/// An error raised while scanning sticks: every later prefix reports it.
pub proof fn lemma_val_err_sticky(s: Seq<Tok>, i: int, j: int)
    requires
        0 <= i <= j,
        val_at(s, i) is Err,
    ensures
        val_at(s, j) == val_at(s, i),
    decreases j - i,
{
    if j > i {
        lemma_val_err_sticky(s, i, j - 1);
    }
}

/// Check a token sequence against the grammar without changing it.
pub fn validate_tokens(tokens: &Vec<Token>) -> (r: Result<(), GrammarError>)
    ensures
        r == spec_validate(tv(tokens@)),
{
    let ghost s: Seq<Tok> = tv(tokens@);
    let mut last: Last = Last::Start;
    let mut depth: usize = 0;
    let mut i: usize = 0;
    while i < tokens.len()
        invariant
            s == tv(tokens@),
            i <= tokens.len(),
            depth <= i,
            val_at(s, i as int) == Ok::<VSt, GrammarError>(VSt { last: last, depth: depth as int }),
        decreases tokens.len() - i,
    {
        proof {
            assert(s[i as int] == tokens@[i as int]@);
        }
        match &tokens[i] {
            Token::Number(_) => {
                if last == Last::Num {
                    proof {
                        lemma_val_err_sticky(s, i + 1, s.len() as int);
                    }
                    return Err(GrammarError::NumberAfterNumber);
                }
                last = Last::Num;
            },
            Token::Operator(o) => {
                if last == Last::Op {
                    proof {
                        lemma_val_err_sticky(s, i + 1, s.len() as int);
                    }
                    return Err(GrammarError::OperatorAfterOperator);
                }
                if last == Last::Open && *o != Operator::Minus {
                    proof {
                        lemma_val_err_sticky(s, i + 1, s.len() as int);
                    }
                    return Err(GrammarError::OperatorAfterOpenBracket);
                }
                last = Last::Op;
            },
            Token::Bracket(b) => {
                if *b {
                    depth = depth + 1;
                    last = Last::Open;
                } else {
                    if last == Last::Op {
                        proof {
                            lemma_val_err_sticky(s, i + 1, s.len() as int);
                        }
                        return Err(GrammarError::CloseAfterOperator);
                    }
                    if last == Last::Open {
                        proof {
                            lemma_val_err_sticky(s, i + 1, s.len() as int);
                        }
                        return Err(GrammarError::CloseAfterOpen);
                    }
                    if depth == 0 {
                        proof {
                            lemma_val_err_sticky(s, i + 1, s.len() as int);
                        }
                        return Err(GrammarError::UnmatchedClose);
                    }
                    depth = depth - 1;
                    last = Last::Close;
                }
            },
        }
        i = i + 1;
    }
    if depth > 0 {
        return Err(GrammarError::UnclosedBracket);
    }
    if last == Last::Op {
        return Err(GrammarError::TrailingOperator);
    }
    Ok(())
}

/// Whether an implicit multiplication belongs right before `t`, after a
/// token of kind `prev`: an opening bracket after a value, or a number
/// directly after a closing bracket.
pub open spec fn needs_mul(prev: Last, t: Tok) -> bool {
    ||| (t == Tok::Open && (prev == Last::Num || prev == Last::Close))
    ||| (t matches Tok::Num(_) && prev == Last::Close)
}

/// The sequence from position `i` on after implicit-multiplication
/// insertion, where `prev` is the kind of the token before position `i`.
pub open spec fn muls_at(s: Seq<Tok>, i: int, prev: Last) -> Seq<Tok>
    decreases s.len() - i,
{
    if i < 0 || i >= s.len() {
        Seq::empty()
    } else {
        (if needs_mul(prev, s[i]) {
            seq![Tok::Op(Operator::Mul)]
        } else {
            Seq::empty()
        }) + seq![s[i]] + muls_at(s, i + 1, tok_kind(s[i]))
    }
}

pub open spec fn insert_muls(s: Seq<Tok>) -> Seq<Tok> {
    muls_at(s, 0, Last::Start)
}

/// The state the implicit-zero scan tracks: start of stream, right after
/// an opening bracket, or anywhere else.
#[derive(Clone, Copy, Debug, PartialEq, Eq, Structural)]
pub enum ZPrev {
    ZStart,
    ZOpen,
    ZOther,
}

pub open spec fn zprev_kind(t: Tok) -> ZPrev {
    if t == Tok::Open {
        ZPrev::ZOpen
    } else {
        ZPrev::ZOther
    }
}

/// Whether an implicit leading zero belongs right before `t`: a minus at
/// the very start or right after an opening bracket.
pub open spec fn needs_zero(prev: ZPrev, t: Tok) -> bool {
    t == Tok::Op(Operator::Minus) && (prev == ZPrev::ZStart || prev == ZPrev::ZOpen)
}

pub open spec fn zero_tok() -> Tok {
    Tok::Num(seq![DIGIT_ZERO])
}

/// The sequence from position `i` on after implicit-zero insertion.
pub open spec fn zeros_at(s: Seq<Tok>, i: int, prev: ZPrev) -> Seq<Tok>
    decreases s.len() - i,
{
    if i < 0 || i >= s.len() {
        Seq::empty()
    } else {
        (if needs_zero(prev, s[i]) {
            seq![zero_tok()]
        } else {
            Seq::empty()
        }) + seq![s[i]] + zeros_at(s, i + 1, zprev_kind(s[i]))
    }
}

pub open spec fn insert_zeros(s: Seq<Tok>) -> Seq<Tok> {
    zeros_at(s, 0, ZPrev::ZStart)
}

/// The full implicit-token rewrite: first every implicit multiplication,
/// then a leading zero for every unary minus.
pub open spec fn rewrite_spec(s: Seq<Tok>) -> Seq<Tok> {
    insert_zeros(insert_muls(s))
}

fn copy_bytes(v: &Vec<u8>) -> (r: Vec<u8>)
    ensures
        r@ == v@,
{
    let r = v.clone();
    proof {
        assert(r@ =~= v@);
    }
    r
}

fn copy_token(t: &Token) -> (r: Token)
    ensures
        r@ == t@,
{
    match t {
        Token::Number(n) => Token::Number(Numeral { bytes: copy_bytes(&n.bytes) }),
        Token::Operator(o) => Token::Operator(*o),
        Token::Bracket(b) => Token::Bracket(*b),
    }
}

fn insert_muls_exec(tokens: &Vec<Token>) -> (out: Vec<Token>)
    ensures
        tv(out@) == insert_muls(tv(tokens@)),
{
    let ghost s: Seq<Tok> = tv(tokens@);
    let mut out: Vec<Token> = Vec::new();
    let mut prev: Last = Last::Start;
    let mut i: usize = 0;
    while i < tokens.len()
        invariant
            s == tv(tokens@),
            i <= tokens.len(),
            prev == (if i == 0 {
                Last::Start
            } else {
                tok_kind(s[i - 1])
            }),
            insert_muls(s) == tv(out@) + muls_at(s, i as int, prev),
        decreases tokens.len() - i,
    {
        let ghost out0: Seq<Token> = out@;
        proof {
            assert(s[i as int] == tokens@[i as int]@);
        }
        let ins = match (&prev, &tokens[i]) {
            (Last::Num, Token::Bracket(true)) => true,
            (Last::Close, Token::Bracket(true)) => true,
            (Last::Close, Token::Number(_)) => true,
            _ => false,
        };
        if ins {
            out.push(Token::Operator(Operator::Mul));
        }
        let t = copy_token(&tokens[i]);
        let ghost tg: Token = t;
        out.push(t);
        prev = match &tokens[i] {
            Token::Number(_) => Last::Num,
            Token::Operator(_) => Last::Op,
            Token::Bracket(b) => if *b {
                Last::Open
            } else {
                Last::Close
            },
        };
        proof {
            let ghost insq: Seq<Tok> = if needs_mul(
                if i == 0 {
                    Last::Start
                } else {
                    tok_kind(s[i - 1])
                },
                s[i as int],
            ) {
                seq![Tok::Op(Operator::Mul)]
            } else {
                Seq::<Tok>::empty()
            };
            assert(tv(out@) =~= tv(out0) + insq + seq![s[i as int]]);
            assert(tv(out0) + (insq + seq![s[i as int]] + muls_at(s, i + 1, tok_kind(s[i as int])))
                =~= (tv(out0) + insq + seq![s[i as int]]) + muls_at(s, i + 1, tok_kind(s[i as int])));
        }
        i = i + 1;
    }
    proof {
        assert(tv(out@) + muls_at(s, s.len() as int, prev) =~= tv(out@));
    }
    out
}

fn insert_zeros_exec(tokens: &Vec<Token>) -> (out: Vec<Token>)
    ensures
        tv(out@) == insert_zeros(tv(tokens@)),
{
    let ghost s: Seq<Tok> = tv(tokens@);
    let mut out: Vec<Token> = Vec::new();
    let mut prev: ZPrev = ZPrev::ZStart;
    let mut i: usize = 0;
    while i < tokens.len()
        invariant
            s == tv(tokens@),
            i <= tokens.len(),
            prev == (if i == 0 {
                ZPrev::ZStart
            } else {
                zprev_kind(s[i - 1])
            }),
            insert_zeros(s) == tv(out@) + zeros_at(s, i as int, prev),
        decreases tokens.len() - i,
    {
        let ghost out0: Seq<Token> = out@;
        proof {
            assert(s[i as int] == tokens@[i as int]@);
        }
        let ins = match (&prev, &tokens[i]) {
            (ZPrev::ZStart, Token::Operator(Operator::Minus)) => true,
            (ZPrev::ZOpen, Token::Operator(Operator::Minus)) => true,
            _ => false,
        };
        if ins {
            let mut zb: Vec<u8> = Vec::new();
            zb.push(DIGIT_ZERO);
            proof {
                assert(zb@ =~= seq![DIGIT_ZERO]);
            }
            out.push(Token::Number(Numeral { bytes: zb }));
        }
        let t = copy_token(&tokens[i]);
        out.push(t);
        prev = match &tokens[i] {
            Token::Bracket(true) => ZPrev::ZOpen,
            _ => ZPrev::ZOther,
        };
        proof {
            let ghost insq: Seq<Tok> = if needs_zero(
                if i == 0 {
                    ZPrev::ZStart
                } else {
                    zprev_kind(s[i - 1])
                },
                s[i as int],
            ) {
                seq![zero_tok()]
            } else {
                Seq::<Tok>::empty()
            };
            assert(tv(out@) =~= tv(out0) + insq + seq![s[i as int]]);
            assert(tv(out0) + (insq + seq![s[i as int]] + zeros_at(s, i + 1, zprev_kind(s[i as int])))
                =~= (tv(out0) + insq + seq![s[i as int]]) + zeros_at(s, i + 1, zprev_kind(s[i as int])));
        }
        i = i + 1;
    }
    proof {
        assert(tv(out@) + zeros_at(s, s.len() as int, prev) =~= tv(out@));
    }
    out
}

/// Insert the implicit tokens: a `*` wherever a value directly touches an
/// opening bracket (or a number follows a closing one), then a leading `0`
/// before every unary minus.
pub fn add_implicit_tokens(tokens: &mut Vec<Token>)
    ensures
        tv(final(tokens)@) == rewrite_spec(tv(old(tokens)@)),
{
    let pass1 = insert_muls_exec(tokens);
    let pass2 = insert_zeros_exec(&pass1);
    *tokens = pass2;
}

/// A sequence is fully explicit when the rewrite has nothing to add:
/// no value touches an opening bracket, no number follows a closing one,
/// and no minus stands at the start or right after an opening bracket.
pub open spec fn fully_explicit(s: Seq<Tok>) -> bool {
    &&& forall|i: int|
        0 <= i < s.len() - 1 ==> !needs_mul(tok_kind(#[trigger] s[i]), s[i + 1])
    &&& s.len() > 0 ==> !needs_mul(Last::Start, s[0])
    &&& forall|i: int|
        0 <= i < s.len() - 1 ==> !needs_zero(zprev_kind(#[trigger] s[i]), s[i + 1])
    &&& s.len() > 0 ==> !needs_zero(ZPrev::ZStart, s[0])
}

proof fn lemma_muls_noop(s: Seq<Tok>, i: int, prev: Last)
    requires
        0 <= i <= s.len(),
        i < s.len() ==> !needs_mul(prev, s[i]),
        forall|j: int| i <= j < s.len() - 1 ==> !needs_mul(tok_kind(#[trigger] s[j]), s[j + 1]),
    ensures
        muls_at(s, i, prev) == s.skip(i),
    decreases s.len() - i,
{
    if i < s.len() {
        lemma_muls_noop(s, i + 1, tok_kind(s[i]));
        assert(s.skip(i) =~= seq![s[i]] + s.skip(i + 1));
        assert(Seq::<Tok>::empty() + seq![s[i]] + s.skip(i + 1) =~= seq![s[i]] + s.skip(i + 1));
    } else {
        assert(s.skip(i) =~= Seq::<Tok>::empty());
    }
}

proof fn lemma_zeros_noop(s: Seq<Tok>, i: int, prev: ZPrev)
    requires
        0 <= i <= s.len(),
        i < s.len() ==> !needs_zero(prev, s[i]),
        forall|j: int| i <= j < s.len() - 1 ==> !needs_zero(zprev_kind(#[trigger] s[j]), s[j + 1]),
    ensures
        zeros_at(s, i, prev) == s.skip(i),
    decreases s.len() - i,
{
    if i < s.len() {
        lemma_zeros_noop(s, i + 1, zprev_kind(s[i]));
        assert(s.skip(i) =~= seq![s[i]] + s.skip(i + 1));
        assert(Seq::<Tok>::empty() + seq![s[i]] + s.skip(i + 1) =~= seq![s[i]] + s.skip(i + 1));
    } else {
        assert(s.skip(i) =~= Seq::<Tok>::empty());
    }
}

/// Run the validator from a given state over a whole sequence.
pub open spec fn v_run(st: VSt, u: Seq<Tok>) -> Result<VSt, GrammarError>
    decreases u.len(),
{
    if u.len() == 0 {
        Ok(st)
    } else {
        match val_step(st, u[0]) {
            Err(e) => Err(e),
            Ok(st2) => v_run(st2, u.drop_first()),
        }
    }
}

/// Scanning a suffix from the state its prefix reached gives the scan of
/// the whole sequence.
pub proof fn lemma_vrun_val_at(s: Seq<Tok>, j: int)
    requires
        0 <= j <= s.len(),
        val_at(s, j) is Ok,
    ensures
        v_run(val_at(s, j)->Ok_0, s.skip(j)) == val_at(s, s.len() as int),
    decreases s.len() - j,
{
    if j == s.len() {
        assert(s.skip(j) =~= Seq::<Tok>::empty());
    } else {
        let st = val_at(s, j)->Ok_0;
        assert(s.skip(j)[0] == s[j]);
        assert(s.skip(j).drop_first() =~= s.skip(j + 1));
        match val_step(st, s[j]) {
            Err(e) => {
                assert(val_at(s, j + 1) == Err::<VSt, GrammarError>(e));
                lemma_val_err_sticky(s, j + 1, s.len() as int);
            },
            Ok(st2) => {
                assert(val_at(s, j + 1) == Ok::<VSt, GrammarError>(st2));
                lemma_vrun_val_at(s, j + 1);
            },
        }
    }
}

/// Implicit-multiplication insertion leaves the validator's verdict, and
/// its final state, unchanged: each inserted `*` stands between a value
/// and a value-opener, where the grammar admits an operator.
proof fn lemma_muls_run(s: Seq<Tok>, i: int, st: VSt)
    requires
        0 <= i <= s.len(),
        v_run(st, s.skip(i)) is Ok,
    ensures
        v_run(st, muls_at(s, i, st.last)) == v_run(st, s.skip(i)),
    decreases s.len() - i,
{
    if i == s.len() {
        assert(s.skip(i) =~= Seq::<Tok>::empty());
    } else {
        let t = s[i];
        assert(s.skip(i)[0] == t);
        assert(s.skip(i).drop_first() =~= s.skip(i + 1));
        assert(val_step(st, t) is Ok);
        let st2 = val_step(st, t)->Ok_0;
        assert(st2.last == tok_kind(t));
        lemma_muls_run(s, i + 1, st2);
        let rest = muls_at(s, i + 1, tok_kind(t));
        if needs_mul(st.last, t) {
            let stm = val_step(st, Tok::Op(Operator::Mul));
            assert(stm is Ok);
            assert(val_step(stm->Ok_0, t) == Ok::<VSt, GrammarError>(st2));
            let tail = seq![t] + rest;
            assert(muls_at(s, i, st.last) =~= seq![Tok::Op(Operator::Mul)] + tail);
            assert((seq![Tok::Op(Operator::Mul)] + tail)[0] == Tok::Op(Operator::Mul));
            assert((seq![Tok::Op(Operator::Mul)] + tail).drop_first() =~= tail);
            assert(tail[0] == t);
            assert(tail.drop_first() =~= rest);
            assert(v_run(st, muls_at(s, i, st.last)) == v_run(stm->Ok_0, tail));
            assert(v_run(stm->Ok_0, tail) == v_run(st2, rest));
        } else {
            assert(muls_at(s, i, st.last) =~= seq![t] + rest);
            assert((seq![t] + rest)[0] == t);
            assert((seq![t] + rest).drop_first() =~= rest);
            assert(v_run(st, muls_at(s, i, st.last)) == v_run(st2, rest));
        }
        assert(v_run(st2, rest) == v_run(st2, s.skip(i + 1)));
        assert(v_run(st, s.skip(i)) == v_run(st2, s.skip(i + 1)));
    }
}

/// Implicit-zero insertion leaves the validator's verdict, and its final
/// state, unchanged: each inserted `0` stands where a number is admitted,
/// and turns the unary minus after it into an ordinary binary one.
proof fn lemma_zeros_run(s: Seq<Tok>, i: int, st: VSt, zp: ZPrev)
    requires
        0 <= i <= s.len(),
        v_run(st, s.skip(i)) is Ok,
        (zp == ZPrev::ZOpen) <==> (st.last == Last::Open),
        (zp == ZPrev::ZStart) <==> (st.last == Last::Start),
    ensures
        v_run(st, zeros_at(s, i, zp)) == v_run(st, s.skip(i)),
    decreases s.len() - i,
{
    if i == s.len() {
        assert(s.skip(i) =~= Seq::<Tok>::empty());
    } else {
        let t = s[i];
        assert(s.skip(i)[0] == t);
        assert(s.skip(i).drop_first() =~= s.skip(i + 1));
        assert(val_step(st, t) is Ok);
        let st2 = val_step(st, t)->Ok_0;
        assert(st2.last == tok_kind(t));
        lemma_zeros_run(s, i + 1, st2, zprev_kind(t));
        let rest = zeros_at(s, i + 1, zprev_kind(t));
        if needs_zero(zp, t) {
            let stz = val_step(st, zero_tok());
            assert(stz is Ok);
            assert(val_step(stz->Ok_0, t) == Ok::<VSt, GrammarError>(st2));
            let tail = seq![t] + rest;
            assert(zeros_at(s, i, zp) =~= seq![zero_tok()] + tail);
            assert((seq![zero_tok()] + tail)[0] == zero_tok());
            assert((seq![zero_tok()] + tail).drop_first() =~= tail);
            assert(tail[0] == t);
            assert(tail.drop_first() =~= rest);
            assert(v_run(st, zeros_at(s, i, zp)) == v_run(stz->Ok_0, tail));
            assert(v_run(stz->Ok_0, tail) == v_run(st2, rest));
        } else {
            assert(zeros_at(s, i, zp) =~= seq![t] + rest);
            assert((seq![t] + rest)[0] == t);
            assert((seq![t] + rest).drop_first() =~= rest);
            assert(v_run(st, zeros_at(s, i, zp)) == v_run(st2, rest));
        }
        assert(v_run(st2, rest) == v_run(st2, s.skip(i + 1)));
        assert(v_run(st, s.skip(i)) == v_run(st2, s.skip(i + 1)));
    }
}

/// The implicit-token rewrite is grammatically safe: on a sequence the
/// validator accepts, the rewritten sequence is accepted as well, so the
/// rewrite never turns a valid expression into an invalid one.
pub proof fn lemma_rewrite_preserves_valid(s: Seq<Tok>)
    requires
        spec_validate(s) is Ok,
    ensures
        spec_validate(rewrite_spec(s)) is Ok,
{
    let st0 = VSt { last: Last::Start, depth: 0 };
    assert(val_at(s, 0) == Ok::<VSt, GrammarError>(st0));
    lemma_vrun_val_at(s, 0);
    assert(s.skip(0) =~= s);
    assert(v_run(st0, s) == val_at(s, s.len() as int));
    let m = insert_muls(s);
    lemma_muls_run(s, 0, st0);
    assert(v_run(st0, m) == v_run(st0, s));
    assert(val_at(m, 0) == Ok::<VSt, GrammarError>(st0));
    lemma_vrun_val_at(m, 0);
    assert(m.skip(0) =~= m);
    assert(val_at(m, m.len() as int) == v_run(st0, m));
    let z = insert_zeros(m);
    lemma_zeros_run(m, 0, st0, ZPrev::ZStart);
    assert(v_run(st0, z) == v_run(st0, m));
    assert(val_at(z, 0) == Ok::<VSt, GrammarError>(st0));
    lemma_vrun_val_at(z, 0);
    assert(z.skip(0) =~= z);
    assert(val_at(z, z.len() as int) == val_at(s, s.len() as int));
}

/// Rewriting is idempotent: on a sequence that is already fully explicit,
/// the implicit-token rewrite changes nothing.
pub proof fn lemma_rewrite_noop_when_explicit(s: Seq<Tok>)
    requires
        fully_explicit(s),
    ensures
        rewrite_spec(s) == s,
{
    lemma_muls_noop(s, 0, Last::Start);
    assert(s.skip(0) =~= s);
    lemma_zeros_noop(s, 0, ZPrev::ZStart);
}

} // verus!
