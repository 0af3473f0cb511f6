use vstd::prelude::*;
use crate::token_parse::{parse_exp, spec_tokenize, tv, Tok, TokErr, TokenizeError};
use crate::validation::{
    add_implicit_tokens, lemma_rewrite_preserves_valid, rewrite_spec, spec_validate,
    validate_tokens, GrammarError,
};
use crate::token_tree::{evaluate_exp, prog_result, prog_wf, spec_parse, ExpTree, Program};

verus! {

/// Everything that can stop an evaluation: a character no token can start
/// with, a malformed number, a grammar violation, or an input with no
/// expression in it at all.
#[derive(Clone, Debug, PartialEq, Eq)]
pub enum EvalError {
    UnexpectedCharacter(u8),
    InvalidNumberFormat(Vec<u8>),
    Grammar(GrammarError),
    EmptyInput,
}

pub enum EvalErrV {
    Unexpected(u8),
    BadNumber(Seq<u8>),
    Grammar(GrammarError),
    Empty,
}

impl View for EvalError {
    type V = EvalErrV;

    open spec fn view(&self) -> EvalErrV {
        match self {
            EvalError::UnexpectedCharacter(c) => EvalErrV::Unexpected(*c),
            EvalError::InvalidNumberFormat(b) => EvalErrV::BadNumber(b@),
            EvalError::Grammar(e) => EvalErrV::Grammar(*e),
            EvalError::EmptyInput => EvalErrV::Empty,
        }
    }
}

/// What compiling an input yields: the expression its text denotes, or the
/// first error on the way.  The stages run in order — tokenize, validate,
/// rewrite, parse — and each error short-circuits the rest.  The rewrite
/// needs no error path of its own: on a validated sequence it provably
/// keeps the grammar intact.
pub open spec fn spec_compile(s: Seq<u8>) -> Result<ExpTree, EvalErrV> {
    match spec_tokenize(s) {
        Err(TokErr::Unexpected(c)) => Err(EvalErrV::Unexpected(c)),
        Err(TokErr::BadNumber(b)) => Err(EvalErrV::BadNumber(b)),
        Ok(toks) => match spec_validate(toks) {
            Err(e) => Err(EvalErrV::Grammar(e)),
            Ok(_) => {
                let rw = rewrite_spec(toks);
                if rw.len() == 0 {
                    Err(EvalErrV::Empty)
                } else {
                    Ok(spec_parse(rw))
                }
            },
        },
    }
}

/// Compile an expression text into an evaluation plan: tokenize, check the
/// grammar, insert the implicit tokens, and build the plan.
pub fn compile(input: &Vec<u8>) -> (r: Result<Program, EvalError>)
    ensures
        match r {
            Ok(p) => spec_compile(input@) matches Ok(e) && prog_wf(p) && prog_result(p) == e,
            Err(er) => spec_compile(input@) == Err::<ExpTree, EvalErrV>(er@),
        },
{
    let mut tokens = match parse_exp(input) {
        Ok(ts) => ts,
        Err(TokenizeError::UnexpectedCharacter(c)) => {
            return Err(EvalError::UnexpectedCharacter(c));
        },
        Err(TokenizeError::InvalidNumberFormat(b)) => {
            return Err(EvalError::InvalidNumberFormat(b));
        },
    };
    match validate_tokens(&tokens) {
        Ok(_) => {},
        Err(e) => {
            return Err(EvalError::Grammar(e));
        },
    }
    let ghost old_toks: Seq<crate::token_parse::Token> = tokens@;
    add_implicit_tokens(&mut tokens);
    proof {
        lemma_rewrite_preserves_valid(tv(old_toks));
    }
    if tokens.len() == 0 {
        return Err(EvalError::EmptyInput);
    }
    proof {
        assert(tv(tokens@).len() == tokens@.len());
    }
    Ok(evaluate_exp(&tokens))
}

/// Determinism: the whole pipeline is a function of the input bytes alone,
/// so evaluating the same text twice yields the same plan and, under any
/// one executor, bit-identical results.
pub proof fn lemma_compile_deterministic(s1: Seq<u8>, s2: Seq<u8>)
    requires
        s1 == s2,
    ensures
        spec_compile(s1) == spec_compile(s2),
{
}

} // verus!
