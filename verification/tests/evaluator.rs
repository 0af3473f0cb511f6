use expr_eval::pipeline::{compile, EvalError};
use expr_eval::token_parse::{operator_to_string, parse_exp, Numeral, Operator, Token};
use expr_eval::token_tree::{
    evaluate_exp, evaluate_exp_iterative, evaluate_exp_recursive, Node, Program,
};
use expr_eval::validation::{add_implicit_tokens, validate_tokens, GrammarError};

/// Interpret a plan over f64: fill each numeric leaf's slot from its
/// numeral, run the fold steps in order, read the root slot.
fn run_program(p: &Program) -> f64 {
    let mut slots: Vec<f64> = Vec::with_capacity(p.nodes.len());
    for n in p.nodes.iter() {
        slots.push(match n {
            Node::Number(num) => std::str::from_utf8(&num.bytes).unwrap().parse::<f64>().unwrap(),
            Node::Operator(_) => 0.0,
        });
    }
    for st in p.steps.iter() {
        let a = slots[st.left];
        let b = slots[st.right];
        slots[st.dst] = match st.op {
            Operator::Plus => a + b,
            Operator::Minus => a - b,
            Operator::Mul => a * b,
            Operator::Div => a / b,
        };
    }
    slots[p.root]
}

fn evaluate(s: &str) -> Result<f64, EvalError> {
    compile(&s.as_bytes().to_vec()).map(|p| run_program(&p))
}

#[test]
fn precedence() {
    assert_eq!(evaluate("2+3*4").unwrap(), 14.0);
    assert_eq!(evaluate("(2+3)*4").unwrap(), 20.0);
}

#[test]
fn implicit_multiplication() {
    assert_eq!(evaluate("2(3+4)").unwrap(), 14.0);
    assert_eq!(evaluate("(1+2)(3+4)").unwrap(), 21.0);
    assert_eq!(evaluate("(1+2)3").unwrap(), 9.0);
}

#[test]
fn unary_minus() {
    assert_eq!(evaluate("-3+5").unwrap(), 2.0);
    assert_eq!(evaluate("(-3+4)").unwrap(), 1.0);
    assert_eq!(evaluate("-0.5").unwrap(), -0.5);
}

#[test]
fn nesting() {
    assert_eq!(evaluate("((1+2)*3)").unwrap(), 9.0);
    assert_eq!(evaluate("((((7))))").unwrap(), 7.0);
    // brackets around a whole expression change nothing
    assert_eq!(
        evaluate("(2+3*4)").unwrap().to_bits(),
        evaluate("2+3*4").unwrap().to_bits()
    );
    assert_eq!(
        evaluate("(8/2/2)").unwrap().to_bits(),
        evaluate("8/2/2").unwrap().to_bits()
    );
}

#[test]
fn left_to_right_associativity() {
    assert_eq!(evaluate("8/2/2").unwrap(), 2.0);
    assert_eq!(evaluate("10-3-4").unwrap(), 3.0);
    assert_eq!(evaluate("2*3/4*6").unwrap(), 9.0);
}

#[test]
fn grammar_rejection() {
    assert_eq!(
        evaluate("1++2").unwrap_err(),
        EvalError::Grammar(GrammarError::OperatorAfterOperator)
    );
    assert_eq!(evaluate("(1+2").unwrap_err(), EvalError::Grammar(GrammarError::UnclosedBracket));
    assert_eq!(evaluate("1+2)").unwrap_err(), EvalError::Grammar(GrammarError::UnmatchedClose));
    assert_eq!(evaluate("()").unwrap_err(), EvalError::Grammar(GrammarError::CloseAfterOpen));
    assert_eq!(evaluate("1+").unwrap_err(), EvalError::Grammar(GrammarError::TrailingOperator));
    assert_eq!(
        evaluate("(*3)").unwrap_err(),
        EvalError::Grammar(GrammarError::OperatorAfterOpenBracket)
    );
    assert_eq!(evaluate("(1*)").unwrap_err(), EvalError::Grammar(GrammarError::CloseAfterOperator));
}

#[test]
fn tokenizer_rejection() {
    assert_eq!(evaluate("1+#").unwrap_err(), EvalError::UnexpectedCharacter(b'#'));
    assert_eq!(
        evaluate("1.2.3").unwrap_err(),
        EvalError::InvalidNumberFormat(b"1.2.3".to_vec())
    );
    assert_eq!(evaluate(".").unwrap_err(), EvalError::InvalidNumberFormat(b".".to_vec()));
}

#[test]
fn number_after_number_is_rejected() {
    // the tokenizer absorbs separators into numbers, so two adjacent
    // number tokens can only come from a caller-built sequence
    let tokens = vec![
        Token::Number(Numeral { bytes: b"1".to_vec() }),
        Token::Number(Numeral { bytes: b"2".to_vec() }),
    ];
    assert_eq!(validate_tokens(&tokens).unwrap_err(), GrammarError::NumberAfterNumber);
}

#[test]
fn empty_input() {
    assert_eq!(evaluate("").unwrap_err(), EvalError::EmptyInput);
    assert_eq!(evaluate("  _ ").unwrap_err(), EvalError::EmptyInput);
}

#[test]
fn separators_inside_numbers() {
    assert_eq!(evaluate("1_000+2").unwrap(), 1002.0);
    assert_eq!(evaluate("1 0 + 5").unwrap(), 15.0);
    assert_eq!(evaluate("1 1").unwrap(), 11.0);
    assert_eq!(evaluate(".5*4").unwrap(), 2.0);
}

#[test]
fn mixed_expression() {
    assert_eq!(evaluate("-.5(1+2)(-3+4) * 5 + 3 * 2(1*2_0)").unwrap(), 112.5);
}

#[test]
fn division_by_zero_is_a_value() {
    assert!(evaluate("1/0").unwrap().is_infinite());
    assert!(evaluate("0/0").unwrap().is_nan());
    assert_eq!(evaluate("1/(2-2)+5").unwrap(), f64::INFINITY);
}

#[test]
fn determinism() {
    let text = "2+3*4-(5/2)(1+1)";
    let a = evaluate(text).unwrap();
    let b = evaluate(text).unwrap();
    assert_eq!(a.to_bits(), b.to_bits());
}

fn prepared_tokens(s: &str) -> Vec<Token> {
    let mut tokens = parse_exp(&s.as_bytes().to_vec()).unwrap();
    validate_tokens(&tokens).unwrap();
    add_implicit_tokens(&mut tokens);
    validate_tokens(&tokens).unwrap();
    tokens
}

#[test]
fn strategies_agree_on_moderate_input() {
    // a flat chain long enough to be interesting, short enough for both
    // strategies; a simple linear congruential generator picks the pieces
    let mut text = String::new();
    let mut state: u64 = 0x2545F4914F6CDD1D;
    let ops = ['+', '-', '*', '/'];
    for k in 0..3000u64 {
        state = state.wrapping_mul(6364136223846793005).wrapping_add(1442695040888963407);
        text.push_str(&format!("{}", 1 + (state >> 33) % 97));
        if k < 2999 {
            state = state.wrapping_mul(6364136223846793005).wrapping_add(1442695040888963407);
            text.push(ops[(state >> 33) as usize % 4]);
        }
    }
    let tokens = prepared_tokens(&text);
    let p1 = evaluate_exp_recursive(&tokens);
    let p2 = evaluate_exp_iterative(&tokens);
    let v1 = run_program(&p1);
    let v2 = run_program(&p2);
    assert_eq!(v1.to_bits(), v2.to_bits());
    let p3 = evaluate_exp(&tokens);
    assert_eq!(run_program(&p3).to_bits(), v1.to_bits());
}

#[test]
fn large_flat_input_does_not_exhaust_the_stack() {
    // hundreds of thousands of numbers chained by additive operators:
    // the planning and the fold both run iteratively at this size
    let mut text = String::new();
    let mut state: u64 = 0x9E3779B97F4A7C15;
    for k in 0..200000u64 {
        state = state.wrapping_mul(6364136223846793005).wrapping_add(1442695040888963407);
        text.push_str(&format!("{}", (state >> 40) % 1000));
        if k < 199999 {
            text.push(if state % 2 == 0 { '+' } else { '-' });
        }
    }
    let a = evaluate(&text).unwrap();
    let b = evaluate(&text).unwrap();
    assert!(a.is_finite());
    assert_eq!(a.to_bits(), b.to_bits());
}

#[test]
fn rewrite_is_noop_on_explicit_tokens() {
    // 0-3*5 is already fully explicit: the rewrite must change nothing
    let mut tokens = parse_exp(&b"0-3*5".to_vec()).unwrap();
    let before = tokens.clone();
    add_implicit_tokens(&mut tokens);
    assert_eq!(tokens, before);
}

#[test]
fn rewrite_inserts_expected_tokens() {
    let mut tokens = parse_exp(&b"-2(3)".to_vec()).unwrap();
    validate_tokens(&tokens).unwrap();
    add_implicit_tokens(&mut tokens);
    let expected = vec![
        Token::Number(Numeral { bytes: b"0".to_vec() }),
        Token::Operator(Operator::Minus),
        Token::Number(Numeral { bytes: b"2".to_vec() }),
        Token::Operator(Operator::Mul),
        Token::Bracket(true),
        Token::Number(Numeral { bytes: b"3".to_vec() }),
        Token::Bracket(false),
    ];
    assert_eq!(tokens, expected);
}

#[test]
fn operator_characters() {
    assert_eq!(operator_to_string(&Operator::Plus), '+');
    assert_eq!(operator_to_string(&Operator::Minus), '-');
    assert_eq!(operator_to_string(&Operator::Mul), '*');
    assert_eq!(operator_to_string(&Operator::Div), '/');
}

#[test]
fn leading_operator_is_tolerated() {
    // the grammar does not reject a leading operator; the first value then
    // simply starts the expression
    assert_eq!(evaluate("+5").unwrap(), 5.0);
}
