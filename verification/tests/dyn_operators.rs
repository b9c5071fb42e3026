use gyard::{to_postfix, InputToken, Operator, OutputToken};

#[derive(Debug, PartialEq)]
pub struct MathAdd;
#[derive(Debug, PartialEq)]
pub struct MathSub;
#[derive(Debug, PartialEq)]
pub struct MathMul;
#[derive(Debug, PartialEq)]
pub struct MathDiv;
#[derive(Debug, PartialEq)]
pub struct MathPow;

impl Operator for MathAdd {
    fn spec_precedence(&self) -> usize {
        11
    }

    fn spec_is_left_associative(&self) -> bool {
        true
    }

    fn precedence(&self) -> usize {
        11
    }

    fn is_left_associative(&self) -> bool {
        true
    }
}
impl Eval for MathAdd {
    fn eval(&self, value_stack: &mut Vec<f64>) {
        let right = value_stack.pop().unwrap();
        let left = value_stack.pop().unwrap();
        value_stack.push(left + right);
    }
}

impl Operator for MathSub {
    fn spec_precedence(&self) -> usize {
        11
    }

    fn spec_is_left_associative(&self) -> bool {
        true
    }

    fn precedence(&self) -> usize {
        11
    }

    fn is_left_associative(&self) -> bool {
        true
    }
}
impl Eval for MathSub {
    fn eval(&self, value_stack: &mut Vec<f64>) {
        let right = value_stack.pop().unwrap();
        let left = value_stack.pop().unwrap();
        value_stack.push(left - right);
    }
}

impl Operator for MathMul {
    fn spec_precedence(&self) -> usize {
        12
    }

    fn spec_is_left_associative(&self) -> bool {
        true
    }

    fn precedence(&self) -> usize {
        12
    }

    fn is_left_associative(&self) -> bool {
        true
    }
}
impl Eval for MathMul {
    fn eval(&self, value_stack: &mut Vec<f64>) {
        let right = value_stack.pop().unwrap();
        let left = value_stack.pop().unwrap();
        value_stack.push(left * right);
    }
}

impl Operator for MathDiv {
    fn spec_precedence(&self) -> usize {
        12
    }

    fn spec_is_left_associative(&self) -> bool {
        true
    }

    fn precedence(&self) -> usize {
        12
    }

    fn is_left_associative(&self) -> bool {
        true
    }
}
impl Eval for MathDiv {
    fn eval(&self, value_stack: &mut Vec<f64>) {
        let right = value_stack.pop().unwrap();
        let left = value_stack.pop().unwrap();
        value_stack.push(left / right);
    }
}

impl Operator for MathPow {
    fn spec_precedence(&self) -> usize {
        13
    }

    fn spec_is_left_associative(&self) -> bool {
        false
    }

    fn precedence(&self) -> usize {
        13
    }

    fn is_left_associative(&self) -> bool {
        false
    }
}
impl Eval for MathPow {
    fn eval(&self, value_stack: &mut Vec<f64>) {
        let exponent = value_stack.pop().unwrap();
        let base = value_stack.pop().unwrap();
        value_stack.push(base.powf(exponent));
    }
}

trait Eval: Operator {
    fn eval(&self, value_stack: &mut Vec<f64>);
}

impl Operator for Box<dyn Eval> {
    fn spec_precedence(&self) -> usize {
        self.as_ref().spec_precedence()
    }

    fn spec_is_left_associative(&self) -> bool {
        self.as_ref().spec_is_left_associative()
    }

    fn precedence(&self) -> usize {
        self.as_ref().precedence()
    }

    fn is_left_associative(&self) -> bool {
        self.as_ref().is_left_associative()
    }
}
impl Eval for Box<dyn Eval> {
    fn eval(&self, value_stack: &mut Vec<f64>) {
        self.as_ref().eval(value_stack);
    }
}

fn evaluate(postfix: Vec<OutputToken<f64, &str, Box<dyn Eval>>>) -> Vec<f64> {
    let mut value_stack = Vec::<f64>::new();
    for token in postfix {
        match token {
            OutputToken::Function("f") => {
                let v = value_stack.pop().unwrap();
                value_stack.push(v * 2. + 1.)
            }
            OutputToken::Function(_) => panic!("unknown function"),
            OutputToken::Value(v) => value_stack.push(v),
            OutputToken::Operator(o) => o.eval(&mut value_stack),
        }
    }
    value_stack
}

#[test]
fn dyn_operators() {
    // 1 + 2 - f ( 3 ) * 4 / 8, with f ( x ) = 2 x + 1
    let infix = vec![
        InputToken::Value(1.),
        InputToken::Operator(Box::new(MathAdd) as Box<dyn Eval>),
        InputToken::Value(2.),
        InputToken::Operator(Box::new(MathSub)),
        InputToken::Function("f"),
        InputToken::LeftParen,
        InputToken::Value(3.),
        InputToken::RightParen,
        InputToken::Operator(Box::new(MathMul)),
        InputToken::Value(4.),
        InputToken::Operator(Box::new(MathDiv)),
        InputToken::Value(8.),
    ];
    let postfix = to_postfix(infix).unwrap();

    let value_stack = evaluate(postfix);
    assert_eq!(value_stack.len(), 1);
    assert_eq!(value_stack[0], -0.5)
}

#[test]
fn dyn_operators_right_associative() {
    // 2 ^ 3 ^ 2 is 2 ^ 9
    let infix = vec![
        InputToken::Value(2.),
        InputToken::Operator(Box::new(MathPow) as Box<dyn Eval>),
        InputToken::Value(3.),
        InputToken::Operator(Box::new(MathPow)),
        InputToken::Value(2.),
    ];
    let postfix = to_postfix(infix).unwrap();
    let order: Vec<bool> = postfix
        .iter()
        .map(|token| matches!(token, OutputToken::Operator(_)))
        .collect();
    assert_eq!(order, vec![false, false, false, true, true]);
    assert_eq!(evaluate(postfix), vec![512.]);
}

#[test]
fn own_operator_type() {
    // a ^ b ^ c
    let postfix = to_postfix::<_, (), _>(vec![
        InputToken::Value('a'),
        InputToken::Operator(MathPow),
        InputToken::Value('b'),
        InputToken::Operator(MathPow),
        InputToken::Value('c'),
    ]);
    assert_eq!(
        postfix,
        Ok(vec![
            OutputToken::Value('a'),
            OutputToken::Value('b'),
            OutputToken::Value('c'),
            OutputToken::Operator(MathPow),
            OutputToken::Operator(MathPow),
        ])
    );
}
