//! A generic shunting yard: tokens of an infix expression go in, the same
//! tokens come out in postfix order.
//!
//! The crate does not read text. The caller tokenizes and hands over
//! [`InputToken`]s; values, function names and operators are of the caller's
//! own types, and an operator type only has to implement [`Operator`].
//! [`to_postfix`] converts, [`validate::validate`] tells beforehand whether a
//! token sequence is a well-formed expression, and [`op`] holds a few ready
//! operator sets.
//!
//! What the conversion computes is written down in [`model`], over
//! sequences; [`laws`] proves what follows from it.

use vstd::prelude::*;
use crate::laws::{
    content, lemma_postfix_conserves, lemma_postfix_errors, lemma_values_keep_order, values,
};
use crate::text::{append_decimal, decimal};
use crate::model::{
    displaced, drained, gives_way, lemma_displaced, lemma_operators_on_top,
    lemma_scan_stays_stopped, operators_on_top, postfix, scan, Yard,
};

pub mod laws;
pub mod model;
pub mod op;
pub mod text;
pub mod validate;

verus! {

/// All valid input tokens.
#[derive(Debug, Clone, PartialEq, Eq, Hash)]
pub enum InputToken<V, F, O> {
    /// A value inside of an expression, such as a number or a variable.
    Value(V),
    /// A left parenthesis, "(".
    LeftParen,
    /// A right parenthesis, ")".
    RightParen,
    /// Any type of function.
    Function(F),
    /// A separator between the arguments of a function.
    ArgSeperator,
    /// An operator like "+" or "-".
    Operator(O),
}

/// An entry of the stack of tokens that wait for their place in the output.
#[derive(Debug, Clone, PartialEq, Eq, Hash)]
pub enum StackToken<F, O> {
    /// A left parenthesis, with its position in the input.
    LeftParen(usize),
    /// A function that waits for its arguments.
    Function(F),
    /// An operator that waits for its right operand.
    Operator(O),
}

/// All valid output tokens.
#[derive(Debug, Clone, PartialEq, Eq, Hash)]
pub enum OutputToken<V, F, O> {
    /// A value inside of an expression, such as a number or a variable.
    Value(V),
    /// Any type of function.
    Function(F),
    /// An operator like "+" or "-".
    Operator(O),
}

/// Marks a type as an operator. Each operator defines its precedence and
/// whether it is left associative.
///
/// An implementation supplies all four items. The two specification
/// functions are what the contracts of this crate speak of; the two
/// executable methods are what the conversion calls, and have to return
/// what the specification functions say. In code that is compiled without
/// being verified the specification functions are ordinary methods that
/// nothing calls; there they are best given the bodies of the executable
/// ones.
pub trait Operator {
    /// The precedence of the operator. A higher precedence binds tighter.
    spec fn spec_precedence(&self) -> usize;

    /// Whether operators of this precedence group from the left.
    spec fn spec_is_left_associative(&self) -> bool;

    /// Returns the precedence of an operator.
    fn precedence(&self) -> (p: usize)
        ensures
            p == self.spec_precedence(),
    ;

    /// Returns true if the operator is left associative.
    fn is_left_associative(&self) -> (left: bool)
        ensures
            left == self.spec_is_left_associative(),
    ;
}

/// This error is returned if the parentheses inside an expression do not
/// match.
#[derive(Debug, PartialEq, Eq, Hash, Clone)]
pub struct ParenMissmatchError {
    pos: usize,
}

impl ParenMissmatchError {
    /// The error position, in contracts.
    pub closed spec fn spec_pos(&self) -> usize {
        self.pos
    }

    /// An error about the parenthesis at position `pos` of the input.
    pub fn new(pos: usize) -> (e: Self)
        ensures
            e.pos() == pos,
    {
        ParenMissmatchError { pos }
    }

    /// The error position.
    #[verifier::when_used_as_spec(spec_pos)]
    pub fn pos(&self) -> (p: usize)
        ensures
            p == self.pos(),
    {
        self.pos
    }

    /// Two errors at the same position are the same error.
    pub proof fn lemma_position_decides(self, other: Self)
        requires
            self.pos() == other.pos(),
        ensures
            self == other,
    {
    }

    /// The error in words: that a parenthesis was not expected, and its
    /// position in decimal digits.
    pub fn message(&self) -> (text: String)
        ensures
            text@ == "Unexpected parenthese at position "@ + decimal(self.pos() as nat),
    {
        let mut text = String::from_str("Unexpected parenthese at position ");
        append_decimal(&mut text, self.pos);
        text
    }
}

/// Whether an operator lies on top of `stack`.
fn operator_on_top<F, O>(stack: &Vec<StackToken<F, O>>) -> (found: bool)
    ensures
        found == (stack@.len() > 0 && stack@.last() is Operator),
{
    match stack.last() {
        Some(StackToken::Operator(_)) => true,
        _ => false,
    }
}

/// Whether an operator lies on top of `stack` that gives way to `incoming`.
fn top_gives_way<F, O: Operator>(stack: &Vec<StackToken<F, O>>, incoming: &O) -> (found: bool)
    ensures
        found == (stack@.len() > 0 && (stack@.last() matches StackToken::Operator(top)
            && gives_way(top, *incoming))),
{
    match stack.last() {
        Some(StackToken::Operator(top)) => {
            let above: usize = top.precedence();
            let new: usize = incoming.precedence();
            above > new || (new == above && incoming.is_left_associative())
        },
        _ => false,
    }
}

/// Moves the operators on top of `stack` to the end of `out_queue`, until
/// the stack is empty or something else is on top.
fn flush_operators<V, F, O>(
    stack: &mut Vec<StackToken<F, O>>,
    out_queue: &mut Vec<OutputToken<V, F, O>>,
)
    ensures
        ({
            let keep = old(stack)@.len() - operators_on_top(old(stack)@);
            &&& final(stack)@ == old(stack)@.take(keep)
            &&& final(out_queue)@ == old(out_queue)@ + drained(old(stack)@.skip(keep))
        }),
{
    let ghost keep = stack@.len() - operators_on_top(stack@);
    proof {
        lemma_operators_on_top(stack@);
    }
    while operator_on_top(stack)
        invariant
            keep + operators_on_top(stack@) == stack@.len(),
            0 <= keep <= old(stack)@.len(),
            stack@.take(keep) == old(stack)@.take(keep),
            out_queue@ + drained(stack@.skip(keep)) == old(out_queue)@ + drained(
                old(stack)@.skip(keep),
            ),
        decreases stack@.len(),
    {
        let ghost before = stack@;
        if let Some(StackToken::Operator(op)) = stack.pop() {
            out_queue.push(OutputToken::Operator(op));
            assert(before.skip(keep).drop_last() == stack@.skip(keep));
        }
    }
}

/// Moves the operators on top of `stack` that give way to `incoming` to the
/// end of `out_queue`.
fn displace_operators<V, F, O: Operator>(
    stack: &mut Vec<StackToken<F, O>>,
    out_queue: &mut Vec<OutputToken<V, F, O>>,
    incoming: &O,
)
    ensures
        ({
            let keep = old(stack)@.len() - displaced(old(stack)@, *incoming);
            &&& final(stack)@ == old(stack)@.take(keep)
            &&& final(out_queue)@ == old(out_queue)@ + drained(old(stack)@.skip(keep))
        }),
{
    let ghost keep = stack@.len() - displaced(stack@, *incoming);
    proof {
        lemma_displaced(stack@, *incoming);
    }
    while top_gives_way(stack, incoming)
        invariant
            keep + displaced(stack@, *incoming) == stack@.len(),
            0 <= keep <= old(stack)@.len(),
            stack@.take(keep) == old(stack)@.take(keep),
            out_queue@ + drained(stack@.skip(keep)) == old(out_queue)@ + drained(
                old(stack)@.skip(keep),
            ),
        decreases stack@.len(),
    {
        let ghost before = stack@;
        if let Some(StackToken::Operator(op)) = stack.pop() {
            out_queue.push(OutputToken::Operator(op));
            assert(before.skip(keep).drop_last() == stack@.skip(keep));
        }
    }
}

/// Converts an infix expression into a postfix expression.
///
/// The result is [`postfix`] of the input: the tokens in postfix order, or
/// the position of a right parenthesis that closes nothing, or of the
/// innermost left parenthesis that is never closed. Nothing else is an
/// error; what a sequence is converted to that is no expression follows from
/// [`postfix`] all the same, and [`validate::validate`] tells beforehand.
///
/// A result holds every value, function and operator of the input exactly
/// once and nothing else, the values in the order of the input; an error
/// is at a parenthesis of the input.
///
/// A function need not be followed by a parenthesis, but the result may be
/// unexpected where it is not: an operator behind the last of several bare
/// arguments is applied to that argument, not to the function's result.
pub fn to_postfix<V, F, O>(infix: Vec<InputToken<V, F, O>>) -> (result: Result<
    Vec<OutputToken<V, F, O>>,
    ParenMissmatchError,
>) where O: Operator
    ensures
        match result {
            Ok(out_queue) => {
                &&& postfix(infix@) == Ok::<Seq<OutputToken<V, F, O>>, usize>(out_queue@)
                &&& out_queue@.to_multiset() == content(infix@).to_multiset()
                &&& values(out_queue@) == values(content(infix@))
                &&& out_queue@.len() <= infix@.len()
            },
            Err(error) => {
                &&& postfix(infix@) == Err::<Seq<OutputToken<V, F, O>>, usize>(error.pos())
                &&& error.pos() < infix@.len()
                &&& infix@[error.pos() as int] is LeftParen || infix@[error.pos() as int]
                    is RightParen
            },
        },
{
    let mut out_queue: Vec<OutputToken<V, F, O>> = Vec::new();
    let mut stack: Vec<StackToken<F, O>> = Vec::new();
    let mut paren_count: usize = 0;
    let mut pos: usize = 0;
    let ghost tokens = infix@;
    assert(tokens.len() == infix.len());

    for token in iter: infix.into_iter()
        invariant
            iter.seq() == tokens,
            tokens == infix@,
            tokens.len() <= usize::MAX,
            pos == iter.index(),
            paren_count <= pos,
            scan(tokens, pos as nat) == Ok::<Yard<V, F, O>, usize>(
                Yard { output: out_queue@, pending: stack@, open: paren_count as nat },
            ),
    {
        match token {
            InputToken::Value(value) => out_queue.push(OutputToken::Value(value)),
            InputToken::LeftParen => {
                paren_count += 1;
                stack.push(StackToken::LeftParen(pos))
            },
            InputToken::RightParen => {
                if paren_count == 0 {
                    proof {
                        lemma_scan_stays_stopped(tokens, (pos + 1) as nat, tokens.len());
                        lemma_postfix_errors(tokens);
                    }
                    return Err(ParenMissmatchError { pos });
                }
                paren_count -= 1;
                flush_operators(&mut stack, &mut out_queue);
                stack.pop();
                if let Some(StackToken::Function(_)) = stack.last() {
                    if let Some(StackToken::Function(func)) = stack.pop() {
                        out_queue.push(OutputToken::Function(func));
                    }
                }
            },
            InputToken::Function(func) => stack.push(StackToken::Function(func)),
            InputToken::ArgSeperator => flush_operators(&mut stack, &mut out_queue),
            InputToken::Operator(o1) => {
                displace_operators(&mut stack, &mut out_queue, &o1);
                stack.push(StackToken::Operator(o1));
            },
        }
        pos += 1;
    }

    while stack.len() > 0
        invariant
            tokens == infix@,
            tokens.len() <= usize::MAX,
            postfix(tokens) == (Yard {
                output: out_queue@,
                pending: stack@,
                open: paren_count as nat,
            }).finish(),
        decreases stack@.len(),
    {
        let ghost before = stack@;
        let ghost emitted = out_queue@;
        match stack.pop() {
            Some(StackToken::LeftParen(pos)) => {
                proof {
                    lemma_postfix_errors(tokens);
                }
                return Err(ParenMissmatchError { pos });
            },
            Some(StackToken::Function(func)) => {
                out_queue.push(OutputToken::Function(func));
                assert(out_queue@ + drained(stack@) == emitted + drained(before));
            },
            Some(StackToken::Operator(o)) => {
                out_queue.push(OutputToken::Operator(o));
                assert(out_queue@ + drained(stack@) == emitted + drained(before));
            },
            None => {},
        }
    }
    proof {
        lemma_postfix_conserves(tokens);
        lemma_values_keep_order(tokens);
    }
    Ok(out_queue)
}


} // verus!
