//! The conversion to postfix order, stated over sequences.
//!
//! A [`Yard`] is the conversion between two tokens. [`Yard::accept`] says
//! what one token does to it, [`scan`] runs a prefix of the input through
//! it, and [`Yard::finish`] says what is left to do at the end of the
//! input. [`postfix`] is the three together.

use vstd::prelude::*;
use crate::{InputToken, Operator, OutputToken, StackToken};

verus! {

/// The conversion between two tokens.
pub struct Yard<V, F, O> {
    /// What has been emitted so far.
    pub output: Seq<OutputToken<V, F, O>>,
    /// The tokens that wait, the one that leaves first at the end.
    pub pending: Seq<StackToken<F, O>>,
    /// How many left parentheses have not met their right parenthesis.
    pub open: nat,
}

/// Whether the pending operator `top` leaves the stack before `incoming`
/// enters it: it binds tighter, or as tight while `incoming` groups from the
/// left.
pub open spec fn gives_way<O: Operator>(top: O, incoming: O) -> bool {
    top.spec_precedence() > incoming.spec_precedence() || (incoming.spec_precedence()
        == top.spec_precedence() && incoming.spec_is_left_associative())
}

/// The number of operators that lie on top of `pending`, down to the first
/// entry that is none.
pub open spec fn operators_on_top<F, O>(pending: Seq<StackToken<F, O>>) -> nat
    decreases pending.len(),
{
    if pending.len() > 0 && pending.last() is Operator {
        1 + operators_on_top(pending.drop_last())
    } else {
        0
    }
}

/// The number of operators on top of `pending` that give way to
/// `incoming`, down to the first entry that does not.
pub open spec fn displaced<F, O: Operator>(pending: Seq<StackToken<F, O>>, incoming: O) -> nat
    decreases pending.len(),
{
    if pending.len() > 0 && (pending.last() matches StackToken::Operator(top) && gives_way(
        top,
        incoming,
    )) {
        1 + displaced(pending.drop_last(), incoming)
    } else {
        0
    }
}

/// The functions and operators of `pending` in the order in which they
/// leave it, top first. Parenthesis markers have no place in the output.
pub open spec fn drained<V, F, O>(pending: Seq<StackToken<F, O>>) -> Seq<OutputToken<V, F, O>>
    decreases pending.len(),
{
    if pending.len() == 0 {
        Seq::empty()
    } else {
        let below = drained(pending.drop_last());
        match pending.last() {
            StackToken::LeftParen(_) => below,
            StackToken::Function(f) => seq![OutputToken::Function(f)] + below,
            StackToken::Operator(o) => seq![OutputToken::Operator(o)] + below,
        }
    }
}

/// The position of the topmost parenthesis marker in `pending`, if there is
/// one.
pub open spec fn innermost_paren<F, O>(pending: Seq<StackToken<F, O>>) -> Option<usize>
    decreases pending.len(),
{
    if pending.len() == 0 {
        None
    } else {
        match pending.last() {
            StackToken::LeftParen(pos) => Some(pos),
            _ => innermost_paren(pending.drop_last()),
        }
    }
}

impl<V, F, O: Operator> Yard<V, F, O> {
    /// The conversion before the first token.
    pub open spec fn start() -> Self {
        Yard { output: Seq::empty(), pending: Seq::empty(), open: 0 }
    }

    /// Moves the top `n` pending entries to the output.
    pub open spec fn release(self, n: nat) -> Self {
        let keep = self.pending.len() - n;
        Yard {
            output: self.output + drained(self.pending.skip(keep)),
            pending: self.pending.take(keep),
            open: self.open,
        }
    }

    /// A right parenthesis while one is open: the operators on top leave for
    /// the output, the entry below them is dropped, and a function that
    /// then lies on top follows the operators.
    pub open spec fn close(self) -> Self {
        let flushed = self.release(operators_on_top(self.pending));
        let rest = if flushed.pending.len() > 0 {
            flushed.pending.drop_last()
        } else {
            flushed.pending
        };
        let open = (self.open - 1) as nat;
        if rest.len() > 0 && rest.last() is Function {
            Yard {
                output: flushed.output.push(OutputToken::Function(rest.last()->Function_0)),
                pending: rest.drop_last(),
                open,
            }
        } else {
            Yard { output: flushed.output, pending: rest, open }
        }
    }

    /// An operator: the pending operators that give way to it leave for the
    /// output, then it waits itself.
    pub open spec fn enter(self, incoming: O) -> Self {
        let cleared = self.release(displaced(self.pending, incoming));
        Yard {
            output: cleared.output,
            pending: cleared.pending.push(StackToken::Operator(incoming)),
            open: cleared.open,
        }
    }

    /// What the token at position `pos` does. Only a right parenthesis
    /// while none is open stops the conversion, with its position.
    pub open spec fn accept(self, pos: usize, token: InputToken<V, F, O>) -> Result<Self, usize> {
        match token {
            InputToken::Value(v) => Ok(
                Yard {
                    output: self.output.push(OutputToken::Value(v)),
                    pending: self.pending,
                    open: self.open,
                },
            ),
            InputToken::LeftParen => Ok(
                Yard {
                    output: self.output,
                    pending: self.pending.push(StackToken::LeftParen(pos)),
                    open: self.open + 1,
                },
            ),
            InputToken::RightParen => if self.open == 0 {
                Err(pos)
            } else {
                Ok(self.close())
            },
            InputToken::Function(f) => Ok(
                Yard {
                    output: self.output,
                    pending: self.pending.push(StackToken::Function(f)),
                    open: self.open,
                },
            ),
            InputToken::ArgSeperator => Ok(self.release(operators_on_top(self.pending))),
            InputToken::Operator(o) => Ok(self.enter(o)),
        }
    }

    /// The end of the input: a parenthesis that is still pending is an
    /// error at its position, the topmost one first; otherwise everything
    /// that is pending leaves for the output.
    pub open spec fn finish(self) -> Result<Seq<OutputToken<V, F, O>>, usize> {
        match innermost_paren(self.pending) {
            Some(pos) => Err(pos),
            None => Ok(self.output + drained(self.pending)),
        }
    }
}

/// The conversion after the first `n` tokens, or the position of the token
/// among them that stopped it.
pub open spec fn scan<V, F, O: Operator>(tokens: Seq<InputToken<V, F, O>>, n: nat) -> Result<
    Yard<V, F, O>,
    usize,
>
    decreases n,
{
    if n == 0 {
        Ok(Yard::start())
    } else {
        match scan(tokens, (n - 1) as nat) {
            Ok(yard) => yard.accept((n - 1) as usize, tokens[n - 1]),
            Err(pos) => Err(pos),
        }
    }
}

/// The postfix order of `tokens`, or the position of the parenthesis that
/// has no partner.
pub open spec fn postfix<V, F, O: Operator>(tokens: Seq<InputToken<V, F, O>>) -> Result<
    Seq<OutputToken<V, F, O>>,
    usize,
> {
    match scan(tokens, tokens.len()) {
        Ok(yard) => yard.finish(),
        Err(pos) => Err(pos),
    }
}

/// The operators on top of a stack are operators, and what lies below
/// them is none.
pub proof fn lemma_operators_on_top<F, O>(pending: Seq<StackToken<F, O>>)
    ensures
        operators_on_top(pending) <= pending.len(),
        forall|i: int|
            0 <= i < pending.len() && pending.len() - operators_on_top(pending) <= i
                ==> pending[i] is Operator,
        operators_on_top(pending) < pending.len() ==> !(pending[pending.len() - operators_on_top(
            pending,
        ) - 1] is Operator),
    decreases pending.len(),
{
    if pending.len() > 0 && pending.last() is Operator {
        let below = pending.drop_last();
        lemma_operators_on_top(below);
        let keep = pending.len() - operators_on_top(pending);
        assert forall|i: int| 0 <= i < pending.len() && keep <= i implies pending[i]
            is Operator by {
            if i < below.len() {
                assert(below[i] is Operator);
            }
        }
    }
}

/// The operators that give way to another are operators on top of the
/// stack.
pub proof fn lemma_displaced<F, O: Operator>(pending: Seq<StackToken<F, O>>, incoming: O)
    ensures
        displaced(pending, incoming) <= operators_on_top(pending) <= pending.len(),
        forall|i: int|
            0 <= i < pending.len() && pending.len() - displaced(pending, incoming) <= i
                ==> pending[i] is Operator,
    decreases pending.len(),
{
    lemma_operators_on_top(pending);
    if pending.len() > 0 && (pending.last() matches StackToken::Operator(top) && gives_way(
        top,
        incoming,
    )) {
        lemma_displaced(pending.drop_last(), incoming);
    }
}

/// A conversion that has stopped stays stopped, at the same position.
pub proof fn lemma_scan_stays_stopped<V, F, O: Operator>(
    tokens: Seq<InputToken<V, F, O>>,
    n: nat,
    m: nat,
)
    requires
        n <= m,
        scan(tokens, n) is Err,
    ensures
        scan(tokens, m) == scan(tokens, n),
    decreases m,
{
    if n < m {
        lemma_scan_stays_stopped(tokens, n, (m - 1) as nat);
    }
}


} // verus!
