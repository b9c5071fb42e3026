//! What holds of every conversion.

use vstd::prelude::*;
use vstd::multiset::Multiset;
use vstd::seq_lib::{lemma_multiset_commutative, to_multiset_len};
use crate::model::{
    displaced, drained, gives_way, innermost_paren, lemma_displaced, lemma_operators_on_top,
    lemma_scan_stays_stopped, operators_on_top, postfix, scan, Yard,
};
use crate::validate::{
    kind, kinds, lemma_read_stays_stopped, outcome, read, Nesting, Outcome, State, Token,
};
use crate::{InputToken, Operator, OutputToken, StackToken};

verus! {

/// What `token` contributes to the output: itself, if it is a value, a
/// function or an operator. Parentheses and separators direct the
/// conversion and are no part of its result.
pub open spec fn kept<V, F, O>(token: InputToken<V, F, O>) -> Seq<OutputToken<V, F, O>> {
    match token {
        InputToken::Value(v) => seq![OutputToken::Value(v)],
        InputToken::Function(f) => seq![OutputToken::Function(f)],
        InputToken::Operator(o) => seq![OutputToken::Operator(o)],
        _ => Seq::empty(),
    }
}

/// The values, functions and operators of `tokens`, in their order.
pub open spec fn content<V, F, O>(tokens: Seq<InputToken<V, F, O>>) -> Seq<OutputToken<V, F, O>>
    decreases tokens.len(),
{
    if tokens.len() == 0 {
        Seq::empty()
    } else {
        content(tokens.drop_last()) + kept(tokens.last())
    }
}

/// The values among `output`, in their order.
pub open spec fn values<V, F, O>(output: Seq<OutputToken<V, F, O>>) -> Seq<V>
    decreases output.len(),
{
    if output.len() == 0 {
        Seq::empty()
    } else {
        match output.last() {
            OutputToken::Value(v) => values(output.drop_last()).push(v),
            _ => values(output.drop_last()),
        }
    }
}

/// The number of parenthesis markers in `pending`.
spec fn markers<F, O>(pending: Seq<StackToken<F, O>>) -> nat
    decreases pending.len(),
{
    if pending.len() == 0 {
        0
    } else if pending.last() is LeftParen {
        1 + markers(pending.drop_last())
    } else {
        markers(pending.drop_last())
    }
}

/// How many more left than right parentheses the first `n` tokens hold.
pub open spec fn balance<V, F, O>(tokens: Seq<InputToken<V, F, O>>, n: nat) -> int
    decreases n,
{
    if n == 0 {
        0
    } else {
        balance(tokens, (n - 1) as nat) + match tokens[n - 1] {
            InputToken::LeftParen => 1int,
            InputToken::RightParen => -1int,
            _ => 0int,
        }
    }
}

/// Whether no parenthesis stands behind position `pos`.
pub open spec fn no_paren_behind<V, F, O>(tokens: Seq<InputToken<V, F, O>>, pos: nat) -> bool {
    forall|i: int|
        pos < i < tokens.len() ==> !(tokens[i] is LeftParen) && !(tokens[i] is RightParen)
}

/// Whether no prefix of the first `n` tokens closes more parentheses than
/// it opens.
pub open spec fn never_negative<V, F, O>(tokens: Seq<InputToken<V, F, O>>, n: nat) -> bool {
    forall|m: nat| m <= n ==> balance(tokens, m) >= 0
}

/// What leaves a stack is what leaves its upper part, then what leaves its
/// lower part; and the markers of the two parts add up.
proof fn lemma_split<V, F, O>(pending: Seq<StackToken<F, O>>, keep: int)
    requires
        0 <= keep <= pending.len(),
    ensures
        drained::<V, F, O>(pending) == drained::<V, F, O>(pending.skip(keep)) + drained::<V, F, O>(
            pending.take(keep),
        ),
        markers(pending) == markers(pending.skip(keep)) + markers(pending.take(keep)),
    decreases pending.len() - keep,
{
    if keep == pending.len() {
        assert(pending.take(keep) =~= pending);
    } else {
        let below = pending.drop_last();
        lemma_split::<V, F, O>(below, keep);
        assert(below.skip(keep) =~= pending.skip(keep).drop_last());
        assert(below.take(keep) =~= pending.take(keep));
    }
}

/// Among operators there is no marker.
proof fn lemma_no_marker_among_operators<F, O>(pending: Seq<StackToken<F, O>>, keep: int)
    requires
        0 <= keep <= pending.len(),
        forall|i: int| 0 <= i < pending.len() && keep <= i ==> pending[i] is Operator,
    ensures
        markers(pending.skip(keep)) == 0,
    decreases pending.len() - keep,
{
    let upper = pending.skip(keep);
    if keep < pending.len() {
        let below = pending.drop_last();
        assert forall|i: int| 0 <= i < below.len() && keep <= i implies below[i] is Operator by {
            assert(below[i] == pending[i]);
        }
        lemma_no_marker_among_operators(below, keep);
        assert(below.skip(keep) =~= upper.drop_last());
    }
}

/// A stack holds no marker exactly if it has no innermost parenthesis.
proof fn lemma_no_marker<F, O>(pending: Seq<StackToken<F, O>>)
    ensures
        innermost_paren(pending) is None <==> markers(pending) == 0,
    decreases pending.len(),
{
    if pending.len() > 0 {
        lemma_no_marker(pending.drop_last());
    }
}

/// The innermost parenthesis of a stack is one of its markers.
proof fn lemma_innermost_is_marker<F, O>(pending: Seq<StackToken<F, O>>)
    requires
        innermost_paren(pending) is Some,
    ensures
        exists|i: int|
            0 <= i < pending.len() && #[trigger] pending[i] == StackToken::<F, O>::LeftParen(
                innermost_paren(pending)->0,
            ),
    decreases pending.len(),
{
    if pending.last() is LeftParen {
        assert(pending[pending.len() - 1] == StackToken::<F, O>::LeftParen(
            innermost_paren(pending)->0,
        ));
    } else {
        let below = pending.drop_last();
        lemma_innermost_is_marker(below);
        let i = choose|i: int|
            0 <= i < below.len() && #[trigger] below[i] == StackToken::<F, O>::LeftParen(
                innermost_paren(pending)->0,
            );
        assert(pending[i] == below[i]);
    }
}

/// Under operators lies the same innermost parenthesis.
proof fn lemma_innermost_below_operators<F, O>(pending: Seq<StackToken<F, O>>, n: nat)
    requires
        n <= pending.len(),
        forall|i: int| 0 <= i < pending.len() && pending.len() - n <= i ==> pending[i] is Operator,
    ensures
        innermost_paren(pending.take(pending.len() - n)) == innermost_paren(pending),
    decreases n,
{
    if n == 0 {
        assert(pending.take(pending.len() as int) =~= pending);
    } else {
        let below = pending.drop_last();
        assert forall|i: int| 0 <= i < below.len() && below.len() - (n - 1) <= i implies below[i]
            is Operator by {
            assert(below[i] == pending[i]);
        }
        lemma_innermost_below_operators(below, (n - 1) as nat);
        assert(below.take(below.len() - (n - 1)) =~= pending.take(pending.len() - n));
    }
}

/// What a conversion holds: the emitted tokens and the pending ones.
spec fn held<V, F, O>(yard: Yard<V, F, O>) -> Multiset<OutputToken<V, F, O>> {
    yard.output.to_multiset().add(drained::<V, F, O>(yard.pending).to_multiset())
}

/// Moving pending entries to the output changes nothing in what the
/// conversion holds, and takes no marker away if there is none among them.
proof fn lemma_release_conserves<V, F, O: Operator>(yard: Yard<V, F, O>, n: nat)
    requires
        n <= yard.pending.len(),
    ensures
        held(yard.release(n)) == held(yard),
        markers(yard.pending) == markers(yard.release(n).pending) + markers(
            yard.pending.skip(yard.pending.len() - n),
        ),
{
    let keep = yard.pending.len() - n;
    let upper = drained::<V, F, O>(yard.pending.skip(keep));
    let lower = drained::<V, F, O>(yard.pending.take(keep));
    lemma_split::<V, F, O>(yard.pending, keep);
    lemma_multiset_commutative(yard.output, upper);
    lemma_multiset_commutative(upper, lower);
}

/// One token changes what the conversion holds by what the token
/// contributes, but for a function that a right parenthesis drops; and
/// each dropped function leaves a marker on the stack that no right
/// parenthesis will take away.
proof fn lemma_accept_conserves<V, F, O: Operator>(
    yard: Yard<V, F, O>,
    pos: usize,
    token: InputToken<V, F, O>,
    dropped: Multiset<OutputToken<V, F, O>>,
) -> (lost: Multiset<OutputToken<V, F, O>>)
    requires
        yard.accept(pos, token) is Ok,
        markers(yard.pending) == yard.open + dropped.len(),
    ensures
        ({
            let after = yard.accept(pos, token)->Ok_0;
            &&& held(after).add(lost) == held(yard).add(dropped).add(kept(token).to_multiset())
            &&& markers(after.pending) == after.open + lost.len()
        }),
{
    broadcast use vstd::multiset::group_multiset_axioms;
    broadcast use vstd::seq_lib::group_to_multiset_ensures;

    let after = yard.accept(pos, token)->Ok_0;
    match token {
        InputToken::Value(_) => dropped,
        InputToken::LeftParen => {
            assert(after.pending.drop_last() =~= yard.pending);
            dropped
        },
        InputToken::Function(f) => {
            assert(after.pending.drop_last() =~= yard.pending);
            lemma_multiset_commutative(
                seq![OutputToken::<V, F, O>::Function(f)],
                drained::<V, F, O>(yard.pending),
            );
            dropped
        },
        InputToken::ArgSeperator => {
            lemma_operators_on_top(yard.pending);
            lemma_no_marker_among_operators(
                yard.pending,
                yard.pending.len() - operators_on_top(yard.pending),
            );
            lemma_release_conserves(yard, operators_on_top(yard.pending));
            dropped
        },
        InputToken::Operator(o) => {
            lemma_displaced(yard.pending, o);
            lemma_no_marker_among_operators(
                yard.pending,
                yard.pending.len() - displaced(yard.pending, o),
            );
            let cleared = yard.release(displaced(yard.pending, o));
            lemma_release_conserves(yard, displaced(yard.pending, o));
            assert(after.pending.drop_last() =~= cleared.pending);
            lemma_multiset_commutative(
                seq![OutputToken::<V, F, O>::Operator(o)],
                drained::<V, F, O>(cleared.pending),
            );
            dropped
        },
        InputToken::RightParen => {
            lemma_operators_on_top(yard.pending);
            lemma_no_marker_among_operators(
                yard.pending,
                yard.pending.len() - operators_on_top(yard.pending),
            );
            let flushed = yard.release(operators_on_top(yard.pending));
            lemma_release_conserves(yard, operators_on_top(yard.pending));
            let rest = flushed.pending.drop_last();
            let partial = Yard { output: flushed.output, pending: rest, open: after.open };
            let lost = match flushed.pending.last() {
                StackToken::LeftParen(_) => dropped,
                StackToken::Function(f) => {
                    lemma_multiset_commutative(
                        seq![OutputToken::<V, F, O>::Function(f)],
                        drained::<V, F, O>(rest),
                    );
                    dropped.insert(OutputToken::<V, F, O>::Function(f))
                },
                StackToken::Operator(o) => {
                    lemma_multiset_commutative(
                        seq![OutputToken::<V, F, O>::Operator(o)],
                        drained::<V, F, O>(rest),
                    );
                    dropped.insert(OutputToken::<V, F, O>::Operator(o))
                },
            };
            assert(markers(rest) == after.open + lost.len());
            if rest.len() > 0 && rest.last() is Function {
                let g = rest.last()->Function_0;
                lemma_multiset_commutative(
                    seq![OutputToken::<V, F, O>::Function(g)],
                    drained::<V, F, O>(rest.drop_last()),
                );
                assert(held(after) =~= held(partial));
            }
            lost
        },
    }
}

/// After any number of tokens the conversion holds what they contribute,
/// but for the functions that right parentheses have dropped.
proof fn lemma_scan_conserves<V, F, O: Operator>(tokens: Seq<InputToken<V, F, O>>, n: nat) -> (lost:
    Multiset<OutputToken<V, F, O>>)
    requires
        n <= tokens.len(),
        scan(tokens, n) is Ok,
    ensures
        ({
            let yard = scan(tokens, n)->Ok_0;
            &&& held(yard).add(lost) == content(tokens.take(n as int)).to_multiset()
            &&& markers(yard.pending) == yard.open + lost.len()
        }),
    decreases n,
{
    broadcast use vstd::multiset::group_multiset_axioms;
    broadcast use vstd::seq_lib::group_to_multiset_ensures;

    if n == 0 {
        Multiset::empty()
    } else {
        let before = (n - 1) as nat;
        let dropped = lemma_scan_conserves(tokens, before);
        let yard = scan(tokens, before)->Ok_0;
        let lost = lemma_accept_conserves(yard, before as usize, tokens[n - 1], dropped);
        assert(tokens.take(n as int).drop_last() =~= tokens.take(before as int));
        lemma_multiset_commutative(content(tokens.take(before as int)), kept(tokens[n - 1]));
        lost
    }
}

/// No token contributes more than itself.
pub proof fn lemma_content_len<V, F, O>(tokens: Seq<InputToken<V, F, O>>)
    ensures
        content(tokens).len() <= tokens.len(),
    decreases tokens.len(),
{
    if tokens.len() > 0 {
        lemma_content_len(tokens.drop_last());
    }
}

/// Conservation: where the conversion succeeds, its result holds every
/// value, function and operator of the input exactly once, and nothing
/// else. It is a rearrangement of [`content`], and so no longer than the
/// input.
pub proof fn lemma_postfix_conserves<V, F, O: Operator>(tokens: Seq<InputToken<V, F, O>>)
    requires
        postfix(tokens) is Ok,
    ensures
        postfix(tokens)->Ok_0.to_multiset() == content(tokens).to_multiset(),
        postfix(tokens)->Ok_0.len() == content(tokens).len(),
        content(tokens).len() <= tokens.len(),
{
    broadcast use vstd::multiset::group_multiset_axioms;
    broadcast use vstd::seq_lib::group_to_multiset_ensures;

    lemma_scan_conserves(tokens, tokens.len());
    let yard = scan(tokens, tokens.len())->Ok_0;
    lemma_no_marker(yard.pending);
    assert(tokens.take(tokens.len() as int) =~= tokens);
    lemma_multiset_commutative(yard.output, drained::<V, F, O>(yard.pending));
    to_multiset_len(postfix(tokens)->Ok_0);
    to_multiset_len(content(tokens));
    lemma_content_len(tokens);
}

/// The values of two sequences in a row are those of the first, then those
/// of the second.
proof fn lemma_values_concat<V, F, O>(
    front: Seq<OutputToken<V, F, O>>,
    back: Seq<OutputToken<V, F, O>>,
)
    ensures
        values(front + back) == values(front) + values(back),
    decreases back.len(),
{
    if back.len() == 0 {
        assert(front + back =~= front);
        assert(values(front) + values(back) =~= values(front));
    } else {
        lemma_values_concat(front, back.drop_last());
        assert((front + back).drop_last() =~= front + back.drop_last());
        assert(values(front + back) =~= values(front) + values(back));
    }
}

/// No value waits on the stack.
proof fn lemma_drained_holds_no_value<V, F, O>(pending: Seq<StackToken<F, O>>)
    ensures
        values(drained::<V, F, O>(pending)) == Seq::<V>::empty(),
    decreases pending.len(),
{
    if pending.len() > 0 {
        let below = drained::<V, F, O>(pending.drop_last());
        lemma_drained_holds_no_value::<V, F, O>(pending.drop_last());
        match pending.last() {
            StackToken::LeftParen(_) => {},
            StackToken::Function(f) => {
                let top = seq![OutputToken::<V, F, O>::Function(f)];
                assert(values(top.drop_last()) == Seq::<V>::empty());
                lemma_values_concat(top, below);
            },
            StackToken::Operator(o) => {
                let top = seq![OutputToken::<V, F, O>::Operator(o)];
                assert(values(top.drop_last()) == Seq::<V>::empty());
                lemma_values_concat(top, below);
            },
        }
    }
}

/// A token contributes a value exactly if it is one.
proof fn lemma_values_of_kept<V, F, O>(token: InputToken<V, F, O>)
    ensures
        values(kept(token)) == match token {
            InputToken::Value(v) => seq![v],
            _ => Seq::<V>::empty(),
        },
{
    if kept(token).len() > 0 {
        assert(kept(token).drop_last() =~= Seq::empty());
        assert(values(kept(token).drop_last()) == Seq::<V>::empty());
        if let InputToken::Value(v) = token {
            assert(Seq::<V>::empty().push(v) =~= seq![v]);
        }
    }
}

/// After any number of tokens the output holds their values, in their
/// order.
proof fn lemma_scan_keeps_order<V, F, O: Operator>(tokens: Seq<InputToken<V, F, O>>, n: nat)
    requires
        n <= tokens.len(),
        scan(tokens, n) is Ok,
    ensures
        values(scan(tokens, n)->Ok_0.output) == values(content(tokens.take(n as int))),
    decreases n,
{
    if n == 0 {
        assert(tokens.take(0) =~= Seq::empty());
    } else {
        let before = (n - 1) as nat;
        lemma_scan_keeps_order(tokens, before);
        let yard = scan(tokens, before)->Ok_0;
        let after = scan(tokens, n)->Ok_0;
        let token = tokens[n - 1];
        let read = content(tokens.take(before as int));
        assert(tokens.take(n as int).drop_last() =~= tokens.take(before as int));
        lemma_values_concat(read, kept(token));
        lemma_values_of_kept(token);
        match token {
            InputToken::Value(v) => {
                assert(after.output.drop_last() =~= yard.output);
                assert(values(read) + seq![v] =~= values(read).push(v));
            },
            InputToken::ArgSeperator => {
                let upper = yard.pending.skip(yard.pending.len() - operators_on_top(yard.pending));
                lemma_drained_holds_no_value::<V, F, O>(upper);
                lemma_values_concat(yard.output, drained::<V, F, O>(upper));
            },
            InputToken::Operator(o) => {
                let upper = yard.pending.skip(yard.pending.len() - displaced(yard.pending, o));
                lemma_drained_holds_no_value::<V, F, O>(upper);
                lemma_values_concat(yard.output, drained::<V, F, O>(upper));
            },
            InputToken::RightParen => {
                let upper = yard.pending.skip(yard.pending.len() - operators_on_top(yard.pending));
                lemma_drained_holds_no_value::<V, F, O>(upper);
                lemma_values_concat(yard.output, drained::<V, F, O>(upper));
                let flushed = yard.output + drained::<V, F, O>(upper);
                if after.output != flushed {
                    assert(after.output.drop_last() =~= flushed);
                }
            },
            _ => {},
        }
        assert(values(after.output) =~= values(read) + values(kept(token)));
    }
}

/// The values keep their order: where the conversion succeeds, the values
/// of its result are the values of the input, one behind the other as they
/// stand there. Only functions and operators change their places.
pub proof fn lemma_values_keep_order<V, F, O: Operator>(tokens: Seq<InputToken<V, F, O>>)
    requires
        postfix(tokens) is Ok,
    ensures
        values(postfix(tokens)->Ok_0) == values(content(tokens)),
{
    let yard = scan(tokens, tokens.len())->Ok_0;
    lemma_scan_keeps_order(tokens, tokens.len());
    assert(tokens.take(tokens.len() as int) =~= tokens);
    lemma_drained_holds_no_value::<V, F, O>(yard.pending);
    lemma_values_concat(yard.output, drained::<V, F, O>(yard.pending));
    assert(values(yard.output) + Seq::<V>::empty() =~= values(yard.output));
}

/// The conversion counts the parentheses: it reaches the end of a prefix
/// exactly if no prefix of that closes more than it opens, and then as
/// many are open as the balance says. Otherwise it has stopped at the first
/// right parenthesis in front of which the balance is zero.
pub proof fn lemma_scan_counts<V, F, O: Operator>(tokens: Seq<InputToken<V, F, O>>, n: nat)
    requires
        n <= tokens.len() <= usize::MAX,
    ensures
        scan(tokens, n) is Ok <==> never_negative(tokens, n),
        scan(tokens, n) matches Ok(yard) ==> yard.open == balance(tokens, n),
        scan(tokens, n) matches Err(pos) ==> {
            &&& pos < n
            &&& tokens[pos as int] is RightParen
            &&& balance(tokens, pos as nat) == 0
            &&& never_negative(tokens, pos as nat)
        },
    decreases n,
{
    if n > 0 {
        let before = (n - 1) as nat;
        lemma_scan_counts(tokens, before);
        if scan(tokens, before) is Ok {
            if scan(tokens, n) is Ok {
                assert forall|m: nat| m <= n implies balance(tokens, m) >= 0 by {
                    if m < n {
                        assert(m <= before);
                    }
                }
            } else {
                assert(balance(tokens, n) < 0);
            }
        }
    }
}

/// Whether every marker in `pending` holds the position of a left
/// parenthesis among the first `n` tokens.
spec fn marked<V, F, O>(
    tokens: Seq<InputToken<V, F, O>>,
    n: nat,
    pending: Seq<StackToken<F, O>>,
) -> bool {
    forall|i: int|
        0 <= i < pending.len() ==> (#[trigger] pending[i] matches StackToken::LeftParen(pos)
            ==> pos < n && tokens[pos as int] is LeftParen)
}

/// The markers on the stack are the positions of left parentheses.
proof fn lemma_scan_marks<V, F, O: Operator>(tokens: Seq<InputToken<V, F, O>>, n: nat)
    requires
        n <= tokens.len() <= usize::MAX,
        scan(tokens, n) is Ok,
    ensures
        marked(tokens, n, scan(tokens, n)->Ok_0.pending),
    decreases n,
{
    if n > 0 {
        let before = (n - 1) as nat;
        lemma_scan_marks(tokens, before);
        let yard = scan(tokens, before)->Ok_0;
        let after = scan(tokens, n)->Ok_0;
        lemma_operators_on_top(yard.pending);
        assert forall|i: int| 0 <= i < after.pending.len() implies (
        #[trigger] after.pending[i] matches StackToken::LeftParen(pos) ==> pos < n
            && tokens[pos as int] is LeftParen) by {
            match tokens[n - 1] {
                InputToken::Operator(o) => {
                    lemma_displaced(yard.pending, o);
                    if i < after.pending.len() - 1 {
                        assert(after.pending[i] == yard.pending[i]);
                    }
                },
                _ => {
                    if i < yard.pending.len() {
                        assert(after.pending[i] == yard.pending[i]);
                    }
                },
            }
        }
    }
}

/// Every error of the conversion is at a parenthesis of the input: at the
/// first right parenthesis in front of which as many parentheses have been
/// closed as opened, or, where there is none such, at a left parenthesis.
/// And where the input opens more parentheses than it closes, the
/// conversion fails.
pub proof fn lemma_postfix_errors<V, F, O: Operator>(tokens: Seq<InputToken<V, F, O>>)
    requires
        tokens.len() <= usize::MAX,
    ensures
        postfix(tokens) matches Err(pos) ==> {
            &&& pos < tokens.len()
            &&& if never_negative(tokens, tokens.len()) {
                tokens[pos as int] is LeftParen
            } else {
                &&& tokens[pos as int] is RightParen
                &&& balance(tokens, pos as nat) == 0
                &&& never_negative(tokens, pos as nat)
            }
        },
        !never_negative(tokens, tokens.len()) || balance(tokens, tokens.len()) > 0 ==> postfix(
            tokens,
        ) is Err,
{
    lemma_scan_counts(tokens, tokens.len());
    if scan(tokens, tokens.len()) is Ok {
        let yard = scan(tokens, tokens.len())->Ok_0;
        lemma_scan_marks(tokens, tokens.len());
        if postfix(tokens) is Err {
            lemma_innermost_is_marker(yard.pending);
        }
        if balance(tokens, tokens.len()) > 0 {
            lemma_scan_conserves(tokens, tokens.len());
            lemma_no_marker(yard.pending);
        }
    }
}

/// A right parenthesis behind a leading value closes nothing. Whatever
/// follows, the conversion fails at it, and the validation refuses it
/// where it expects an operator, a right parenthesis or a separator.
pub proof fn lemma_closed_before_opened<V, F, O: Operator>(tokens: Seq<InputToken<V, F, O>>)
    requires
        2 <= tokens.len(),
        tokens[0] is Value,
        tokens[1] is RightParen,
    ensures
        postfix(tokens) == Err::<Seq<OutputToken<V, F, O>>, usize>(1),
        outcome(kinds(tokens)) == (Outcome::InvalidToken {
            pos: 1,
            expected: seq![Token::Operator, Token::RightParen, Token::ArgSeperator],
        }),
{
    assert(scan(tokens, 0) is Ok);
    assert(scan(tokens, 1) matches Ok(yard) && yard.open == 0);
    assert(scan(tokens, 2) == Err::<Yard<V, F, O>, usize>(1));
    lemma_scan_stays_stopped(tokens, 2, tokens.len());

    let kinds = kinds(tokens);
    assert(read(kinds, 0) is Ok);
    assert(read(kinds, 1) matches Ok((state, nesting)) && state is AfterValue && nesting.open == 0);
    assert(read(kinds, 2) == Err::<(State, Nesting), (nat, State)>(
        (1, State::AfterValue),
    ));
    lemma_read_stays_stopped(kinds, 2, tokens.len());
}

/// Behind a left parenthesis that no parenthesis follows, the conversion
/// goes on to the end with that parenthesis as its innermost.
proof fn lemma_scan_left_open<V, F, O: Operator>(
    tokens: Seq<InputToken<V, F, O>>,
    pos: nat,
    n: nat,
)
    requires
        pos < n <= tokens.len() <= usize::MAX,
        scan(tokens, pos) is Ok,
        tokens[pos as int] is LeftParen,
        no_paren_behind(tokens, pos),
    ensures
        scan(tokens, n) matches Ok(yard) && innermost_paren(yard.pending) == Some(pos as usize),
    decreases n,
{
    if n > pos + 1 {
        let before = (n - 1) as nat;
        lemma_scan_left_open(tokens, pos, before);
        let yard = scan(tokens, before)->Ok_0;
        let after = scan(tokens, n)->Ok_0;
        match tokens[n - 1] {
            InputToken::Function(_) => {
                assert(after.pending.drop_last() =~= yard.pending);
            },
            InputToken::ArgSeperator => {
                lemma_operators_on_top(yard.pending);
                lemma_innermost_below_operators(yard.pending, operators_on_top(yard.pending));
            },
            InputToken::Operator(o) => {
                lemma_displaced(yard.pending, o);
                lemma_innermost_below_operators(yard.pending, displaced(yard.pending, o));
                assert(after.pending.drop_last() =~= yard.pending.take(
                    yard.pending.len() - displaced(yard.pending, o),
                ));
            },
            _ => {},
        }
    }
}

/// A left parenthesis that no parenthesis follows is never closed: if the
/// conversion gets as far as to it, it fails at it. Such is the case of an
/// input that holds no other parenthesis.
pub proof fn lemma_left_open<V, F, O: Operator>(tokens: Seq<InputToken<V, F, O>>, pos: nat)
    requires
        pos < tokens.len() <= usize::MAX,
        never_negative(tokens, pos),
        tokens[pos as int] is LeftParen,
        no_paren_behind(tokens, pos),
    ensures
        postfix(tokens) == Err::<Seq<OutputToken<V, F, O>>, usize>(pos as usize),
{
    lemma_scan_counts(tokens, pos);
    lemma_scan_left_open(tokens, pos, tokens.len());
}

/// Two operators between three values. The first operator is applied
/// first exactly if it gives way to the second: if it binds tighter, or as
/// tight while the second groups from the left. Otherwise the second is
/// applied to the two values around it before the first is applied at all;
/// such is the case of an operator that groups from the right and follows
/// itself.
pub proof fn lemma_two_operators<V, F, O: Operator>(a: V, first: O, b: V, second: O, c: V)
    ensures
        postfix(
            seq![
                InputToken::<V, F, O>::Value(a),
                InputToken::Operator(first),
                InputToken::Value(b),
                InputToken::Operator(second),
                InputToken::Value(c),
            ],
        ) == Ok::<Seq<OutputToken<V, F, O>>, usize>(
            if gives_way(first, second) {
                seq![
                    OutputToken::Value(a),
                    OutputToken::Value(b),
                    OutputToken::Operator(first),
                    OutputToken::Value(c),
                    OutputToken::Operator(second),
                ]
            } else {
                seq![
                    OutputToken::Value(a),
                    OutputToken::Value(b),
                    OutputToken::Value(c),
                    OutputToken::Operator(second),
                    OutputToken::Operator(first),
                ]
            },
        ),
{
    let tokens = seq![
        InputToken::<V, F, O>::Value(a),
        InputToken::Operator(first),
        InputToken::Value(b),
        InputToken::Operator(second),
        InputToken::Value(c),
    ];
    let va = OutputToken::<V, F, O>::Value(a);
    let vb = OutputToken::<V, F, O>::Value(b);
    let vc = OutputToken::<V, F, O>::Value(c);
    let of = OutputToken::<V, F, O>::Operator(first);
    let os = OutputToken::<V, F, O>::Operator(second);
    let pf = StackToken::<F, O>::Operator(first);
    let ps = StackToken::<F, O>::Operator(second);
    let none = Seq::<StackToken<F, O>>::empty();

    let y0 = Yard::<V, F, O>::start();
    assert(scan(tokens, 0) == Ok::<Yard<V, F, O>, usize>(y0));

    let y1 = Yard::<V, F, O> { output: seq![va], pending: none, open: 0 };
    assert(y0.accept(0, tokens[0])->Ok_0.output =~= y1.output);
    assert(scan(tokens, 1) == Ok::<Yard<V, F, O>, usize>(y1));

    let y2 = Yard::<V, F, O> { output: seq![va], pending: seq![pf], open: 0 };
    assert(displaced(none, first) == 0);
    assert(none.skip(0) =~= none);
    assert(none.take(0) =~= none);
    assert(drained::<V, F, O>(none) =~= Seq::empty());
    assert(y1.enter(first).output =~= y2.output);
    assert(y1.enter(first).pending =~= y2.pending);
    assert(scan(tokens, 2) == Ok::<Yard<V, F, O>, usize>(y2));

    let y3 = Yard::<V, F, O> { output: seq![va, vb], pending: seq![pf], open: 0 };
    assert(y2.accept(2, tokens[2])->Ok_0.output =~= y3.output);
    assert(scan(tokens, 3) == Ok::<Yard<V, F, O>, usize>(y3));

    assert(y3.pending.drop_last() =~= none);
    assert(y3.pending.last() == pf);
    assert(displaced(none, second) == 0);
    assert(innermost_paren(none) is None);
    if gives_way(first, second) {
        assert(displaced(y3.pending, second) == 1);
        assert(y3.pending.skip(0) =~= y3.pending);
        assert(y3.pending.take(0) =~= none);
        assert(drained::<V, F, O>(y3.pending) =~= seq![of]);
        let y4 = Yard::<V, F, O> { output: seq![va, vb, of], pending: seq![ps], open: 0 };
        assert(y3.enter(second).output =~= y4.output);
        assert(y3.enter(second).pending =~= y4.pending);
        assert(scan(tokens, 4) == Ok::<Yard<V, F, O>, usize>(y4));
        let y5 = Yard::<V, F, O> { output: seq![va, vb, of, vc], pending: seq![ps], open: 0 };
        assert(y4.accept(4, tokens[4])->Ok_0.output =~= y5.output);
        assert(scan(tokens, 5) == Ok::<Yard<V, F, O>, usize>(y5));
        assert(y5.pending.drop_last() =~= none);
        assert(y5.pending.last() == ps);
        assert(innermost_paren(y5.pending) is None);
        assert(drained::<V, F, O>(y5.pending) =~= seq![os]);
        assert(y5.output + drained::<V, F, O>(y5.pending) =~= seq![va, vb, of, vc, os]);
    } else {
        assert(displaced(y3.pending, second) == 0);
        assert(y3.pending.skip(1) =~= none);
        assert(y3.pending.take(1) =~= y3.pending);
        let y4 = Yard::<V, F, O> { output: seq![va, vb], pending: seq![pf, ps], open: 0 };
        assert(y3.enter(second).output =~= y4.output);
        assert(y3.enter(second).pending =~= y4.pending);
        assert(scan(tokens, 4) == Ok::<Yard<V, F, O>, usize>(y4));
        let y5 = Yard::<V, F, O> { output: seq![va, vb, vc], pending: seq![pf, ps], open: 0 };
        assert(y4.accept(4, tokens[4])->Ok_0.output =~= y5.output);
        assert(scan(tokens, 5) == Ok::<Yard<V, F, O>, usize>(y5));
        assert(y5.pending.drop_last() =~= seq![pf]);
        assert(seq![pf].drop_last() =~= none);
        assert(y5.pending.last() == ps);
        assert(innermost_paren(seq![pf]) is None);
        assert(innermost_paren(y5.pending) is None);
        assert(drained::<V, F, O>(seq![pf]) =~= seq![of]);
        assert(drained::<V, F, O>(y5.pending) =~= seq![os, of]);
        assert(y5.output + drained::<V, F, O>(y5.pending) =~= seq![va, vb, vc, os, of]);
    }
}

/// A function in front of a single value needs no parentheses: with them
/// and without, the value comes first and the function behind it.
pub proof fn lemma_bare_argument<V, F, O: Operator>(f: F, v: V)
    ensures
        postfix(seq![InputToken::<V, F, O>::Function(f), InputToken::Value(v)]) == Ok::<
            Seq<OutputToken<V, F, O>>,
            usize,
        >(seq![OutputToken::Value(v), OutputToken::Function(f)]),
        postfix(
            seq![
                InputToken::<V, F, O>::Function(f),
                InputToken::LeftParen,
                InputToken::Value(v),
                InputToken::RightParen,
            ],
        ) == Ok::<Seq<OutputToken<V, F, O>>, usize>(
            seq![OutputToken::Value(v), OutputToken::Function(f)],
        ),
{
    let ov = OutputToken::<V, F, O>::Value(v);
    let of = OutputToken::<V, F, O>::Function(f);
    let pf = StackToken::<F, O>::Function(f);
    let lp = StackToken::<F, O>::LeftParen(1);
    let none = Seq::<StackToken<F, O>>::empty();
    let y0 = Yard::<V, F, O>::start();
    let y1 = Yard::<V, F, O> { output: Seq::empty(), pending: seq![pf], open: 0 };
    assert(seq![pf].drop_last() =~= none);
    assert(innermost_paren(none) is None);
    assert(operators_on_top(none) == 0);
    assert(drained::<V, F, O>(none) =~= Seq::empty());
    assert(drained::<V, F, O>(seq![pf]) =~= seq![of]);

    let bare = seq![InputToken::<V, F, O>::Function(f), InputToken::Value(v)];
    assert(scan(bare, 0) == Ok::<Yard<V, F, O>, usize>(y0));
    assert(y0.accept(0, bare[0])->Ok_0.pending =~= y1.pending);
    assert(scan(bare, 1) == Ok::<Yard<V, F, O>, usize>(y1));
    let y2 = Yard::<V, F, O> { output: seq![ov], pending: seq![pf], open: 0 };
    assert(y1.accept(1, bare[1])->Ok_0.output =~= y2.output);
    assert(scan(bare, 2) == Ok::<Yard<V, F, O>, usize>(y2));
    assert(y2.output + drained::<V, F, O>(y2.pending) =~= seq![ov, of]);

    let call = seq![
        InputToken::<V, F, O>::Function(f),
        InputToken::LeftParen,
        InputToken::Value(v),
        InputToken::RightParen,
    ];
    assert(scan(call, 0) == Ok::<Yard<V, F, O>, usize>(y0));
    assert(y0.accept(0, call[0])->Ok_0.pending =~= y1.pending);
    assert(scan(call, 1) == Ok::<Yard<V, F, O>, usize>(y1));
    let z2 = Yard::<V, F, O> { output: Seq::empty(), pending: seq![pf, lp], open: 1 };
    assert(y1.accept(1, call[1])->Ok_0.pending =~= z2.pending);
    assert(scan(call, 2) == Ok::<Yard<V, F, O>, usize>(z2));
    let z3 = Yard::<V, F, O> { output: seq![ov], pending: seq![pf, lp], open: 1 };
    assert(z2.accept(2, call[2])->Ok_0.output =~= z3.output);
    assert(scan(call, 3) == Ok::<Yard<V, F, O>, usize>(z3));
    let z4 = Yard::<V, F, O> { output: seq![ov, of], pending: none, open: 0 };
    assert(operators_on_top(z3.pending) == 0);
    assert(z3.pending.skip(2) =~= none);
    assert(z3.pending.take(2) =~= z3.pending);
    assert(z3.pending.drop_last() =~= seq![pf]);
    assert(z3.close().output =~= z4.output);
    assert(z3.close().pending =~= z4.pending);
    assert(scan(call, 4) == Ok::<Yard<V, F, O>, usize>(z4));
    assert(z4.output + drained::<V, F, O>(z4.pending) =~= seq![ov, of]);
}

/// Whether every function in `pending` lies directly below a parenthesis
/// marker.
spec fn guarded<F, O>(pending: Seq<StackToken<F, O>>) -> bool {
    forall|i: int|
        0 <= i < pending.len() && #[trigger] pending[i] is Function ==> i + 1 < pending.len()
            && pending[i + 1] is LeftParen
}

/// Whether the conversion `yard` is in step with a validation in `state`:
/// every marker on the stack stands for an open parenthesis, and every
/// function lies below the parenthesis around its arguments, but for one
/// whose name has just been read.
spec fn in_step<V, F, O>(yard: Yard<V, F, O>, state: State) -> bool {
    &&& markers(yard.pending) == yard.open
    &&& if state is FunctionArgsStart {
        &&& yard.pending.len() > 0
        &&& yard.pending.last() is Function
        &&& guarded(yard.pending.drop_last())
    } else {
        guarded(yard.pending)
    }
}

/// The lower part of a stack under operators is as well guarded as the
/// stack, and holds as many markers.
proof fn lemma_guarded_below_operators<V, F, O>(pending: Seq<StackToken<F, O>>, n: nat)
    requires
        n <= pending.len(),
        guarded(pending),
        forall|i: int| 0 <= i < pending.len() && pending.len() - n <= i ==> pending[i] is Operator,
    ensures
        guarded(pending.take(pending.len() - n)),
        markers(pending.take(pending.len() - n)) == markers(pending),
{
    let keep = pending.len() - n;
    let lower = pending.take(keep);
    lemma_split::<V, F, O>(pending, keep);
    lemma_no_marker_among_operators(pending, keep);
    assert forall|i: int| 0 <= i < lower.len() && #[trigger] lower[i] is Function implies i + 1
        < lower.len() && lower[i + 1] is LeftParen by {
        assert(pending[i] is Function);
        assert(pending[i + 1] is LeftParen);
    }
}

/// A token that the validation lets pass keeps the conversion in step,
/// and does not stop it.
proof fn lemma_accept_in_step<V, F, O: Operator>(
    yard: Yard<V, F, O>,
    state: State,
    nesting: Nesting,
    pos: usize,
    token: InputToken<V, F, O>,
)
    requires
        in_step(yard, state),
        yard.open == nesting.open,
        state.next(nesting, kind(token)) is Some,
    ensures
        yard.accept(pos, token) matches Ok(after) && ({
            let (then, nested) = state.next(nesting, kind(token))->0;
            in_step(after, then) && after.open == nested.open
        }),
{
    let after = yard.accept(pos, token)->Ok_0;
    let pending = yard.pending;
    match token {
        InputToken::Value(_) => {},
        InputToken::LeftParen => {
            assert(after.pending.drop_last() =~= pending);
            assert forall|i: int|
                0 <= i < after.pending.len() && #[trigger] after.pending[i] is Function implies i
                + 1 < after.pending.len() && after.pending[i + 1] is LeftParen by {
                if i + 1 < pending.len() {
                    assert(pending.drop_last()[i] == pending[i]);
                    assert(pending[i] is Function);
                }
            }
        },
        InputToken::Function(_) => {
            assert(after.pending.drop_last() =~= pending);
        },
        InputToken::ArgSeperator => {
            lemma_operators_on_top(pending);
            lemma_guarded_below_operators::<V, F, O>(pending, operators_on_top(pending));
        },
        InputToken::Operator(o) => {
            lemma_displaced(pending, o);
            lemma_guarded_below_operators::<V, F, O>(pending, displaced(pending, o));
            let lower = pending.take(pending.len() - displaced(pending, o));
            assert(after.pending.drop_last() =~= lower);
            assert forall|i: int|
                0 <= i < after.pending.len() && #[trigger] after.pending[i] is Function implies i
                + 1 < after.pending.len() && after.pending[i + 1] is LeftParen by {
                assert(lower[i] is Function);
            }
        },
        InputToken::RightParen => {
            lemma_operators_on_top(pending);
            lemma_guarded_below_operators::<V, F, O>(pending, operators_on_top(pending));
            let lower = pending.take(pending.len() - operators_on_top(pending));
            let rest = lower.drop_last();
            assert(markers(rest) + 1 == markers(lower));
            if rest.len() > 0 && rest.last() is Function {
                let base = rest.drop_last();
                assert forall|i: int|
                    0 <= i < base.len() && #[trigger] base[i] is Function implies i + 1
                    < base.len() && base[i + 1] is LeftParen by {
                    assert(lower[i] is Function);
                    assert(lower[i + 1] is LeftParen);
                }
            } else {
                assert forall|i: int|
                    0 <= i < rest.len() && #[trigger] rest[i] is Function implies i + 1
                    < rest.len() && rest[i + 1] is LeftParen by {
                    assert(lower[i] is Function);
                    assert(lower[i + 1] is LeftParen);
                }
            }
        },
    }
}

/// As far as the validation reads, the conversion follows in step.
proof fn lemma_scan_in_step<V, F, O: Operator>(tokens: Seq<InputToken<V, F, O>>, n: nat)
    requires
        n <= tokens.len(),
        read(kinds(tokens), n) is Ok,
    ensures
        scan(tokens, n) matches Ok(yard) && ({
            let (state, nesting) = read(kinds(tokens), n)->Ok_0;
            in_step(yard, state) && yard.open == nesting.open
        }),
    decreases n,
{
    if n > 0 {
        let before = (n - 1) as nat;
        lemma_scan_in_step(tokens, before);
        let (state, nesting) = read(kinds(tokens), before)->Ok_0;
        let yard = scan(tokens, before)->Ok_0;
        lemma_accept_in_step(yard, state, nesting, before as usize, tokens[n - 1]);
    }
}

/// What the validation lets pass, the conversion converts: a token
/// sequence that is valid has a postfix order. The reverse does not hold:
/// the conversion also takes a function without parentheses, which the
/// validation refuses.
pub proof fn lemma_valid_converts<V, F, O: Operator>(tokens: Seq<InputToken<V, F, O>>)
    requires
        outcome(kinds(tokens)) is Valid,
    ensures
        postfix(tokens) is Ok,
{
    lemma_scan_in_step(tokens, tokens.len());
    lemma_no_marker(scan(tokens, tokens.len())->Ok_0.pending);
}

/// The number of open parentheses that the validation counts is the
/// balance of the tokens it has read.
pub proof fn lemma_read_counts<V, F, O>(tokens: Seq<InputToken<V, F, O>>, n: nat)
    requires
        n <= tokens.len(),
    ensures
        read(kinds(tokens), n) matches Ok((_, nesting)) ==> nesting.open == balance(tokens, n),
    decreases n,
{
    if n > 0 {
        lemma_read_counts(tokens, (n - 1) as nat);
    }
}

/// The parentheses that the validation reports as open at the end are
/// those that the tokens open and do not close.
pub proof fn lemma_imbalance_is_balance<V, F, O>(tokens: Seq<InputToken<V, F, O>>)
    ensures
        outcome(kinds(tokens)) matches Outcome::ParenMissMatch { open } ==> open == balance(
            tokens,
            tokens.len(),
        ),
        outcome(kinds(tokens)) is Valid ==> balance(tokens, tokens.len()) == 0,
{
    lemma_read_counts(tokens, tokens.len());
}

} // verus!
