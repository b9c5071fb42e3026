//! Tells whether a token sequence is a well-formed expression.
//!
//! The validation reads the kinds of the tokens, never their values. It is a
//! machine of three states that also keeps count of the open parentheses,
//! once over all and once for each function whose arguments are being
//! read: [`State::next`] is one step of it, [`read`] runs a prefix of the
//! input through it, and [`outcome`] is what [`validate`] returns.

use vstd::prelude::*;
use vstd::std_specs::convert::FromSpecImpl;
use crate::InputToken;

verus! {

/// The kind of an input token.
#[derive(Debug, PartialEq, Eq, Hash, Clone, Copy)]
pub enum Token {
    /// A value.
    Value,
    /// A left parenthesis.
    LeftParen,
    /// A right parenthesis.
    RightParen,
    /// A function.
    Function,
    /// A separator between two arguments.
    ArgSeperator,
    /// An operator.
    Operator,
}

/// The kind of `token`.
pub open spec fn kind<V, F, O>(token: InputToken<V, F, O>) -> Token {
    match token {
        InputToken::Value(_) => Token::Value,
        InputToken::LeftParen => Token::LeftParen,
        InputToken::RightParen => Token::RightParen,
        InputToken::Function(_) => Token::Function,
        InputToken::ArgSeperator => Token::ArgSeperator,
        InputToken::Operator(_) => Token::Operator,
    }
}

/// The kinds of `tokens`, one for one.
pub open spec fn kinds<V, F, O>(tokens: Seq<InputToken<V, F, O>>) -> Seq<Token> {
    tokens.map_values(|token: InputToken<V, F, O>| kind(token))
}

impl<'a, V, F, O> From<&'a InputToken<V, F, O>> for Token {
    fn from(value: &'a InputToken<V, F, O>) -> (token: Self) {
        match value {
            InputToken::Value(_) => Self::Value,
            InputToken::LeftParen => Self::LeftParen,
            InputToken::RightParen => Self::RightParen,
            InputToken::Function(_) => Self::Function,
            InputToken::ArgSeperator => Self::ArgSeperator,
            InputToken::Operator(_) => Self::Operator,
        }
    }
}

impl<'a, V, F, O> FromSpecImpl<&'a InputToken<V, F, O>> for Token {
    open spec fn obeys_from_spec() -> bool {
        true
    }

    open spec fn from_spec(value: &'a InputToken<V, F, O>) -> Self {
        kind(*value)
    }
}

/// A token of a kind that may not stand where it stands.
#[derive(Debug, PartialEq, Eq, Hash, Clone)]
pub struct InvalidTokenError<'a, V, F, O> {
    /// The token.
    pub found: &'a InputToken<V, F, O>,
    /// The kinds of token that might have stood in its place.
    pub expected: &'static [Token],
    /// The position of the token in the input.
    pub pos: usize,
}

/// Why a token sequence is no expression.
#[derive(Debug, PartialEq, Eq, Hash, Clone)]
pub enum Error<'a, V, F, O> {
    /// The first token that may not stand where it stands.
    InvalidToken(InvalidTokenError<'a, V, F, O>),
    /// The number of parentheses that are still open at the end.
    ParenMissMatch(isize),
}

impl<'a, V, F, O> From<InvalidTokenError<'a, V, F, O>> for Error<'a, V, F, O> {
    fn from(value: InvalidTokenError<'a, V, F, O>) -> (error: Self) {
        Error::InvalidToken(value)
    }
}

impl<'a, V, F, O> FromSpecImpl<InvalidTokenError<'a, V, F, O>> for Error<'a, V, F, O> {
    open spec fn obeys_from_spec() -> bool {
        true
    }

    open spec fn from_spec(value: InvalidTokenError<'a, V, F, O>) -> Self {
        Error::InvalidToken(value)
    }
}

/// The open parentheses at some point of the input.
pub struct Nesting {
    /// How many parentheses are open.
    pub open: nat,
    /// For each function whose arguments are being read, the outermost
    /// first: how many parentheses have been opened since its name and are
    /// still open, the one around its arguments included.
    pub levels: Seq<nat>,
}

/// The sum of `levels`.
pub open spec fn depth(levels: Seq<nat>) -> nat
    decreases levels.len(),
{
    if levels.len() == 0 {
        0
    } else {
        levels.last() + depth(levels.drop_last())
    }
}

impl Nesting {
    /// Nothing is open.
    pub open spec fn start() -> Nesting {
        Nesting { open: 0, levels: Seq::empty() }
    }

    /// Every function counts at least the parenthesis around its
    /// arguments, and all of them together count no parenthesis that is
    /// not open.
    pub open spec fn well_formed(self) -> bool {
        &&& forall|i: int| 0 <= i < self.levels.len() ==> self.levels[i] >= 1
        &&& depth(self.levels) <= self.open
    }

    /// The parenthesis behind a function's name opens: the function counts
    /// it as its first.
    pub open spec fn enter_arguments(self) -> Nesting {
        Nesting { open: self.open + 1, levels: self.levels.push(1) }
    }

    /// Any other parenthesis opens: the innermost function counts it too.
    pub open spec fn open_paren(self) -> Nesting {
        Nesting {
            open: self.open + 1,
            levels: if self.levels.len() > 0 {
                self.levels.update(self.levels.len() - 1, self.levels.last() + 1)
            } else {
                self.levels
            },
        }
    }

    /// A parenthesis closes: the innermost function counts one less, and
    /// its arguments are read when that was its last.
    pub open spec fn close_paren(self) -> Nesting {
        Nesting {
            open: (self.open - 1) as nat,
            levels: if self.levels.len() == 0 {
                self.levels
            } else if self.levels.last() <= 1 {
                self.levels.drop_last()
            } else {
                self.levels.update(self.levels.len() - 1, (self.levels.last() - 1) as nat)
            },
        }
    }

    /// Whether an argument may end here: the arguments of a function are
    /// being read, and nothing but the parenthesis around them has been
    /// opened since.
    pub open spec fn at_argument_level(self) -> bool {
        self.levels.len() > 0 && self.levels.last() == 1
    }
}

/// What the validation expects next.
#[derive(Debug, PartialEq, Eq, Hash, Clone, Copy)]
pub enum State {
    /// An expression starts here.
    Expression,
    /// A value is complete.
    AfterValue,
    /// A function's name has been read.
    FunctionArgsStart,
}

impl State {
    /// The kinds of token that the state has a rule for.
    pub open spec fn expected(self) -> Seq<Token> {
        match self {
            State::Expression => seq![Token::Value, Token::LeftParen, Token::Function],
            State::AfterValue => seq![Token::Operator, Token::RightParen, Token::ArgSeperator],
            State::FunctionArgsStart => seq![Token::LeftParen],
        }
    }

    /// The state and the nesting behind a token of kind `token`, or `None`
    /// where the token may not stand here. A right parenthesis needs an open
    /// one, and a separator needs to stand at the argument level of a
    /// function.
    pub open spec fn next(self, nesting: Nesting, token: Token) -> Option<(State, Nesting)> {
        match (self, token) {
            (State::Expression, Token::Value) => Some((State::AfterValue, nesting)),
            (State::Expression, Token::LeftParen) => Some(
                (State::Expression, nesting.open_paren()),
            ),
            (State::Expression, Token::Function) => Some((State::FunctionArgsStart, nesting)),
            (State::AfterValue, Token::Operator) => Some((State::Expression, nesting)),
            (State::AfterValue, Token::RightParen) => if nesting.open > 0 {
                Some((State::AfterValue, nesting.close_paren()))
            } else {
                None
            },
            (State::AfterValue, Token::ArgSeperator) => if nesting.at_argument_level() {
                Some((State::Expression, nesting))
            } else {
                None
            },
            (State::FunctionArgsStart, Token::LeftParen) => Some(
                (State::Expression, nesting.enter_arguments()),
            ),
            _ => None,
        }
    }
}

/// The state and the nesting behind the first `n` tokens, or the position
/// of the first token among them that may not stand where it stands, with
/// the state that refused it.
pub open spec fn read(kinds: Seq<Token>, n: nat) -> Result<(State, Nesting), (nat, State)>
    decreases n,
{
    if n == 0 {
        Ok((State::Expression, Nesting::start()))
    } else {
        match read(kinds, (n - 1) as nat) {
            Ok((state, nesting)) => match state.next(nesting, kinds[n - 1]) {
                Some(after) => Ok(after),
                None => Err(((n - 1) as nat, state)),
            },
            Err(stopped) => Err(stopped),
        }
    }
}

/// What the validation finds.
pub enum Outcome {
    /// Every token may stand where it stands, and no parenthesis is left
    /// open.
    Valid,
    /// The token at `pos` is the first that may not stand where it stands;
    /// one of `expected` might.
    InvalidToken { pos: nat, expected: Seq<Token> },
    /// Every token may stand where it stands, but `open` parentheses are
    /// left open.
    ParenMissMatch { open: nat },
}

/// What the validation finds in a sequence of token kinds. The state at the end
/// of the input is not looked at.
pub open spec fn outcome(kinds: Seq<Token>) -> Outcome {
    match read(kinds, kinds.len()) {
        Err((pos, state)) => Outcome::InvalidToken { pos, expected: state.expected() },
        Ok((_, nesting)) => if nesting.open == 0 {
            Outcome::Valid
        } else {
            Outcome::ParenMissMatch { open: nesting.open }
        },
    }
}

/// A number of open parentheses as the error reports it: itself, as long
/// as the type can hold it.
pub open spec fn reported(open: nat) -> isize {
    if open <= isize::MAX {
        open as isize
    } else {
        isize::MAX
    }
}

/// Whether `result` is what the validation of `tokens` returns: `Ok` for
/// [`Outcome::Valid`], and else the error that says what the outcome says,
/// with the refused token itself.
pub open spec fn judged<V, F, O>(
    tokens: Seq<InputToken<V, F, O>>,
    result: Result<(), Error<'_, V, F, O>>,
) -> bool {
    match result {
        Ok(()) => outcome(kinds(tokens)) is Valid,
        Err(Error::InvalidToken(error)) => {
            &&& outcome(kinds(tokens)) == Outcome::InvalidToken {
                pos: error.pos as nat,
                expected: error.expected@,
            }
            &&& error.pos < tokens.len()
            &&& *error.found == tokens[error.pos as int]
        },
        Err(Error::ParenMissMatch(count)) => {
            &&& outcome(kinds(tokens)) is ParenMissMatch
            &&& count == reported(outcome(kinds(tokens))->open)
        },
    }
}

/// The counts of open parentheses that the validation keeps while it reads.
struct ValidationContext {
    paren_count: usize,
    function_local_paren_count: Vec<usize>,
}

impl View for ValidationContext {
    type V = Nesting;

    closed spec fn view(&self) -> Nesting {
        Nesting {
            open: self.paren_count as nat,
            levels: self.function_local_paren_count@.map_values(|count: usize| count as nat),
        }
    }
}

/// The innermost function counts no more parentheses than are open.
proof fn lemma_innermost_level_bound(nesting: Nesting)
    requires
        nesting.well_formed(),
        nesting.levels.len() > 0,
    ensures
        1 <= nesting.levels.last() <= nesting.open,
{
}

impl ValidationContext {
    fn new() -> (ctx: Self)
        ensures
            ctx@ == Nesting::start(),
    {
        let ctx = Self { paren_count: 0, function_local_paren_count: Vec::new() };
        assert(ctx@.levels =~= Seq::empty());
        ctx
    }

    fn enter_fn_args(&mut self)
        requires
            old(self)@.open < usize::MAX,
        ensures
            final(self)@ == old(self)@.enter_arguments(),
    {
        self.paren_count += 1;
        self.function_local_paren_count.push(1);
        assert(self@.levels =~= old(self)@.levels.push(1));
    }

    fn left_paren(&mut self)
        requires
            old(self)@.well_formed(),
            old(self)@.open < usize::MAX,
        ensures
            final(self)@ == old(self)@.open_paren(),
    {
        self.paren_count += 1;
        let levels: usize = self.function_local_paren_count.len();
        if levels > 0 {
            proof {
                lemma_innermost_level_bound(old(self)@);
            }
            let count: usize = self.function_local_paren_count[levels - 1];
            self.function_local_paren_count[levels - 1] = count + 1;
        }
        assert(self@.levels =~= old(self)@.open_paren().levels);
    }

    fn right_paren(&mut self)
        requires
            old(self)@.well_formed(),
            old(self)@.open > 0,
        ensures
            final(self)@ == old(self)@.close_paren(),
    {
        self.paren_count -= 1;
        let levels: usize = self.function_local_paren_count.len();
        if levels > 0 {
            proof {
                lemma_innermost_level_bound(old(self)@);
            }
            let count: usize = self.function_local_paren_count[levels - 1] - 1;
            if count == 0 {
                self.function_local_paren_count.pop();
            } else {
                self.function_local_paren_count[levels - 1] = count;
            }
        }
        assert(self@.levels =~= old(self)@.close_paren().levels);
    }

    fn allow_end_of_fn_arg(&self) -> (allowed: bool)
        ensures
            allowed == self@.at_argument_level(),
    {
        let levels: usize = self.function_local_paren_count.len();
        levels > 0 && self.function_local_paren_count[levels - 1] == 1
    }
}

/// Each step keeps the nesting well formed, and opens at most one
/// parenthesis.
pub proof fn lemma_next_well_formed(state: State, nesting: Nesting, token: Token)
    requires
        nesting.well_formed(),
        state.next(nesting, token) is Some,
    ensures
        state.next(nesting, token) matches Some((_, after)) && after.well_formed() && after.open
            <= nesting.open + 1,
{
    let levels = nesting.levels;
    if levels.len() > 0 {
        let last = levels.len() - 1;
        assert(levels.update(last, levels[last] + 1).drop_last() == levels.drop_last());
        assert(levels.update(last, (levels[last] - 1) as nat).drop_last() == levels.drop_last());
    }
    assert(levels.push(1).drop_last() == levels);
}

impl State {
    /// The kinds of token that the state has a rule for.
    fn expected_tokens(self) -> (expected: &'static [Token])
        ensures
            expected@ == self.expected(),
    {
        match self {
            State::Expression => &[Token::Value, Token::LeftParen, Token::Function],
            State::AfterValue => &[Token::Operator, Token::RightParen, Token::ArgSeperator],
            State::FunctionArgsStart => &[Token::LeftParen],
        }
    }

    /// Takes one token: the next state, with `ctx` brought up to date, or
    /// the kinds of token that the state expects, with `ctx` as it was.
    fn validate(self, token: Token, ctx: &mut ValidationContext) -> (result: Result<
        State,
        &'static [Token],
    >)
        requires
            old(ctx)@.well_formed(),
            old(ctx)@.open < usize::MAX,
        ensures
            match result {
                Ok(state) => self.next(old(ctx)@, token) == Some((state, final(ctx)@)),
                Err(expected) => {
                    &&& self.next(old(ctx)@, token) is None
                    &&& expected@ == self.expected()
                    &&& final(ctx)@ == old(ctx)@
                },
            },
    {
        match (self, token) {
            (State::Expression, Token::Value) => Ok(State::AfterValue),
            (State::Expression, Token::LeftParen) => {
                ctx.left_paren();
                Ok(State::Expression)
            },
            (State::Expression, Token::Function) => Ok(State::FunctionArgsStart),
            (State::AfterValue, Token::Operator) => Ok(State::Expression),
            (State::AfterValue, Token::RightParen) => {
                if ctx.paren_count > 0 {
                    ctx.right_paren();
                    Ok(State::AfterValue)
                } else {
                    Err(self.expected_tokens())
                }
            },
            (State::AfterValue, Token::ArgSeperator) => {
                if ctx.allow_end_of_fn_arg() {
                    Ok(State::Expression)
                } else {
                    Err(self.expected_tokens())
                }
            },
            (State::FunctionArgsStart, Token::LeftParen) => {
                ctx.enter_fn_args();
                Ok(State::Expression)
            },
            _ => Err(self.expected_tokens()),
        }
    }
}

/// Tells whether `tokens` is a well-formed expression.
///
/// The result is the [`outcome`] on the kinds of the tokens. The validation
/// stops at the first token that may not stand where it stands and reports
/// it with its position and with the kinds of token that its state
/// expects there; a right parenthesis that closes nothing and a
/// separator outside the argument level of a function are such tokens. When
/// every token has passed, parentheses that are still open are an error of
/// their number. The input is only read.
pub fn validate<'a, V, F, O>(tokens: &'a [InputToken<V, F, O>]) -> (result: Result<
    (),
    Error<'a, V, F, O>,
>)
    ensures
        judged(tokens@, result),
{
    let mut state = State::Expression;
    let mut ctx = ValidationContext::new();
    let mut pos: usize = 0;
    while pos < tokens.len()
        invariant
            pos <= tokens@.len(),
            ctx@.well_formed(),
            ctx@.open <= pos,
            read(kinds(tokens@), pos as nat) == Ok::<(State, Nesting), (nat, State)>(
                (state, ctx@),
            ),
        decreases tokens@.len() - pos,
    {
        let in_token = &tokens[pos];
        let token = Token::from(in_token);
        let ghost before = ctx@;
        match state.validate(token, &mut ctx) {
            Ok(next) => {
                proof {
                    lemma_next_well_formed(state, before, token);
                }
                state = next;
            },
            Err(expected) => {
                proof {
                    lemma_read_stays_stopped(
                        kinds(tokens@),
                        (pos + 1) as nat,
                        tokens@.len(),
                    );
                }
                return Err(Error::from(InvalidTokenError { found: in_token, expected, pos }));
            },
        }
        pos += 1;
    }
    if ctx.paren_count != 0 {
        let count: isize = if ctx.paren_count <= isize::MAX as usize {
            ctx.paren_count as isize
        } else {
            isize::MAX
        };
        return Err(Error::ParenMissMatch(count));
    }
    Ok(())
}

/// A validation that has stopped stays stopped, at the same token.
pub proof fn lemma_read_stays_stopped(kinds: Seq<Token>, n: nat, m: nat)
    requires
        n <= m,
        read(kinds, n) is Err,
    ensures
        read(kinds, m) == read(kinds, n),
    decreases m,
{
    if n < m {
        lemma_read_stays_stopped(kinds, n, (m - 1) as nat);
    }
}


/// Validating again changes nothing: two results for the same tokens are
/// both `Ok`, or both the same error, about the same token at the same
/// position with the same kinds expected, or about the same number of
/// parentheses.
pub proof fn lemma_validate_repeatable<V, F, O>(
    tokens: Seq<InputToken<V, F, O>>,
    first: Result<(), Error<'_, V, F, O>>,
    second: Result<(), Error<'_, V, F, O>>,
)
    requires
        judged(tokens, first),
        judged(tokens, second),
    ensures
        match (first, second) {
            (Ok(()), Ok(())) => true,
            (Err(Error::InvalidToken(a)), Err(Error::InvalidToken(b))) => {
                &&& a.pos == b.pos
                &&& *a.found == *b.found
                &&& a.expected@ == b.expected@
            },
            (Err(Error::ParenMissMatch(a)), Err(Error::ParenMissMatch(b))) => a == b,
            _ => false,
        },
{
}


} // verus!
