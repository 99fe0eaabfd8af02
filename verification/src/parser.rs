//! Single-pass character-level parser for the dialogue-script notation.
//!
//! The parser consumes each character of the source exactly once, together
//! with its absolute offset, and builds an [`Ast`] of zero-copy [`Slice`]
//! spans over the original text.  Its behaviour is specified by a pure
//! transition function over a mathematical parser state ([`eat_spec`]); the
//! executable parser is proved to compute exactly what the specification
//! machine computes.

use vstd::prelude::*;

verus! {

// ---------------------------------------------------------------------------
// Spans
// ---------------------------------------------------------------------------

/// A zero-copy reference into a source text: a character offset and a
/// character count.  A span never owns text; resolving it is a pure slice of
/// the original buffer.
#[derive(Debug, Clone, Copy, PartialEq, Eq)]
pub struct Slice(pub usize, pub usize);

impl Slice {
    /// Builds the span `(offset, length)`.
    pub fn new(ix: usize, length: usize) -> (r: Self)
        ensures
            r == Slice(ix, length),
    {
        Slice(ix, length)
    }

    /// The character offset at which the span starts.
    pub fn index(&self) -> (r: usize)
        ensures
            r == self.0,
    {
        self.0
    }

    /// The number of characters the span covers.
    pub fn len(&self) -> (r: usize)
        ensures
            r == self.1,
    {
        self.1
    }

    /// A fresh zero-length span starting at `ix`.
    fn started_at(ix: usize) -> (r: Self)
        ensures
            r == Slice(ix, 0),
    {
        Slice(ix, 0)
    }

    /// Extends the span by one character.
    fn push_ch(&mut self)
        requires
            old(self).1 < usize::MAX,
        ensures
            *final(self) == Slice(old(self).0, (old(self).1 + 1) as usize),
    {
        self.1 = self.1 + 1;
    }
}

// ---------------------------------------------------------------------------
// Document model
// ---------------------------------------------------------------------------

/// One condition or effect primitive.
#[derive(Debug, PartialEq)]
pub enum Block {
    /// A boolean fact reference; `inverted` negates its truth value.
    InfoPortion { key: Slice, inverted: bool },
    /// A named function invocation with positional arguments; `inverted`
    /// negates the boolean result when the call appears in a condition.
    Call { function: Slice, args: Vec<Slice>, inverted: bool },
    /// A percentage threshold whose span covers ASCII digits only.
    Chance { val: Slice },
}

/// An ordered conjunction of blocks guarding a statement.
#[derive(Debug, Default, PartialEq)]
pub struct Condition(Vec<Block>);

impl Condition {
    /// The blocks of the condition, in source order.
    pub fn blocks(&self) -> (r: &[Block])
        ensures
            view_blocks(r@) == self@,
    {
        self.0.as_slice()
    }
}

/// An ordered sequence of side-effecting blocks.
#[derive(Debug, Default, PartialEq)]
pub struct Effect(Vec<Block>);

impl Effect {
    /// The blocks of the effect sequence, in source order.
    pub fn blocks(&self) -> (r: &[Block])
        ensures
            view_blocks(r@) == self@,
    {
        self.0.as_slice()
    }
}

/// One comma-separated unit of the source.
#[derive(Debug, Default, PartialEq)]
pub struct Statement {
    condition: Option<Condition>,
    effects: Option<Effect>,
    out: Option<Slice>,
}

impl Statement {
    /// The condition, if one was written (possibly with zero blocks).
    pub fn conditions(&self) -> (r: Option<&Condition>)
        ensures
            match r {
                Some(c) => self@.condition matches Some(cv) && cv == c@,
                None => self@.condition is None,
            },
    {
        self.condition.as_ref()
    }

    /// The effect sequence, if one was written (possibly with zero blocks).
    pub fn effects(&self) -> (r: Option<&Effect>)
        ensures
            match r {
                Some(e) => self@.effects matches Some(ev) && ev == e@,
                None => self@.effects is None,
            },
    {
        self.effects.as_ref()
    }

    /// The output span, if any output characters were seen.
    pub fn val(&self) -> (r: Option<&Slice>)
        ensures
            match r {
                Some(s) => self@.out matches Some(s0) && s0 == *s,
                None => self@.out is None,
            },
    {
        self.out.as_ref()
    }
}

/// The complete parsed representation of one source text.  Borrows the
/// source for the lifetime of every span it contains.
#[derive(Debug, PartialEq)]
pub struct Ast<'a> {
    orig: &'a str,
    statements: Vec<Statement>,
}

// ---------------------------------------------------------------------------
// Errors
// ---------------------------------------------------------------------------

/// The structural failure classes of a parse.
#[derive(Debug, Clone, Copy, PartialEq, Eq)]
pub enum ParseErrorKind {
    /// A condition group opened while another group is open.
    NestedGroup,
    /// `}` with no open condition group.
    UnmatchedClose,
    /// `%` used to close while a condition group, not an effect, is open.
    EffectCloseOnCondition,
    /// A block-start character while a block is already pending.
    BlockAlreadyOpen,
    /// A block completed outside any open group.
    BlockWithoutContext,
    /// A non-digit character inside a probability block.
    InvalidDigit,
    /// `(` inside an already-opened argument list.
    CallAlreadyOpened,
    /// Any character after the argument list was closed.
    CallAlreadyClosed,
}

/// A parse failure: its kind, the offset at which it was detected, and the
/// offending character (`None` when detected at the end of the input).
#[derive(Debug, Clone, Copy, PartialEq, Eq)]
pub struct ParseError {
    pub kind: ParseErrorKind,
    pub offset: usize,
    pub found: Option<char>,
}

// ---------------------------------------------------------------------------
// Mathematical model of the document
// ---------------------------------------------------------------------------

/// Model of one block: spans as written, arguments as a sequence.
#[verifier::ext_equal]
pub enum BlockV {
    InfoPortion { key: Slice, inverted: bool },
    Call { function: Slice, args: Seq<Slice>, inverted: bool },
    Chance { val: Slice },
}

/// Model of one statement.
#[verifier::ext_equal]
pub struct StatementV {
    pub condition: Option<Seq<BlockV>>,
    pub effects: Option<Seq<BlockV>>,
    pub out: Option<Slice>,
}

/// Model of a parsed document: the source characters and the statements.
#[verifier::ext_equal]
pub struct AstV {
    pub src: Seq<char>,
    pub statements: Seq<StatementV>,
}

impl View for Block {
    type V = BlockV;

    open spec fn view(&self) -> BlockV {
        match self {
            Block::InfoPortion { key, inverted } => BlockV::InfoPortion {
                key: *key,
                inverted: *inverted,
            },
            Block::Call { function, args, inverted } => BlockV::Call {
                function: *function,
                args: args@,
                inverted: *inverted,
            },
            Block::Chance { val } => BlockV::Chance { val: *val },
        }
    }
}

/// The models of a sequence of parsed blocks.
pub open spec fn view_blocks(s: Seq<Block>) -> Seq<BlockV> {
    s.map_values(|b: Block| b@)
}

/// `view_blocks` distributes over `push`.
pub proof fn lemma_view_blocks_push(s: Seq<Block>, b: Block)
    ensures
        view_blocks(s.push(b)) == view_blocks(s).push(b@),
{
    assert(view_blocks(s.push(b)) =~= view_blocks(s).push(b@));
}

impl View for Condition {
    type V = Seq<BlockV>;

    closed spec fn view(&self) -> Seq<BlockV> {
        view_blocks(self.0@)
    }
}

impl View for Effect {
    type V = Seq<BlockV>;

    closed spec fn view(&self) -> Seq<BlockV> {
        view_blocks(self.0@)
    }
}

impl View for Statement {
    type V = StatementV;

    closed spec fn view(&self) -> StatementV {
        StatementV {
            condition: match self.condition {
                Some(c) => Some(c@),
                None => None,
            },
            effects: match self.effects {
                Some(e) => Some(e@),
                None => None,
            },
            out: self.out,
        }
    }
}

/// The models of a sequence of parsed statements.
pub open spec fn view_stmts(s: Seq<Statement>) -> Seq<StatementV> {
    s.map_values(|st: Statement| st@)
}

/// `view_stmts` distributes over `push`.
pub proof fn lemma_view_stmts_push(s: Seq<Statement>, st: Statement)
    ensures
        view_stmts(s.push(st)) == view_stmts(s).push(st@),
{
    assert(view_stmts(s.push(st)) =~= view_stmts(s).push(st@));
}

impl<'a> View for Ast<'a> {
    type V = AstV;

    closed spec fn view(&self) -> AstV {
        AstV { src: self.orig@, statements: view_stmts(self.statements@) }
    }
}

// ---------------------------------------------------------------------------
// The specification state machine
// ---------------------------------------------------------------------------

/// Progress through a call's parenthesized argument list.
#[derive(Debug, Clone, Copy, PartialEq)]
pub enum CallState {
    NoArgOpened,
    ArgOpened(Slice),
    ArgsClosed,
}

/// The group currently being accumulated: a condition or an effect sequence.
#[verifier::ext_equal]
pub enum GroupV {
    Cond(Seq<BlockV>),
    Eff(Seq<BlockV>),
}

/// The whole parser state between two characters.
#[verifier::ext_equal]
pub struct ParserV {
    pub src: Seq<char>,
    pub statements: Seq<StatementV>,
    pub statement: StatementV,
    pub current: Option<GroupV>,
    pub block: Option<BlockV>,
    pub call: CallState,
}

/// An ASCII decimal digit.
pub open spec fn is_digit_char(c: char) -> bool {
    48 <= c as u32 && c as u32 <= 57
}

/// The offset one past `i`, as stored in a span.
pub open spec fn succ(i: usize) -> usize {
    (i + 1) as usize
}

/// The span extended by one character.
pub open spec fn slice_ext(s: Slice) -> Slice {
    Slice(s.0, succ(s.1))
}

pub open spec fn mk_err(kind: ParseErrorKind, offset: usize, found: Option<char>) -> ParseError {
    ParseError { kind, offset, found }
}

/// A statement with nothing in it yet.
pub open spec fn empty_stmt() -> StatementV {
    StatementV { condition: None, effects: None, out: None }
}

/// The parser state before any character of `src` is consumed.
pub open spec fn init_state(src: Seq<char>) -> ParserV {
    ParserV {
        src,
        statements: Seq::empty(),
        statement: empty_stmt(),
        current: None,
        block: None,
        call: CallState::NoArgOpened,
    }
}

/// Appends freshly closed condition blocks to the statement, keeping any
/// blocks committed by an earlier group of the same statement.
pub open spec fn stmt_add_condition(st: StatementV, blocks: Seq<BlockV>) -> StatementV {
    StatementV {
        condition: match st.condition {
            None => Some(blocks),
            Some(prev) => Some(prev + blocks),
        },
        ..st
    }
}

/// Appends freshly closed effect blocks to the statement.
pub open spec fn stmt_add_effect(st: StatementV, blocks: Seq<BlockV>) -> StatementV {
    StatementV {
        effects: match st.effects {
            None => Some(blocks),
            Some(prev) => Some(prev + blocks),
        },
        ..st
    }
}

/// Starts the output span at `ix`, or extends it by one character.
pub open spec fn stmt_extend_out(st: StatementV, ix: usize) -> StatementV {
    StatementV {
        out: match st.out {
            None => Some(Slice(ix, 1)),
            Some(s) => Some(slice_ext(s)),
        },
        ..st
    }
}

/// Commit rule: a pending block is appended to the open group; with no open
/// group the parse fails with `BlockWithoutContext`.
pub open spec fn commit_block_spec(st: ParserV, offset: usize, found: Option<char>) -> Result<
    ParserV,
    ParseError,
> {
    match st.block {
        None => Ok(st),
        Some(b) => match st.current {
            None => Err(mk_err(ParseErrorKind::BlockWithoutContext, offset, found)),
            Some(GroupV::Cond(blocks)) => Ok(
                ParserV {
                    current: Some(GroupV::Cond(blocks.push(b))),
                    block: None,
                    call: CallState::NoArgOpened,
                    ..st
                },
            ),
            Some(GroupV::Eff(blocks)) => Ok(
                ParserV {
                    current: Some(GroupV::Eff(blocks.push(b))),
                    block: None,
                    call: CallState::NoArgOpened,
                    ..st
                },
            ),
        },
    }
}

/// Statement separator rule: commit the pending block, move the statement
/// into the document, and clear all in-progress state.
pub open spec fn next_statement_spec(st: ParserV, offset: usize, found: Option<char>) -> Result<
    ParserV,
    ParseError,
> {
    match commit_block_spec(st, offset, found) {
        Err(e) => Err(e),
        Ok(st1) => Ok(
            ParserV {
                statements: st1.statements.push(st1.statement),
                statement: empty_stmt(),
                current: None,
                block: None,
                call: CallState::NoArgOpened,
                ..st1
            },
        ),
    }
}

/// Opening a new block fails if one is already pending.
pub open spec fn start_block_spec(
    st: ParserV,
    b: BlockV,
    reset_call: bool,
    ch: char,
    ix: usize,
) -> Result<ParserV, ParseError> {
    if st.block is Some {
        Err(mk_err(ParseErrorKind::BlockAlreadyOpen, ix, Some(ch)))
    } else {
        Ok(
            ParserV {
                block: Some(b),
                call: if reset_call {
                    CallState::NoArgOpened
                } else {
                    st.call
                },
                ..st
            },
        )
    }
}

/// Character-accumulation rule for the pending block.
pub open spec fn block_push_spec(b: BlockV, call: CallState, ch: char, ix: usize) -> Result<
    (BlockV, CallState),
    ParseError,
> {
    match b {
        BlockV::InfoPortion { key, inverted } => Ok(
            (BlockV::InfoPortion { key: slice_ext(key), inverted }, call),
        ),
        BlockV::Chance { val } => if is_digit_char(ch) {
            Ok((BlockV::Chance { val: slice_ext(val) }, call))
        } else {
            Err(mk_err(ParseErrorKind::InvalidDigit, ix, Some(ch)))
        },
        BlockV::Call { function, args, inverted } => match call {
            CallState::NoArgOpened => if ch == '(' {
                Ok(
                    (
                        BlockV::Call { function, args, inverted },
                        CallState::ArgOpened(Slice(succ(ix), 0)),
                    ),
                )
            } else {
                Ok(
                    (
                        BlockV::Call { function: slice_ext(function), args, inverted },
                        CallState::NoArgOpened,
                    ),
                )
            },
            CallState::ArgOpened(sp) => if ch == '(' {
                Err(mk_err(ParseErrorKind::CallAlreadyOpened, ix, Some(ch)))
            } else if ch == ':' {
                Ok(
                    (
                        BlockV::Call { function, args: args.push(sp), inverted },
                        CallState::ArgOpened(Slice(succ(ix), 0)),
                    ),
                )
            } else if ch == ')' {
                Ok(
                    (BlockV::Call { function, args: args.push(sp), inverted }, CallState::ArgsClosed),
                )
            } else {
                Ok(
                    (BlockV::Call { function, args, inverted }, CallState::ArgOpened(slice_ext(sp))),
                )
            },
            CallState::ArgsClosed => Err(mk_err(ParseErrorKind::CallAlreadyClosed, ix, Some(ch))),
        },
    }
}

/// The transition function: one character, with its absolute offset.
pub open spec fn eat_spec(st: ParserV, ch: char, ix: usize) -> Result<ParserV, ParseError> {
    if ch == '{' {
        if st.current is Some {
            Err(mk_err(ParseErrorKind::NestedGroup, ix, Some(ch)))
        } else {
            Ok(ParserV { current: Some(GroupV::Cond(Seq::empty())), ..st })
        }
    } else if ch == '}' {
        match commit_block_spec(st, ix, Some(ch)) {
            Err(e) => Err(e),
            Ok(st1) => match st1.current {
                Some(GroupV::Cond(blocks)) => Ok(
                    ParserV {
                        current: None,
                        statement: stmt_add_condition(st1.statement, blocks),
                        ..st1
                    },
                ),
                _ => Err(mk_err(ParseErrorKind::UnmatchedClose, ix, Some(ch))),
            },
        }
    } else if ch == ',' {
        next_statement_spec(st, ix, Some(ch))
    } else if ch == ' ' || ch == '\t' {
        commit_block_spec(st, ix, Some(ch))
    } else if ch == '+' {
        start_block_spec(
            st,
            BlockV::InfoPortion { key: Slice(succ(ix), 0), inverted: false },
            false,
            ch,
            ix,
        )
    } else if ch == '-' {
        start_block_spec(
            st,
            BlockV::InfoPortion { key: Slice(succ(ix), 0), inverted: true },
            false,
            ch,
            ix,
        )
    } else if ch == '~' {
        start_block_spec(st, BlockV::Chance { val: Slice(succ(ix), 0) }, false, ch, ix)
    } else if ch == '=' {
        start_block_spec(
            st,
            BlockV::Call { function: Slice(succ(ix), 0), args: Seq::empty(), inverted: false },
            true,
            ch,
            ix,
        )
    } else if ch == '!' {
        start_block_spec(
            st,
            BlockV::Call { function: Slice(succ(ix), 0), args: Seq::empty(), inverted: true },
            true,
            ch,
            ix,
        )
    } else if ch == '%' {
        match commit_block_spec(st, ix, Some(ch)) {
            Err(e) => Err(e),
            Ok(st1) => match st1.current {
                Some(GroupV::Cond(_)) => Err(
                    mk_err(ParseErrorKind::EffectCloseOnCondition, ix, Some(ch)),
                ),
                Some(GroupV::Eff(blocks)) => Ok(
                    ParserV {
                        current: None,
                        statement: stmt_add_effect(st1.statement, blocks),
                        ..st1
                    },
                ),
                None => Ok(ParserV { current: Some(GroupV::Eff(Seq::empty())), ..st1 }),
            },
        }
    } else {
        match st.block {
            None => Ok(ParserV { statement: stmt_extend_out(st.statement, ix), ..st }),
            Some(b) => match block_push_spec(b, st.call, ch, ix) {
                Ok((b2, c2)) => Ok(ParserV { block: Some(b2), call: c2, ..st }),
                Err(e) => Err(e),
            },
        }
    }
}

/// Runs the machine from state `st` over the characters of `s` from index
/// `i` on, stopping at the first error.
pub open spec fn run_from(st: ParserV, s: Seq<char>, i: int) -> Result<ParserV, ParseError>
    decreases s.len() - i,
{
    if i < 0 || i >= s.len() {
        Ok(st)
    } else {
        match eat_spec(st, s[i], i as usize) {
            Ok(st2) => run_from(st2, s, i + 1),
            Err(e) => Err(e),
        }
    }
}

/// Finalization: after the last character the current statement is committed
/// as if a separator followed, so the last statement is never dropped.
pub open spec fn finish_spec(st: ParserV) -> Result<AstV, ParseError> {
    match next_statement_spec(st, st.src.len() as usize, None) {
        Err(e) => Err(e),
        Ok(st1) => Ok(AstV { src: st1.src, statements: st1.statements }),
    }
}

/// What a whole parse returns: the fold of `eat_spec` over every character,
/// then finalization.
pub open spec fn parse_spec(s: Seq<char>) -> Result<AstV, ParseError> {
    match run_from(init_state(s), s, 0) {
        Ok(st) => finish_spec(st),
        Err(e) => Err(e),
    }
}

// ---------------------------------------------------------------------------
// Parse-state invariant: span bounds and digit content
// ---------------------------------------------------------------------------

/// The span lies within the first `n` characters of the source.
pub open spec fn slice_bounded(sl: Slice, n: nat) -> bool {
    sl.0 + sl.1 <= n
}

/// Every span of the block lies within the first `n` characters.
pub open spec fn block_bounded(b: BlockV, n: nat) -> bool {
    match b {
        BlockV::InfoPortion { key, .. } => slice_bounded(key, n),
        BlockV::Chance { val } => slice_bounded(val, n),
        BlockV::Call { function, args, .. } => slice_bounded(function, n) && forall|i: int|
            0 <= i < args.len() ==> slice_bounded(#[trigger] args[i], n),
    }
}

pub open spec fn blocks_bounded(s: Seq<BlockV>, n: nat) -> bool {
    forall|i: int| 0 <= i < s.len() ==> block_bounded(#[trigger] s[i], n)
}

pub open spec fn opt_blocks_bounded(o: Option<Seq<BlockV>>, n: nat) -> bool {
    match o {
        Some(s) => blocks_bounded(s, n),
        None => true,
    }
}

pub open spec fn stmt_bounded(st: StatementV, n: nat) -> bool {
    &&& opt_blocks_bounded(st.condition, n)
    &&& opt_blocks_bounded(st.effects, n)
    &&& match st.out {
        Some(sl) => slice_bounded(sl, n),
        None => true,
    }
}

pub open spec fn stmts_bounded(s: Seq<StatementV>, n: nat) -> bool {
    forall|i: int| 0 <= i < s.len() ==> stmt_bounded(#[trigger] s[i], n)
}

pub open spec fn group_bounded(g: GroupV, n: nat) -> bool {
    match g {
        GroupV::Cond(s) => blocks_bounded(s, n),
        GroupV::Eff(s) => blocks_bounded(s, n),
    }
}

pub open spec fn call_bounded(c: CallState, n: nat) -> bool {
    match c {
        CallState::ArgOpened(sp) => slice_bounded(sp, n),
        _ => true,
    }
}

/// Every span anywhere in the parser state lies within the first `n`
/// consumed characters.
pub open spec fn state_bounded(st: ParserV, n: nat) -> bool {
    &&& stmts_bounded(st.statements, n)
    &&& stmt_bounded(st.statement, n)
    &&& match st.current {
        Some(g) => group_bounded(g, n),
        None => true,
    }
    &&& match st.block {
        Some(b) => block_bounded(b, n),
        None => true,
    }
    &&& call_bounded(st.call, n)
}

/// All characters the span covers are ASCII digits.
pub open spec fn digits_in(src: Seq<char>, sl: Slice) -> bool {
    forall|j: int| sl.0 <= j < sl.0 + sl.1 ==> is_digit_char(#[trigger] src[j])
}

/// A structural character: one the dispatch table gives a meaning of its
/// own, so that it can never be accumulated into a key, name or argument.
pub open spec fn is_structural_char(c: char) -> bool {
    c == '{' || c == '}' || c == ',' || c == ' ' || c == '\t' || c == '+' || c == '-' || c == '~'
        || c == '=' || c == '!' || c == '%'
}

/// A toggle key covers no structural character.
pub open spec fn key_chars_ok(src: Seq<char>, sl: Slice) -> bool {
    forall|j: int| sl.0 <= j < sl.0 + sl.1 ==> !is_structural_char(#[trigger] src[j])
}

/// A call name covers no structural character and no `(`.
pub open spec fn name_chars_ok(src: Seq<char>, sl: Slice) -> bool {
    forall|j: int|
        sl.0 <= j < sl.0 + sl.1 ==> !is_structural_char(#[trigger] src[j]) && src[j] != '('
}

/// A call argument covers no structural character and none of `(`, `:`, `)`.
pub open spec fn arg_chars_ok(src: Seq<char>, sl: Slice) -> bool {
    forall|j: int|
        sl.0 <= j < sl.0 + sl.1 ==> !is_structural_char(#[trigger] src[j]) && src[j] != '('
            && src[j] != ':' && src[j] != ')'
}

/// What the accumulation rules guarantee of the spans of one block: digits
/// in a probability value, and no structural characters elsewhere.
pub open spec fn block_content(b: BlockV, src: Seq<char>) -> bool {
    match b {
        BlockV::Chance { val } => digits_in(src, val),
        BlockV::InfoPortion { key, .. } => key_chars_ok(src, key),
        BlockV::Call { function, args, .. } => name_chars_ok(src, function) && forall|i: int|
            0 <= i < args.len() ==> arg_chars_ok(src, #[trigger] args[i]),
    }
}

pub open spec fn blocks_content(s: Seq<BlockV>, src: Seq<char>) -> bool {
    forall|i: int| 0 <= i < s.len() ==> block_content(#[trigger] s[i], src)
}

pub open spec fn opt_blocks_content(o: Option<Seq<BlockV>>, src: Seq<char>) -> bool {
    match o {
        Some(s) => blocks_content(s, src),
        None => true,
    }
}

pub open spec fn stmt_content(st: StatementV, src: Seq<char>) -> bool {
    opt_blocks_content(st.condition, src) && opt_blocks_content(st.effects, src)
}

pub open spec fn stmts_content(s: Seq<StatementV>, src: Seq<char>) -> bool {
    forall|i: int| 0 <= i < s.len() ==> stmt_content(#[trigger] s[i], src)
}

/// Every span anywhere in the parser state has the content its
/// accumulation rule guarantees.
pub open spec fn state_content(st: ParserV) -> bool {
    &&& stmts_content(st.statements, st.src)
    &&& stmt_content(st.statement, st.src)
    &&& match st.current {
        Some(GroupV::Cond(s)) => blocks_content(s, st.src),
        Some(GroupV::Eff(s)) => blocks_content(s, st.src),
        None => true,
    }
    &&& match st.block {
        Some(b) => block_content(b, st.src),
        None => true,
    }
    &&& match st.call {
        CallState::ArgOpened(sp) => arg_chars_ok(st.src, sp),
        _ => true,
    }
}

/// The span the next accumulated character would extend ends exactly at the
/// `n`th consumed character, so it grows contiguously.
pub open spec fn active_exact(st: ParserV, n: nat) -> bool {
    match st.block {
        Some(BlockV::Chance { val }) => val.0 + val.1 == n,
        Some(BlockV::InfoPortion { key, .. }) => key.0 + key.1 == n,
        Some(BlockV::Call { function, .. }) => match st.call {
            CallState::NoArgOpened => function.0 + function.1 == n,
            CallState::ArgOpened(sp) => sp.0 + sp.1 == n,
            CallState::ArgsClosed => true,
        },
        None => true,
    }
}

/// The invariant the machine maintains after consuming `n` characters.
pub open spec fn state_inv(st: ParserV, n: nat) -> bool {
    &&& state_bounded(st, n)
    &&& state_content(st)
    &&& active_exact(st, n)
}

proof fn lemma_block_bounded_mono(b: BlockV, n: nat, m: nat)
    requires
        block_bounded(b, n),
        n <= m,
    ensures
        block_bounded(b, m),
{
}

proof fn lemma_blocks_bounded_mono(s: Seq<BlockV>, n: nat, m: nat)
    requires
        blocks_bounded(s, n),
        n <= m,
    ensures
        blocks_bounded(s, m),
{
    assert forall|i: int| 0 <= i < s.len() implies block_bounded(#[trigger] s[i], m) by {
        lemma_block_bounded_mono(s[i], n, m);
    }
}

proof fn lemma_stmt_bounded_mono(st: StatementV, n: nat, m: nat)
    requires
        stmt_bounded(st, n),
        n <= m,
    ensures
        stmt_bounded(st, m),
{
    match st.condition {
        Some(s) => lemma_blocks_bounded_mono(s, n, m),
        None => (),
    }
    match st.effects {
        Some(s) => lemma_blocks_bounded_mono(s, n, m),
        None => (),
    }
}

proof fn lemma_state_bounded_mono(st: ParserV, n: nat, m: nat)
    requires
        state_bounded(st, n),
        n <= m,
    ensures
        state_bounded(st, m),
{
    assert forall|i: int| 0 <= i < st.statements.len() implies stmt_bounded(
        #[trigger] st.statements[i],
        m,
    ) by {
        lemma_stmt_bounded_mono(st.statements[i], n, m);
    }
    lemma_stmt_bounded_mono(st.statement, n, m);
    match st.current {
        Some(GroupV::Cond(s)) => lemma_blocks_bounded_mono(s, n, m),
        Some(GroupV::Eff(s)) => lemma_blocks_bounded_mono(s, n, m),
        None => (),
    }
    match st.block {
        Some(b) => lemma_block_bounded_mono(b, n, m),
        None => (),
    }
}

proof fn lemma_blocks_bounded_push(s: Seq<BlockV>, b: BlockV, n: nat)
    requires
        blocks_bounded(s, n),
        block_bounded(b, n),
    ensures
        blocks_bounded(s.push(b), n),
{
    assert forall|i: int| 0 <= i < s.push(b).len() implies block_bounded(
        #[trigger] s.push(b)[i],
        n,
    ) by {
        if i < s.len() {
            assert(s.push(b)[i] == s[i]);
        } else {
            assert(s.push(b)[i] == b);
        }
    }
}

proof fn lemma_blocks_bounded_add(a: Seq<BlockV>, b: Seq<BlockV>, n: nat)
    requires
        blocks_bounded(a, n),
        blocks_bounded(b, n),
    ensures
        blocks_bounded(a + b, n),
{
    assert forall|i: int| 0 <= i < (a + b).len() implies block_bounded(#[trigger] (a + b)[i], n) by {
        if i < a.len() {
            assert((a + b)[i] == a[i]);
        } else {
            assert((a + b)[i] == b[i - a.len()]);
        }
    }
}

proof fn lemma_blocks_content_push(s: Seq<BlockV>, b: BlockV, src: Seq<char>)
    requires
        blocks_content(s, src),
        block_content(b, src),
    ensures
        blocks_content(s.push(b), src),
{
    assert forall|i: int| 0 <= i < s.push(b).len() implies block_content(
        #[trigger] s.push(b)[i],
        src,
    ) by {
        if i < s.len() {
            assert(s.push(b)[i] == s[i]);
        } else {
            assert(s.push(b)[i] == b);
        }
    }
}

proof fn lemma_blocks_content_add(a: Seq<BlockV>, b: Seq<BlockV>, src: Seq<char>)
    requires
        blocks_content(a, src),
        blocks_content(b, src),
    ensures
        blocks_content(a + b, src),
{
    assert forall|i: int| 0 <= i < (a + b).len() implies block_content(
        #[trigger] (a + b)[i],
        src,
    ) by {
        if i < a.len() {
            assert((a + b)[i] == a[i]);
        } else {
            assert((a + b)[i] == b[i - a.len()]);
        }
    }
}

proof fn lemma_stmts_bounded_push(s: Seq<StatementV>, st: StatementV, n: nat)
    requires
        stmts_bounded(s, n),
        stmt_bounded(st, n),
    ensures
        stmts_bounded(s.push(st), n),
{
    assert forall|i: int| 0 <= i < s.push(st).len() implies stmt_bounded(
        #[trigger] s.push(st)[i],
        n,
    ) by {
        if i < s.len() {
            assert(s.push(st)[i] == s[i]);
        } else {
            assert(s.push(st)[i] == st);
        }
    }
}

proof fn lemma_stmts_content_push(s: Seq<StatementV>, st: StatementV, src: Seq<char>)
    requires
        stmts_content(s, src),
        stmt_content(st, src),
    ensures
        stmts_content(s.push(st), src),
{
    assert forall|i: int| 0 <= i < s.push(st).len() implies stmt_content(
        #[trigger] s.push(st)[i],
        src,
    ) by {
        if i < s.len() {
            assert(s.push(st)[i] == s[i]);
        } else {
            assert(s.push(st)[i] == st);
        }
    }
}

/// The commit rule neither extends nor invents spans.
proof fn lemma_commit_inv(st: ParserV, n: nat, offset: usize, found: Option<char>, st1: ParserV)
    requires
        state_bounded(st, n),
        state_content(st),
        commit_block_spec(st, offset, found) == Ok::<ParserV, ParseError>(st1),
    ensures
        state_bounded(st1, n),
        state_content(st1),
        st1.block is None,
        st1.src == st.src,
        st1.statements == st.statements,
        st1.statement == st.statement,
{
    match st.block {
        None => (),
        Some(b) => match st.current {
            None => (),
            Some(GroupV::Cond(blocks)) => {
                lemma_blocks_bounded_push(blocks, b, n);
                lemma_blocks_content_push(blocks, b, st.src);
            },
            Some(GroupV::Eff(blocks)) => {
                lemma_blocks_bounded_push(blocks, b, n);
                lemma_blocks_content_push(blocks, b, st.src);
            },
        },
    }
}

/// One accepted character preserves the span bounds.
pub proof fn lemma_eat_preserves_bounded(st: ParserV, ch: char, ix: usize, st2: ParserV)
    requires
        state_bounded(st, ix as nat),
        ix < usize::MAX,
        eat_spec(st, ch, ix) == Ok::<ParserV, ParseError>(st2),
    ensures
        state_bounded(st2, (ix + 1) as nat),
        st2.src == st.src,
        st2.statements.len() >= st.statements.len(),
{
    let n: nat = ix as nat;
    let m: nat = (ix + 1) as nat;
    lemma_state_bounded_mono(st, n, m);
    if ch == '{' {
    } else if ch == '}' {
        let st1 = commit_block_bounded(st, m, ix, Some(ch));
        match st1.current {
            Some(GroupV::Cond(blocks)) => {
                match st.statement.condition {
                    Some(prev) => lemma_blocks_bounded_add(prev, blocks, m),
                    None => (),
                }
            },
            _ => (),
        }
    } else if ch == ',' {
        let st1 = commit_block_bounded(st, m, ix, Some(ch));
        lemma_stmts_bounded_push(st1.statements, st1.statement, m);
    } else if ch == ' ' || ch == '\t' {
        let st1 = commit_block_bounded(st, m, ix, Some(ch));
    } else if ch == '+' || ch == '-' || ch == '~' || ch == '=' || ch == '!' {
    } else if ch == '%' {
        let st1 = commit_block_bounded(st, m, ix, Some(ch));
        match st1.current {
            Some(GroupV::Eff(blocks)) => {
                match st.statement.effects {
                    Some(prev) => lemma_blocks_bounded_add(prev, blocks, m),
                    None => (),
                }
            },
            _ => (),
        }
    } else {
        match st.block {
            None => (),
            Some(b) => match b {
                BlockV::Call { function, args, inverted } => {
                    match st.call {
                        CallState::ArgOpened(sp) => {
                            if ch == ':' || ch == ')' {
                                assert forall|i: int|
                                    0 <= i < args.push(sp).len() implies slice_bounded(
                                    #[trigger] args.push(sp)[i],
                                    m,
                                ) by {
                                    if i < args.len() {
                                        assert(args.push(sp)[i] == args[i]);
                                    } else {
                                        assert(args.push(sp)[i] == sp);
                                    }
                                }
                            }
                        },
                        _ => (),
                    }
                },
                _ => (),
            },
        }
    }
}

/// Bounds part of the commit rule, packaged for reuse.
proof fn commit_block_bounded(st: ParserV, n: nat, offset: usize, found: Option<char>) -> (st1:
    ParserV)
    requires
        state_bounded(st, n),
        commit_block_spec(st, offset, found) is Ok,
    ensures
        commit_block_spec(st, offset, found) == Ok::<ParserV, ParseError>(st1),
        state_bounded(st1, n),
        st1.block is None,
        st1.src == st.src,
        st1.statements == st.statements,
        st1.statement == st.statement,
{
    match st.block {
        None => (),
        Some(b) => match st.current {
            None => (),
            Some(GroupV::Cond(blocks)) => lemma_blocks_bounded_push(blocks, b, n),
            Some(GroupV::Eff(blocks)) => lemma_blocks_bounded_push(blocks, b, n),
        },
    }
    commit_block_spec(st, offset, found)->Ok_0
}

/// One accepted character preserves the full invariant, provided no
/// condition group opens while a block is pending (the one transition that
/// lets a probability span swallow a structural character).
pub proof fn lemma_eat_preserves_inv(st: ParserV, ch: char, ix: usize, st2: ParserV)
    requires
        state_inv(st, ix as nat),
        ix < st.src.len(),
        ix < usize::MAX,
        ch == st.src[ix as int],
        ch == '{' ==> st.block is None,
        eat_spec(st, ch, ix) == Ok::<ParserV, ParseError>(st2),
    ensures
        state_inv(st2, (ix + 1) as nat),
        st2.src == st.src,
{
    let n: nat = ix as nat;
    let m: nat = (ix + 1) as nat;
    lemma_state_bounded_mono(st, n, m);
    if ch == '{' {
    } else if ch == '}' {
        let st1 = commit_block_spec(st, ix, Some(ch))->Ok_0;
        lemma_commit_inv(st, m, ix, Some(ch), st1);
        match st1.current {
            Some(GroupV::Cond(blocks)) => {
                match st.statement.condition {
                    Some(prev) => {
                        lemma_blocks_bounded_add(prev, blocks, m);
                        lemma_blocks_content_add(prev, blocks, st.src);
                    },
                    None => (),
                }
            },
            _ => (),
        }
    } else if ch == ',' {
        let st1 = commit_block_spec(st, ix, Some(ch))->Ok_0;
        lemma_commit_inv(st, m, ix, Some(ch), st1);
        lemma_stmts_bounded_push(st1.statements, st1.statement, m);
        lemma_stmts_content_push(st1.statements, st1.statement, st.src);
    } else if ch == ' ' || ch == '\t' {
        let st1 = commit_block_spec(st, ix, Some(ch))->Ok_0;
        lemma_commit_inv(st, m, ix, Some(ch), st1);
    } else if ch == '+' || ch == '-' || ch == '~' || ch == '=' || ch == '!' {
    } else if ch == '%' {
        let st1 = commit_block_spec(st, ix, Some(ch))->Ok_0;
        lemma_commit_inv(st, m, ix, Some(ch), st1);
        match st1.current {
            Some(GroupV::Eff(blocks)) => {
                match st.statement.effects {
                    Some(prev) => {
                        lemma_blocks_bounded_add(prev, blocks, m);
                        lemma_blocks_content_add(prev, blocks, st.src);
                    },
                    None => (),
                }
            },
            _ => (),
        }
    } else {
        match st.block {
            None => (),
            Some(b) => match b {
                BlockV::InfoPortion { .. } => (),
                BlockV::Chance { val } => {
                    let val2 = slice_ext(val);
                    assert forall|j: int| val2.0 <= j < val2.0 + val2.1 implies is_digit_char(
                        #[trigger] st.src[j],
                    ) by {
                        if j < val.0 + val.1 {
                        } else {
                            assert(j == ix as int);
                        }
                    }
                },
                BlockV::Call { function, args, inverted } => {
                    match st.call {
                        CallState::ArgOpened(sp) => {
                            if ch == ':' || ch == ')' {
                                assert forall|i: int|
                                    0 <= i < args.push(sp).len() implies slice_bounded(
                                    #[trigger] args.push(sp)[i],
                                    m,
                                ) by {
                                    if i < args.len() {
                                        assert(args.push(sp)[i] == args[i]);
                                    } else {
                                        assert(args.push(sp)[i] == sp);
                                    }
                                }
                            }
                        },
                        _ => (),
                    }
                },
            },
        }
    }
}

// ---------------------------------------------------------------------------
// Laws: what a successful parse guarantees about its spans
// ---------------------------------------------------------------------------

/// A well-formed document: the source fits machine limits and every span of
/// every statement lies within it.
pub open spec fn ast_wf(a: AstV) -> bool {
    a.src.len() <= usize::MAX && stmts_bounded(a.statements, a.src.len())
}

/// Every probability span of the document covers ASCII digits only, and no
/// toggle key, call name or call argument span covers a structural
/// character.
pub open spec fn ast_content(a: AstV) -> bool {
    stmts_content(a.statements, a.src)
}

/// No condition group opens while a block is pending, anywhere in the run
/// starting at state `st` and index `i`.  (When one does, the pending
/// probability span swallows the position of the `{` and its digit guarantee
/// is lost.)
pub open spec fn run_clean(st: ParserV, s: Seq<char>, i: int) -> bool
    decreases s.len() - i,
{
    if i < 0 || i >= s.len() {
        true
    } else {
        &&& (s[i] == '{' ==> st.block is None)
        &&& match eat_spec(st, s[i], i as usize) {
            Ok(st2) => run_clean(st2, s, i + 1),
            Err(_) => true,
        }
    }
}

proof fn lemma_run_bounded(st: ParserV, s: Seq<char>, i: int, stf: ParserV)
    requires
        0 <= i <= s.len(),
        s.len() <= usize::MAX,
        state_bounded(st, i as nat),
        run_from(st, s, i) == Ok::<ParserV, ParseError>(stf),
        st.src == s,
    ensures
        state_bounded(stf, s.len()),
        stf.src == s,
    decreases s.len() - i,
{
    if i < s.len() {
        let st2 = eat_spec(st, s[i], i as usize)->Ok_0;
        lemma_eat_preserves_bounded(st, s[i], i as usize, st2);
        lemma_run_bounded(st2, s, i + 1, stf);
    }
}

proof fn lemma_run_inv(st: ParserV, s: Seq<char>, i: int, stf: ParserV)
    requires
        0 <= i <= s.len(),
        s.len() <= usize::MAX,
        state_inv(st, i as nat),
        run_clean(st, s, i),
        run_from(st, s, i) == Ok::<ParserV, ParseError>(stf),
        st.src == s,
    ensures
        state_inv(stf, s.len()),
        stf.src == s,
    decreases s.len() - i,
{
    if i < s.len() {
        let st2 = eat_spec(st, s[i], i as usize)->Ok_0;
        lemma_eat_preserves_inv(st, s[i], i as usize, st2);
        lemma_run_inv(st2, s, i + 1, stf);
    }
}

/// Every span of a successfully parsed document lies within the bounds of
/// its source text.
pub proof fn lemma_parse_spans_in_bounds(s: Seq<char>)
    requires
        s.len() <= usize::MAX,
        parse_spec(s) is Ok,
    ensures
        ast_wf(parse_spec(s)->Ok_0),
        parse_spec(s)->Ok_0.src == s,
{
    let st0 = init_state(s);
    let stf = run_from(st0, s, 0)->Ok_0;
    lemma_run_bounded(st0, s, 0, stf);
    let st1 = commit_block_bounded(stf, s.len(), s.len() as usize, None);
    lemma_stmts_bounded_push(st1.statements, st1.statement, s.len());
}

/// In a run where no condition group ever opens while a block is pending,
/// every probability span of a successful parse covers ASCII digits only.
pub proof fn lemma_parse_span_contents(s: Seq<char>)
    requires
        s.len() <= usize::MAX,
        parse_spec(s) is Ok,
        run_clean(init_state(s), s, 0),
    ensures
        ast_content(parse_spec(s)->Ok_0),
{
    let st0 = init_state(s);
    let stf = run_from(st0, s, 0)->Ok_0;
    lemma_run_inv(st0, s, 0, stf);
    let st1 = commit_block_spec(stf, s.len() as usize, None)->Ok_0;
    lemma_commit_inv(stf, s.len(), s.len() as usize, None, st1);
    lemma_stmts_content_push(st1.statements, st1.statement, s);
}

// ---------------------------------------------------------------------------
// The executable parser
// ---------------------------------------------------------------------------

/// The group under construction.
#[derive(Debug)]
enum CondOrEffect {
    Cond(Condition),
    Effect(Effect),
}

impl CondOrEffect {
    spec fn gview(&self) -> GroupV {
        match self {
            CondOrEffect::Cond(c) => GroupV::Cond(c@),
            CondOrEffect::Effect(e) => GroupV::Eff(e@),
        }
    }

    fn add_block(&mut self, block: Block)
        ensures
            final(self).gview() == match old(self).gview() {
                GroupV::Cond(s) => GroupV::Cond(s.push(block@)),
                GroupV::Eff(s) => GroupV::Eff(s.push(block@)),
            },
    {
        let ghost b = block@;
        match self {
            CondOrEffect::Cond(x) => {
                proof {
                    lemma_view_blocks_push(x.0@, block);
                }
                x.0.push(block);
            },
            CondOrEffect::Effect(x) => {
                proof {
                    lemma_view_blocks_push(x.0@, block);
                }
                x.0.push(block);
            },
        }
    }
}

impl Block {
    /// Accumulates one character into the pending block, as
    /// [`block_push_spec`] describes.
    fn push_ch(&mut self, ch: char, state: &mut CallState, ix: usize) -> (r: Result<
        (),
        ParseError,
    >)
        requires
            ix < usize::MAX,
            block_bounded(old(self)@, ix as nat),
            call_bounded(*old(state), ix as nat),
        ensures
            match r {
                Ok(()) => block_push_spec(old(self)@, *old(state), ch, ix) == Ok::<
                    _,
                    ParseError,
                >((final(self)@, *final(state))),
                Err(e) => block_push_spec(old(self)@, *old(state), ch, ix) == Err::<
                    (BlockV, CallState),
                    _,
                >(e),
            },
    {
        match self {
            Block::InfoPortion { key, .. } => {
                key.push_ch();
            },
            Block::Chance { val } => {
                let u = ch as u32;
                if !(48 <= u && u <= 57) {
                    return Err(
                        ParseError {
                            kind: ParseErrorKind::InvalidDigit,
                            offset: ix,
                            found: Some(ch),
                        },
                    );
                }
                val.push_ch();
            },
            Block::Call { function, args, inverted: _ } => {
                let st = *state;
                match st {
                    CallState::NoArgOpened => {
                        if ch == '(' {
                            *state = CallState::ArgOpened(Slice::started_at(ix + 1));
                        } else {
                            function.push_ch();
                            *state = CallState::NoArgOpened;
                        }
                    },
                    CallState::ArgOpened(sp) => {
                        if ch == '(' {
                            return Err(
                                ParseError {
                                    kind: ParseErrorKind::CallAlreadyOpened,
                                    offset: ix,
                                    found: Some(ch),
                                },
                            );
                        } else if ch == ':' {
                            args.push(sp);
                            *state = CallState::ArgOpened(Slice::started_at(ix + 1));
                        } else if ch == ')' {
                            args.push(sp);
                            *state = CallState::ArgsClosed;
                        } else {
                            let mut x = sp;
                            x.push_ch();
                            *state = CallState::ArgOpened(x);
                        }
                    },
                    CallState::ArgsClosed => {
                        return Err(
                            ParseError {
                                kind: ParseErrorKind::CallAlreadyClosed,
                                offset: ix,
                                found: Some(ch),
                            },
                        );
                    },
                }
            },
        }
        Ok(())
    }
}

impl Statement {
    /// Appends freshly closed condition blocks, as [`stmt_add_condition`]
    /// describes.
    fn add_condition(&mut self, blocks: Vec<Block>)
        ensures
            final(self)@ == stmt_add_condition(old(self)@, view_blocks(blocks@)),
    {
        let ghost bs = blocks@;
        match &mut self.condition {
            Some(c) => {
                let ghost prev = c.0@;
                let mut blocks = blocks;
                c.0.append(&mut blocks);
                proof {
                    lemma_view_blocks_add(prev, bs);
                }
            },
            None => {
                self.condition = Some(Condition(blocks));
            },
        }
    }

    /// Appends freshly closed effect blocks, as [`stmt_add_effect`]
    /// describes.
    fn add_effect(&mut self, blocks: Vec<Block>)
        ensures
            final(self)@ == stmt_add_effect(old(self)@, view_blocks(blocks@)),
    {
        let ghost bs = blocks@;
        match &mut self.effects {
            Some(e) => {
                let ghost prev = e.0@;
                let mut blocks = blocks;
                e.0.append(&mut blocks);
                proof {
                    lemma_view_blocks_add(prev, bs);
                }
            },
            None => {
                self.effects = Some(Effect(blocks));
            },
        }
    }
}

/// `view_blocks` distributes over concatenation.
pub proof fn lemma_view_blocks_add(a: Seq<Block>, b: Seq<Block>)
    ensures
        view_blocks(a + b) == view_blocks(a) + view_blocks(b),
{
    assert(view_blocks(a + b) =~= view_blocks(a) + view_blocks(b));
}

/// The parser: the document built so far plus all in-progress state.
struct Parser<'a> {
    ast: Ast<'a>,
    statement: Statement,
    current: Option<CondOrEffect>,
    current_block: Option<Block>,
    state: CallState,
}

impl<'a> Parser<'a> {
    /// The mathematical state this parser is in.
    spec fn pview(&self) -> ParserV {
        ParserV {
            src: self.ast.orig@,
            statements: view_stmts(self.ast.statements@),
            statement: self.statement@,
            current: match self.current {
                None => None,
                Some(CondOrEffect::Cond(c)) => Some(GroupV::Cond(c@)),
                Some(CondOrEffect::Effect(e)) => Some(GroupV::Eff(e@)),
            },
            block: match self.current_block {
                None => None,
                Some(b) => Some(b@),
            },
            call: self.state,
        }
    }

    fn new(src: &'a str) -> (r: Self)
        ensures
            r.pview() == init_state(src@),
    {
        let r = Parser {
            ast: Ast::empty(src),
            statement: Statement { condition: None, effects: None, out: None },
            current: None,
            current_block: None,
            state: CallState::NoArgOpened,
        };
        proof {
            assert(r.pview() =~~= init_state(src@));
        }
        r
    }

    /// Commit rule: moves the pending block, if any, into the open group.
    fn next_block(&mut self, ix: usize, found: Option<char>) -> (r: Result<(), ParseError>)
        ensures
            match r {
                Ok(()) => commit_block_spec(old(self).pview(), ix, found) == Ok::<
                    _,
                    ParseError,
                >(final(self).pview()),
                Err(e) => commit_block_spec(old(self).pview(), ix, found) == Err::<ParserV, _>(e),
            },
    {
        if self.current_block.is_none() {
            return Ok(());
        }
        match &mut self.current {
            None => Err(
                ParseError { kind: ParseErrorKind::BlockWithoutContext, offset: ix, found },
            ),
            Some(x) => {
                let b = self.current_block.take().unwrap();
                x.add_block(b);
                self.state = CallState::NoArgOpened;
                Ok(())
            },
        }
    }

    /// Statement separator: commits the block, finalizes the statement into
    /// the document, and clears all in-progress state.
    fn next_statement(&mut self, ix: usize, found: Option<char>) -> (r: Result<(), ParseError>)
        ensures
            match r {
                Ok(()) => next_statement_spec(old(self).pview(), ix, found) == Ok::<
                    _,
                    ParseError,
                >(final(self).pview()),
                Err(e) => next_statement_spec(old(self).pview(), ix, found) == Err::<
                    ParserV,
                    _,
                >(e),
            },
    {
        match self.next_block(ix, found) {
            Err(e) => Err(e),
            Ok(()) => {
                let stmt = Statement {
                    condition: self.statement.condition.take(),
                    effects: self.statement.effects.take(),
                    out: self.statement.out.take(),
                };
                proof {
                    lemma_view_stmts_push(self.ast.statements@, stmt);
                }
                self.ast.statements.push(stmt);
                self.current = None;
                self.state = CallState::NoArgOpened;
                Ok(())
            },
        }
    }

    /// The transition function on one character, as [`eat_spec`] describes.
    fn eat(&mut self, ch: char, ix: usize) -> (r: Result<(), ParseError>)
        requires
            ix < usize::MAX,
            state_bounded(old(self).pview(), ix as nat),
        ensures
            match r {
                Ok(()) => eat_spec(old(self).pview(), ch, ix) == Ok::<_, ParseError>(
                    final(self).pview(),
                ),
                Err(e) => eat_spec(old(self).pview(), ch, ix) == Err::<ParserV, _>(e),
            },
    {
        if ch == '{' {
            if self.current.is_some() {
                return Err(
                    ParseError { kind: ParseErrorKind::NestedGroup, offset: ix, found: Some(ch) },
                );
            }
            self.current = Some(CondOrEffect::Cond(Condition(Vec::new())));
            proof {
                assert(view_blocks(Seq::<Block>::empty()) =~= Seq::<BlockV>::empty());
            }
            Ok(())
        } else if ch == '}' {
            match self.next_block(ix, Some(ch)) {
                Err(e) => Err(e),
                Ok(()) => match self.current.take() {
                    Some(CondOrEffect::Cond(Condition(v))) => {
                        self.statement.add_condition(v);
                        Ok(())
                    },
                    _ => Err(
                        ParseError {
                            kind: ParseErrorKind::UnmatchedClose,
                            offset: ix,
                            found: Some(ch),
                        },
                    ),
                },
            }
        } else if ch == ',' {
            self.next_statement(ix, Some(ch))
        } else if ch == ' ' || ch == '\t' {
            self.next_block(ix, Some(ch))
        } else if ch == '+' || ch == '-' {
            if self.current_block.is_some() {
                return Err(
                    ParseError {
                        kind: ParseErrorKind::BlockAlreadyOpen,
                        offset: ix,
                        found: Some(ch),
                    },
                );
            }
            self.current_block = Some(
                Block::InfoPortion { key: Slice::started_at(ix + 1), inverted: ch == '-' },
            );
            Ok(())
        } else if ch == '~' {
            if self.current_block.is_some() {
                return Err(
                    ParseError {
                        kind: ParseErrorKind::BlockAlreadyOpen,
                        offset: ix,
                        found: Some(ch),
                    },
                );
            }
            self.current_block = Some(Block::Chance { val: Slice::started_at(ix + 1) });
            Ok(())
        } else if ch == '=' || ch == '!' {
            if self.current_block.is_some() {
                return Err(
                    ParseError {
                        kind: ParseErrorKind::BlockAlreadyOpen,
                        offset: ix,
                        found: Some(ch),
                    },
                );
            }
            self.state = CallState::NoArgOpened;
            self.current_block = Some(
                Block::Call {
                    function: Slice::started_at(ix + 1),
                    args: Vec::new(),
                    inverted: ch == '!',
                },
            );
            Ok(())
        } else if ch == '%' {
            match self.next_block(ix, Some(ch)) {
                Err(e) => Err(e),
                Ok(()) => match self.current.take() {
                    Some(CondOrEffect::Cond(_)) => Err(
                        ParseError {
                            kind: ParseErrorKind::EffectCloseOnCondition,
                            offset: ix,
                            found: Some(ch),
                        },
                    ),
                    Some(CondOrEffect::Effect(Effect(v))) => {
                        self.statement.add_effect(v);
                        Ok(())
                    },
                    None => {
                        self.current = Some(CondOrEffect::Effect(Effect(Vec::new())));
                        proof {
                            assert(view_blocks(Seq::<Block>::empty()) =~= Seq::<BlockV>::empty());
                        }
                        Ok(())
                    },
                },
            }
        } else {
            match &mut self.current_block {
                None => {
                    match &mut self.statement.out {
                        None => {
                            self.statement.out = Some(Slice::new(ix, 1));
                        },
                        Some(sl) => {
                            sl.push_ch();
                        },
                    }
                    Ok(())
                },
                Some(b) => b.push_ch(ch, &mut self.state, ix),
            }
        }
    }

    /// Finalization: the last statement is committed as if a separator
    /// followed the final character.
    fn finish(self) -> (r: Result<Ast<'a>, ParseError>)
        ensures
            match r {
                Ok(ast) => finish_spec(self.pview()) == Ok::<AstV, ParseError>(ast@),
                Err(e) => finish_spec(self.pview()) == Err::<AstV, ParseError>(e),
            },
    {
        let mut this = self;
        let len = this.ast.orig.unicode_len();
        match this.next_statement(len, None) {
            Err(e) => Err(e),
            Ok(()) => Ok(this.ast),
        }
    }
}

impl<'a> Ast<'a> {
    /// Parses `src`, consuming every character exactly once, in order.
    ///
    /// Returns exactly what the specification machine [`parse_spec`] returns
    /// on the characters of `src`: the parsed document on success, and on
    /// failure the first error, with its kind, offset and offending
    /// character.
    pub fn from(src: &'a str) -> (r: Result<Self, ParseError>)
        ensures
            match r {
                Ok(ast) => parse_spec(src@) == Ok::<AstV, ParseError>(ast@),
                Err(e) => parse_spec(src@) == Err::<AstV, ParseError>(e),
            },
    {
        let len = src.unicode_len();
        let mut parser = Parser::new(src);
        let mut i: usize = 0;
        while i < len
            invariant
                i <= len,
                len as nat == src@.len(),
                parser.pview().src == src@,
                state_bounded(parser.pview(), i as nat),
                run_from(init_state(src@), src@, 0) == run_from(parser.pview(), src@, i as int),
            decreases len - i,
        {
            let c = src.get_char(i);
            let ghost prev = parser.pview();
            match parser.eat(c, i) {
                Ok(()) => {
                    proof {
                        lemma_eat_preserves_bounded(prev, c, i, parser.pview());
                    }
                },
                Err(e) => {
                    return Err(e);
                },
            }
            i = i + 1;
        }
        parser.finish()
    }

    fn empty(src: &'a str) -> (r: Self)
        ensures
            r@ == (AstV { src: src@, statements: Seq::empty() }),
    {
        let r = Ast { orig: src, statements: Vec::new() };
        proof {
            assert(view_stmts(Seq::<Statement>::empty()) =~= Seq::<StatementV>::empty());
        }
        r
    }

    /// The parsed statements, in source order.
    pub fn statements(&self) -> (r: &[Statement])
        ensures
            view_stmts(r@) == self@.statements,
    {
        self.statements.as_slice()
    }

    /// Resolves a span against the original source text.
    pub fn slice_as_str(&self, slice: &Slice) -> (r: &str)
        requires
            slice.0 + slice.1 <= self@.src.len(),
            self@.src.len() <= usize::MAX,
        ensures
            r@ == self@.src.subrange(slice.0 as int, slice.0 + slice.1),
    {
        self.orig.substring_char(slice.0, slice.0 + slice.1)
    }
}


} // verus!
