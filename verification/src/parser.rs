//! The pull-parser: turns the lexer's token stream into a flat stream of
//! structural parse events, enforcing the syntax rules as it goes.  A stack
//! of parse contexts records which nested construct the parser is inside;
//! each context that separates entries with commas carries a flag saying
//! whether a comma (or the opening delimiter) has been seen since the last
//! entry.  The parser yields one event or one terminal error per call.

use vstd::prelude::*;
use crate::position::Position;
use crate::lexer::{Lexer, LexToken, LexError, TokenV, LexItemV};

verus! {

/// A scalar value as the parser reports it.  Floats keep their spelling.
#[derive(Debug)]
pub enum ParsedValue {
    Str(String),
    Int(i64),
    Float(String),
    Bool(bool),
    Ident(String),
    Null,
}

/// The mathematical shape of a parsed scalar value.
pub enum PvV {
    Str(Seq<char>),
    Int(i64),
    Float(Seq<char>),
    Bool(bool),
    Ident(Seq<char>),
    Null,
}

impl View for ParsedValue {
    type V = PvV;

    open spec fn view(&self) -> PvV {
        match self {
            ParsedValue::Str(s) => PvV::Str(s@),
            ParsedValue::Int(n) => PvV::Int(*n),
            ParsedValue::Float(s) => PvV::Float(s@),
            ParsedValue::Bool(b) => PvV::Bool(*b),
            ParsedValue::Ident(s) => PvV::Ident(s@),
            ParsedValue::Null => PvV::Null,
        }
    }
}

impl PartialEq for ParsedValue {
    /// Parsed values are equal when they are the same kind and carry the
    /// same content.
    fn eq(&self, other: &ParsedValue) -> (r: bool) {
        match (self, other) {
            (ParsedValue::Str(a), ParsedValue::Str(b)) => *a == *b,
            (ParsedValue::Int(a), ParsedValue::Int(b)) => *a == *b,
            (ParsedValue::Float(a), ParsedValue::Float(b)) => *a == *b,
            (ParsedValue::Bool(a), ParsedValue::Bool(b)) => *a == *b,
            (ParsedValue::Ident(a), ParsedValue::Ident(b)) => *a == *b,
            (ParsedValue::Null, ParsedValue::Null) => true,
            _ => false,
        }
    }
}

impl vstd::std_specs::cmp::PartialEqSpecImpl for ParsedValue {
    open spec fn obeys_eq_spec() -> bool {
        true
    }

    open spec fn eq_spec(&self, other: &ParsedValue) -> bool {
        self@ == other@
    }
}

/// One structural parse event.
#[derive(Debug)]
pub enum ParseEvent {
    FileStart,
    FileEnd,
    NodeStart(String),
    NodeEnd,
    Key(String),
    Value(ParsedValue),
    ListStart,
    ListEnd,
    DictStart,
    DictEnd,
}

/// The mathematical shape of a parse event.
pub enum EventV {
    FileStart,
    FileEnd,
    NodeStart(Seq<char>),
    NodeEnd,
    Key(Seq<char>),
    Value(PvV),
    ListStart,
    ListEnd,
    DictStart,
    DictEnd,
}

impl View for ParseEvent {
    type V = EventV;

    open spec fn view(&self) -> EventV {
        match self {
            ParseEvent::FileStart => EventV::FileStart,
            ParseEvent::FileEnd => EventV::FileEnd,
            ParseEvent::NodeStart(s) => EventV::NodeStart(s@),
            ParseEvent::NodeEnd => EventV::NodeEnd,
            ParseEvent::Key(s) => EventV::Key(s@),
            ParseEvent::Value(v) => EventV::Value(v@),
            ParseEvent::ListStart => EventV::ListStart,
            ParseEvent::ListEnd => EventV::ListEnd,
            ParseEvent::DictStart => EventV::DictStart,
            ParseEvent::DictEnd => EventV::DictEnd,
        }
    }
}

impl PartialEq for ParseEvent {
    /// Events are equal when they are the same kind and carry the same name
    /// or value.
    fn eq(&self, other: &ParseEvent) -> (r: bool) {
        match (self, other) {
            (ParseEvent::FileStart, ParseEvent::FileStart) => true,
            (ParseEvent::FileEnd, ParseEvent::FileEnd) => true,
            (ParseEvent::NodeStart(a), ParseEvent::NodeStart(b)) => *a == *b,
            (ParseEvent::NodeEnd, ParseEvent::NodeEnd) => true,
            (ParseEvent::Key(a), ParseEvent::Key(b)) => *a == *b,
            (ParseEvent::Value(a), ParseEvent::Value(b)) => *a == *b,
            (ParseEvent::ListStart, ParseEvent::ListStart) => true,
            (ParseEvent::ListEnd, ParseEvent::ListEnd) => true,
            (ParseEvent::DictStart, ParseEvent::DictStart) => true,
            (ParseEvent::DictEnd, ParseEvent::DictEnd) => true,
            _ => false,
        }
    }
}

impl vstd::std_specs::cmp::PartialEqSpecImpl for ParseEvent {
    open spec fn obeys_eq_spec() -> bool {
        true
    }

    open spec fn eq_spec(&self, other: &ParseEvent) -> bool {
        self@ == other@
    }
}

/// The ways parsing can fail: a lexical error passed through, input that
/// ends too soon, a token that does not fit the grammar, or a node name
/// repeated within one scope.
#[derive(Debug)]
pub enum ParseError {
    LexError(LexError),
    UnexpectedEndOfFile,
    UnexpectedToken(LexToken),
    RepeatedNode(String),
}

/// The mathematical shape of a parse error.
pub enum PErrV {
    LexError(LexError),
    UnexpectedEndOfFile,
    UnexpectedToken(TokenV),
    RepeatedNode(Seq<char>),
}

impl View for ParseError {
    type V = PErrV;

    open spec fn view(&self) -> PErrV {
        match self {
            ParseError::LexError(e) => PErrV::LexError(*e),
            ParseError::UnexpectedEndOfFile => PErrV::UnexpectedEndOfFile,
            ParseError::UnexpectedToken(t) => PErrV::UnexpectedToken(t@),
            ParseError::RepeatedNode(s) => PErrV::RepeatedNode(s@),
        }
    }
}

impl PartialEq for ParseError {
    /// Parse errors are equal when they are the same kind with the same
    /// content.
    fn eq(&self, other: &ParseError) -> (r: bool) {
        match (self, other) {
            (ParseError::LexError(a), ParseError::LexError(b)) => *a == *b,
            (ParseError::UnexpectedEndOfFile, ParseError::UnexpectedEndOfFile) => true,
            (ParseError::UnexpectedToken(a), ParseError::UnexpectedToken(b)) => *a == *b,
            (ParseError::RepeatedNode(a), ParseError::RepeatedNode(b)) => *a == *b,
            _ => false,
        }
    }
}

impl vstd::std_specs::cmp::PartialEqSpecImpl for ParseError {
    open spec fn obeys_eq_spec() -> bool {
        true
    }

    open spec fn eq_spec(&self, other: &ParseError) -> bool {
        self@ == other@
    }
}

/// Which nested construct the parser is inside.  The flag on `Node`, `List`
/// and `Dict` says whether a comma or the opening delimiter has been seen
/// since the last entry.
#[derive(Debug, PartialEq, Eq, Structural, Clone, Copy)]
pub enum ParseContext {
    Basefile,
    Node(bool),
    Value,
    List(bool),
    Dict(bool),
}

/// One event or error with its position.
pub type ParseResult = Result<(ParseEvent, Position), (ParseError, Position)>;

// ---------------------------------------------------------------------------
// The parser's step function, as a mathematical model.
// ---------------------------------------------------------------------------
/// Whether a comma or opening delimiter is pending in the innermost context.
pub open spec fn spec_has_comma(stack: Seq<ParseContext>) -> bool {
    if stack.len() == 0 {
        false
    } else {
        match stack.last() {
            ParseContext::Node(b) => b,
            ParseContext::List(b) => b,
            ParseContext::Dict(b) => b,
            _ => false,
        }
    }
}

/// Set the comma flag of the innermost context that carries one.
pub open spec fn spec_set_comma(stack: Seq<ParseContext>, b: bool) -> Seq<ParseContext> {
    if stack.len() == 0 {
        stack
    } else {
        match stack.last() {
            ParseContext::Node(_) => stack.update(stack.len() - 1, ParseContext::Node(b)),
            ParseContext::List(_) => stack.update(stack.len() - 1, ParseContext::List(b)),
            ParseContext::Dict(_) => stack.update(stack.len() - 1, ParseContext::Dict(b)),
            _ => stack,
        }
    }
}

/// What one parser step produces: an event or a terminal error with its
/// position, the lexer position after the step, how many tokens were
/// consumed, the new context stack, and whether the parser is finished.
pub struct PStep {
    pub out: Result<(EventV, Position), (PErrV, Position)>,
    pub lexpos: Position,
    pub used: int,
    pub stack: Seq<ParseContext>,
    pub ended: bool,
}

/// The lexer position after consuming `used` tokens of `items`: the end of
/// the last one, or `eofp` when the input was exhausted instead.
pub open spec fn lexpos_after(items: Seq<LexItemV>, used: int, eofp: Position, cur: Position) -> Position {
    if used >= 1 {
        items[used - 1].endpos
    } else if items.len() == 0 {
        eofp
    } else {
        cur
    }
}

/// The index just after the run of string-literal tokens starting at `j`.
pub open spec fn concat_run(items: Seq<LexItemV>, j: int) -> int
    decreases items.len() - j,
{
    if 0 <= j < items.len() && items[j].res is Ok && items[j].res->Ok_0 is StringLit {
        concat_run(items, j + 1)
    } else {
        j
    }
}

/// The concatenated text of the string-literal tokens between `j` and `k`.
pub open spec fn concat_texts(items: Seq<LexItemV>, j: int, k: int) -> Seq<char>
    decreases k - j,
{
    if j < k {
        items[j].res->Ok_0->StringLit_0 + concat_texts(items, j + 1, k)
    } else {
        Seq::<char>::empty()
    }
}

pub proof fn lemma_concat_run_bounds(items: Seq<LexItemV>, j: int)
    requires
        0 <= j <= items.len(),
    ensures
        j <= concat_run(items, j) <= items.len(),
    decreases items.len() - j,
{
    if j < items.len() && items[j].res is Ok && items[j].res->Ok_0 is StringLit {
        lemma_concat_run_bounds(items, j + 1);
    }
}

/// After yielding a value, a directly following comma is consumed and sets
/// the enclosing context's comma flag.
pub open spec fn after_value(
    stack: Seq<ParseContext>,
    items: Seq<LexItemV>,
    j: int,
) -> (Seq<ParseContext>, int) {
    if j < items.len() && items[j].res is Ok && items[j].res->Ok_0 is Comma {
        (spec_set_comma(stack, true), j + 1)
    } else {
        (stack, j)
    }
}

/// One step in a value position.  `stack` is the context stack with the
/// value context already popped.
pub open spec fn step_value(
    stack: Seq<ParseContext>,
    items: Seq<LexItemV>,
    eofp: Position,
    cur: Position,
) -> PStep {
    if items.len() == 0 {
        PStep {
            out: Err((PErrV::UnexpectedEndOfFile, eofp)),
            lexpos: eofp,
            used: 0,
            stack,
            ended: true,
        }
    } else {
        let pos0 = items[0].pos;
        match items[0].res {
            Err(e) => PStep {
                out: Err((PErrV::LexError(e), pos0)),
                lexpos: items[0].endpos,
                used: 1,
                stack,
                ended: true,
            },
            Ok(tok) => match tok {
                TokenV::StringLit(s0) => {
                    let k = concat_run(items, 1);
                    let text = s0 + concat_texts(items, 1, k);
                    let (stack2, used) = after_value(stack, items, k);
                    PStep {
                        out: Ok((EventV::Value(PvV::Str(text)), pos0)),
                        lexpos: lexpos_after(items, used, eofp, cur),
                        used,
                        stack: stack2,
                        ended: false,
                    }
                },
                TokenV::IntegerLit(n) => {
                    let (stack2, used) = after_value(stack, items, 1);
                    PStep {
                        out: Ok((EventV::Value(PvV::Int(n)), pos0)),
                        lexpos: lexpos_after(items, used, eofp, cur),
                        used,
                        stack: stack2,
                        ended: false,
                    }
                },
                TokenV::FloatLit(f) => {
                    let (stack2, used) = after_value(stack, items, 1);
                    PStep {
                        out: Ok((EventV::Value(PvV::Float(f)), pos0)),
                        lexpos: lexpos_after(items, used, eofp, cur),
                        used,
                        stack: stack2,
                        ended: false,
                    }
                },
                TokenV::Identifier(id) => {
                    if id == "true"@ || id == "false"@ || id == "null"@ {
                        let pv = if id == "true"@ {
                            PvV::Bool(true)
                        } else if id == "false"@ {
                            PvV::Bool(false)
                        } else {
                            PvV::Null
                        };
                        let (stack2, used) = after_value(stack, items, 1);
                        PStep {
                            out: Ok((EventV::Value(pv), pos0)),
                            lexpos: lexpos_after(items, used, eofp, cur),
                            used,
                            stack: stack2,
                            ended: false,
                        }
                    } else {
                        PStep {
                            out: Err((PErrV::UnexpectedToken(TokenV::Identifier(id)), pos0)),
                            lexpos: items[0].endpos,
                            used: 1,
                            stack,
                            ended: true,
                        }
                    }
                },
                TokenV::Bang => {
                    if items.len() >= 2 {
                        match items[1].res {
                            Ok(TokenV::Identifier(id)) => {
                                let (stack2, used) = after_value(stack, items, 2);
                                PStep {
                                    out: Ok((EventV::Value(PvV::Ident(id)), pos0)),
                                    lexpos: lexpos_after(items, used, eofp, cur),
                                    used,
                                    stack: stack2,
                                    ended: false,
                                }
                            },
                            Ok(tok2) => PStep {
                                out: Err((PErrV::UnexpectedToken(tok2), items[1].pos)),
                                lexpos: items[1].endpos,
                                used: 2,
                                stack,
                                ended: true,
                            },
                            Err(e) => PStep {
                                out: Err((PErrV::LexError(e), items[1].pos)),
                                lexpos: items[1].endpos,
                                used: 2,
                                stack,
                                ended: true,
                            },
                        }
                    } else {
                        PStep {
                            out: Err((PErrV::UnexpectedEndOfFile, eofp)),
                            lexpos: eofp,
                            used: 1,
                            stack,
                            ended: true,
                        }
                    }
                },
                TokenV::OpenBracket => {
                    let stack1 = stack.push(ParseContext::List(true));
                    let (stack2, used) = after_value(stack1, items, 1);
                    PStep {
                        out: Ok((EventV::ListStart, pos0)),
                        lexpos: lexpos_after(items, used, eofp, cur),
                        used,
                        stack: stack2,
                        ended: false,
                    }
                },
                TokenV::OpenBrace => {
                    let stack1 = stack.push(ParseContext::Dict(true));
                    let (stack2, used) = after_value(stack1, items, 1);
                    PStep {
                        out: Ok((EventV::DictStart, pos0)),
                        lexpos: lexpos_after(items, used, eofp, cur),
                        used,
                        stack: stack2,
                        ended: false,
                    }
                },
                _ => PStep {
                    out: Err((PErrV::UnexpectedToken(tok), pos0)),
                    lexpos: items[0].endpos,
                    used: 1,
                    stack,
                    ended: true,
                },
            },
        }
    }
}

/// One step at the top level of the document: the end of input closes the
/// file; otherwise only `name {` may open a node.
pub open spec fn step_file(
    stack: Seq<ParseContext>,
    items: Seq<LexItemV>,
    eofp: Position,
) -> PStep {
    if items.len() == 0 {
        PStep { out: Ok((EventV::FileEnd, eofp)), lexpos: eofp, used: 0, stack, ended: true }
    } else {
        let pos0 = items[0].pos;
        match items[0].res {
            Err(e) => PStep {
                out: Err((PErrV::LexError(e), pos0)),
                lexpos: items[0].endpos,
                used: 1,
                stack,
                ended: true,
            },
            Ok(TokenV::Identifier(name)) => {
                if items.len() >= 2 {
                    match items[1].res {
                        Ok(TokenV::OpenBrace) => PStep {
                            out: Ok((EventV::NodeStart(name), pos0)),
                            lexpos: items[1].endpos,
                            used: 2,
                            stack: stack.push(ParseContext::Node(true)),
                            ended: false,
                        },
                        Ok(tok2) => PStep {
                            out: Err((PErrV::UnexpectedToken(tok2), items[1].pos)),
                            lexpos: items[1].endpos,
                            used: 2,
                            stack,
                            ended: true,
                        },
                        Err(e) => PStep {
                            out: Err((PErrV::LexError(e), items[1].pos)),
                            lexpos: items[1].endpos,
                            used: 2,
                            stack,
                            ended: true,
                        },
                    }
                } else {
                    PStep {
                        out: Err((PErrV::UnexpectedEndOfFile, eofp)),
                        lexpos: eofp,
                        used: 1,
                        stack,
                        ended: true,
                    }
                }
            },
            Ok(tok) => PStep {
                out: Err((PErrV::UnexpectedToken(tok), pos0)),
                lexpos: items[0].endpos,
                used: 1,
                stack,
                ended: true,
            },
        }
    }
}

/// One step inside a node (`dict` says whether the scope is a dict instead):
/// a closing brace ends the scope; a string key needs a pending comma and a
/// colon; inside a node only, `name {` opens a subnode.
pub open spec fn step_scope(
    stack: Seq<ParseContext>,
    items: Seq<LexItemV>,
    eofp: Position,
    has_comma: bool,
    dict: bool,
) -> PStep {
    if items.len() == 0 {
        PStep {
            out: Err((PErrV::UnexpectedEndOfFile, eofp)),
            lexpos: eofp,
            used: 0,
            stack,
            ended: true,
        }
    } else {
        let pos0 = items[0].pos;
        match items[0].res {
            Err(e) => PStep {
                out: Err((PErrV::LexError(e), pos0)),
                lexpos: items[0].endpos,
                used: 1,
                stack,
                ended: true,
            },
            Ok(TokenV::CloseBrace) => PStep {
                out: Ok(
                    (
                        if dict {
                            EventV::DictEnd
                        } else {
                            EventV::NodeEnd
                        },
                        pos0,
                    ),
                ),
                lexpos: items[0].endpos,
                used: 1,
                stack: stack.drop_last(),
                ended: false,
            },
            Ok(TokenV::Identifier(name)) => {
                if dict {
                    PStep {
                        out: Err((PErrV::UnexpectedToken(TokenV::Identifier(name)), pos0)),
                        lexpos: items[0].endpos,
                        used: 1,
                        stack,
                        ended: true,
                    }
                } else {
                    let stack1 = spec_set_comma(stack, true);
                    if items.len() >= 2 {
                        match items[1].res {
                            Ok(TokenV::OpenBrace) => PStep {
                                out: Ok((EventV::NodeStart(name), pos0)),
                                lexpos: items[1].endpos,
                                used: 2,
                                stack: stack1.push(ParseContext::Node(true)),
                                ended: false,
                            },
                            Ok(tok2) => PStep {
                                out: Err((PErrV::UnexpectedToken(tok2), items[1].pos)),
                                lexpos: items[1].endpos,
                                used: 2,
                                stack: stack1,
                                ended: true,
                            },
                            Err(e) => PStep {
                                out: Err((PErrV::LexError(e), items[1].pos)),
                                lexpos: items[1].endpos,
                                used: 2,
                                stack: stack1,
                                ended: true,
                            },
                        }
                    } else {
                        PStep {
                            out: Err((PErrV::UnexpectedEndOfFile, eofp)),
                            lexpos: eofp,
                            used: 1,
                            stack: stack1,
                            ended: true,
                        }
                    }
                }
            },
            Ok(TokenV::StringLit(key)) => {
                if !has_comma {
                    PStep {
                        out: Err((PErrV::UnexpectedToken(TokenV::StringLit(key)), pos0)),
                        lexpos: items[0].endpos,
                        used: 1,
                        stack,
                        ended: true,
                    }
                } else {
                    let stack1 = spec_set_comma(stack, false);
                    if items.len() >= 2 {
                        match items[1].res {
                            Ok(TokenV::Colon) => PStep {
                                out: Ok((EventV::Key(key), pos0)),
                                lexpos: items[1].endpos,
                                used: 2,
                                stack: stack1.push(ParseContext::Value),
                                ended: false,
                            },
                            Ok(tok2) => PStep {
                                out: Err((PErrV::UnexpectedToken(tok2), items[1].pos)),
                                lexpos: items[1].endpos,
                                used: 2,
                                stack: stack1,
                                ended: true,
                            },
                            Err(e) => PStep {
                                out: Err((PErrV::LexError(e), items[1].pos)),
                                lexpos: items[1].endpos,
                                used: 2,
                                stack: stack1,
                                ended: true,
                            },
                        }
                    } else {
                        PStep {
                            out: Err((PErrV::UnexpectedEndOfFile, eofp)),
                            lexpos: eofp,
                            used: 1,
                            stack: stack1,
                            ended: true,
                        }
                    }
                }
            },
            Ok(tok) => PStep {
                out: Err((PErrV::UnexpectedToken(tok), pos0)),
                lexpos: items[0].endpos,
                used: 1,
                stack,
                ended: true,
            },
        }
    }
}

/// One step inside a list: a closing bracket ends it (a following comma sets
/// the outer comma flag); anything else is read as a value.
pub open spec fn step_list(
    stack: Seq<ParseContext>,
    items: Seq<LexItemV>,
    eofp: Position,
    cur: Position,
) -> PStep {
    if items.len() > 0 && items[0].res is Ok && items[0].res->Ok_0 is CloseBracket {
        let stack1 = stack.drop_last();
        let (stack2, used) = after_value(stack1, items, 1);
        PStep {
            out: Ok((EventV::ListEnd, items[0].pos)),
            lexpos: lexpos_after(items, used, eofp, cur),
            used,
            stack: stack2,
            ended: false,
        }
    } else {
        step_value(stack, items, eofp, cur)
    }
}

/// One parser step: dispatch on the innermost context.  An empty stack means
/// the very first call, which opens the file without reading a token.
pub open spec fn parser_step(
    stack: Seq<ParseContext>,
    items: Seq<LexItemV>,
    eofp: Position,
    cur: Position,
    tsp: Position,
) -> PStep {
    if stack.len() == 0 {
        PStep {
            out: Ok((EventV::FileStart, tsp)),
            lexpos: cur,
            used: 0,
            stack: stack.push(ParseContext::Basefile),
            ended: false,
        }
    } else {
        match stack.last() {
            ParseContext::Basefile => step_file(stack, items, eofp),
            ParseContext::Node(b) => step_scope(stack, items, eofp, b, false),
            ParseContext::Dict(b) => step_scope(stack, items, eofp, b, true),
            ParseContext::Value => step_value(stack.drop_last(), items, eofp, cur),
            ParseContext::List(b) => step_list(stack, items, eofp, cur),
        }
    }
}

/// Every step with a context on the stack either consumes a token or ends
/// the parser, and never consumes more than the items that exist.
pub proof fn lemma_parser_step_progress(
    stack: Seq<ParseContext>,
    items: Seq<LexItemV>,
    eofp: Position,
    cur: Position,
    tsp: Position,
)
    ensures
        ({
            let st = parser_step(stack, items, eofp, cur, tsp);
            &&& 0 <= st.used <= items.len()
            &&& (stack.len() > 0 && !st.ended ==> st.used >= 1)
            &&& (stack.len() == 0 ==> st.stack.len() > 0 && st.stack[0]
                == ParseContext::Basefile)
            &&& (stack.len() > 0 && stack[0] == ParseContext::Basefile && !st.ended
                ==> st.stack.len() > 0 && st.stack[0] == ParseContext::Basefile)
        }),
{
    if stack.len() > 0 {
        lemma_concat_run_bounds(items, if items.len() > 0 { 1int } else { 0int });
        if items.len() > 0 {
            lemma_concat_run_bounds(items, 1);
        }
    }
}

/// How many containers a context keeps open.
pub open spec fn ctx_w(c: ParseContext) -> int {
    match c {
        ParseContext::Node(_) => 1,
        ParseContext::List(_) => 1,
        ParseContext::Dict(_) => 1,
        _ => 0,
    }
}

/// How many containers a context stack keeps open.
pub open spec fn stack_weight(stack: Seq<ParseContext>) -> int
    decreases stack.len(),
{
    if stack.len() == 0 {
        0
    } else {
        stack_weight(stack.drop_last()) + ctx_w(stack.last())
    }
}

pub proof fn lemma_stack_weight_nonneg(stack: Seq<ParseContext>)
    ensures
        stack_weight(stack) >= 0,
    decreases stack.len(),
{
    if stack.len() > 0 {
        lemma_stack_weight_nonneg(stack.drop_last());
    }
}

pub proof fn lemma_stack_weight_push(stack: Seq<ParseContext>, c: ParseContext)
    ensures
        stack_weight(stack.push(c)) == stack_weight(stack) + ctx_w(c),
{
    assert(stack.push(c).drop_last() =~= stack);
}

pub proof fn lemma_stack_weight_set_comma(stack: Seq<ParseContext>, b: bool)
    ensures
        stack_weight(spec_set_comma(stack, b)) == stack_weight(stack),
        spec_set_comma(stack, b).len() == stack.len(),
        forall|i: int|
            0 <= i < stack.len() ==> (#[trigger] spec_set_comma(stack, b)[i] is Basefile
                <==> stack[i] is Basefile),
{
    if stack.len() > 0 {
        match stack.last() {
            ParseContext::Node(_) => {
                assert(spec_set_comma(stack, b).drop_last() =~= stack.drop_last());
            },
            ParseContext::List(_) => {
                assert(spec_set_comma(stack, b).drop_last() =~= stack.drop_last());
            },
            ParseContext::Dict(_) => {
                assert(spec_set_comma(stack, b).drop_last() =~= stack.drop_last());
            },
            _ => {},
        }
    }
}

/// One element of the parser's event stream: the event or error yielded, and
/// the lexer position just after it.
pub struct PEv {
    pub out: Result<(EventV, Position), (PErrV, Position)>,
    pub lexpos: Position,
}

/// The stream of events the parser will yield from the given state to its
/// end: the terminal `FileEnd` or the first error.
pub open spec fn parser_run(
    stack: Seq<ParseContext>,
    items: Seq<LexItemV>,
    eofp: Position,
    cur: Position,
    tsp: Position,
) -> Seq<PEv>
    decreases items.len(), (if stack.len() == 0 { 1int } else { 0int }),
    via parser_run_dec
{
    let st = parser_step(stack, items, eofp, cur, tsp);
    seq![PEv { out: st.out, lexpos: st.lexpos }] + if st.ended {
        Seq::<PEv>::empty()
    } else {
        parser_run(st.stack, items.skip(st.used), eofp, st.lexpos, tsp)
    }
}

#[via_fn]
proof fn parser_run_dec(
    stack: Seq<ParseContext>,
    items: Seq<LexItemV>,
    eofp: Position,
    cur: Position,
    tsp: Position,
) {
    lemma_parser_step_progress(stack, items, eofp, cur, tsp);
}

/// With a context on the stack, the event stream does not depend on the
/// position remembered for the file-start event.
pub proof fn lemma_parser_run_tsp(
    stack: Seq<ParseContext>,
    items: Seq<LexItemV>,
    eofp: Position,
    cur: Position,
    t1: Position,
    t2: Position,
)
    requires
        stack.len() > 0,
        stack[0] == ParseContext::Basefile,
    ensures
        parser_run(stack, items, eofp, cur, t1) == parser_run(stack, items, eofp, cur, t2),
    decreases items.len(),
{
    lemma_parser_step_progress(stack, items, eofp, cur, t1);
    let st = parser_step(stack, items, eofp, cur, t1);
    assert(st == parser_step(stack, items, eofp, cur, t2));
    if !st.ended {
        lemma_parser_run_tsp(st.stack, items.skip(st.used), eofp, st.lexpos, t1, t2);
    }
}

/// Appending one more string literal to a concatenation run extends the
/// concatenated text by its content.
pub proof fn lemma_concat_texts_snoc(items: Seq<LexItemV>, a: int, j: int)
    requires
        a <= j,
    ensures
        concat_texts(items, a, j + 1) == concat_texts(items, a, j) + seq_of(items, j),
    decreases j - a,
{
    if a < j {
        lemma_concat_texts_snoc(items, a + 1, j);
        assert(concat_texts(items, a, j + 1) == seq_of(items, a) + concat_texts(items, a + 1, j
            + 1));
        assert(seq_of(items, a) + (concat_texts(items, a + 1, j) + seq_of(items, j)) =~= (seq_of(
            items,
            a,
        ) + concat_texts(items, a + 1, j)) + seq_of(items, j));
    } else {
        assert(concat_texts(items, a, a) == Seq::<char>::empty());
        assert(concat_texts(items, a + 1, a + 1) == Seq::<char>::empty());
        assert(concat_texts(items, a, a + 1) == seq_of(items, a) + Seq::<char>::empty());
        assert(seq_of(items, a) + Seq::<char>::empty() =~= seq_of(items, a));
        assert(Seq::<char>::empty() + seq_of(items, a) =~= seq_of(items, a));
    }
}

/// The text of the string literal at index `j`.
pub open spec fn seq_of(items: Seq<LexItemV>, j: int) -> Seq<char> {
    items[j].res->Ok_0->StringLit_0
}

/// How one yielded event changes the nesting depth: node, list and dict
/// openings go one deeper; their closings one shallower; everything else
/// stays level.
pub open spec fn ev_delta(e: PEv) -> int {
    match e.out {
        Ok(pair) => match pair.0 {
            EventV::NodeStart(n) => 1,
            EventV::ListStart => 1,
            EventV::DictStart => 1,
            EventV::NodeEnd => -1,
            EventV::ListEnd => -1,
            EventV::DictEnd => -1,
            _ => 0,
        },
        Err(ep) => 0,
    }
}

/// The nesting depth reached after the first `k` events.
pub open spec fn depth_sum(evs: Seq<PEv>, k: int) -> int
    decreases k,
{
    if k <= 0 {
        0
    } else {
        depth_sum(evs, k - 1) + ev_delta(evs[k - 1])
    }
}

pub proof fn lemma_depth_sum_cons(e: PEv, rest: Seq<PEv>, k: int)
    requires
        1 <= k <= rest.len() + 1,
    ensures
        depth_sum(seq![e] + rest, k) == ev_delta(e) + depth_sum(rest, k - 1),
    decreases k,
{
    if k == 1 {
        assert((seq![e] + rest)[0] == e);
        assert(depth_sum(seq![e] + rest, 1) == depth_sum(seq![e] + rest, 0) + ev_delta(
            (seq![e] + rest)[0],
        ));
        assert(depth_sum(rest, 0) == 0);
    } else {
        lemma_depth_sum_cons(e, rest, k - 1);
        assert((seq![e] + rest)[k - 1] == rest[k - 2]);
        assert(depth_sum(seq![e] + rest, k) == depth_sum(seq![e] + rest, k - 1) + ev_delta(
            (seq![e] + rest)[k - 1],
        ));
        assert(depth_sum(rest, k - 1) == depth_sum(rest, k - 2) + ev_delta(rest[k - 2]));
    }
}

/// One parser step keeps exactly one whole-file context at the bottom of the
/// stack, and changes the stack's open-container count by exactly the depth
/// change of the event it yields.  The file only ends when every container
/// has closed.
pub proof fn lemma_step_weight(
    stack: Seq<ParseContext>,
    items: Seq<LexItemV>,
    eofp: Position,
    cur: Position,
    tsp: Position,
)
    requires
        stack.len() > 0,
        stack[0] == ParseContext::Basefile,
        forall|i: int| 1 <= i < stack.len() ==> !((#[trigger] stack[i]) is Basefile),
    ensures
        ({
            let st = parser_step(stack, items, eofp, cur, tsp);
            &&& (!st.ended ==> stack_weight(st.stack) == stack_weight(stack) + ev_delta(
                PEv { out: st.out, lexpos: st.lexpos },
            ))
            &&& (!st.ended ==> st.stack.len() > 0 && st.stack[0] == ParseContext::Basefile && (
            forall|i: int| 1 <= i < st.stack.len() ==> !((#[trigger] st.stack[i]) is Basefile)))
            &&& (st.ended && st.out is Ok ==> st.out->Ok_0.0 is FileEnd && stack_weight(stack)
                == 0)
        }),
{
    let st = parser_step(stack, items, eofp, cur, tsp);
    lemma_stack_weight_nonneg(stack);
    if stack.last() is Basefile {
        assert(stack.len() == 1) by {
            if stack.len() > 1 {
                assert(stack[stack.len() - 1] == stack.last());
                assert(!((stack[stack.len() - 1]) is Basefile));
                assert(false);
            }
        }
        assert(stack.drop_last() =~= Seq::<ParseContext>::empty());
        assert(stack_weight(Seq::<ParseContext>::empty()) == 0);
        assert(ctx_w(stack.last()) == 0);
        assert(stack_weight(stack) == stack_weight(stack.drop_last()) + ctx_w(stack.last()));
        assert(stack_weight(stack) == 0);
        if items.len() > 0 && items[0].res is Ok && items[0].res->Ok_0 is Identifier && items.len()
            >= 2 && items[1].res is Ok && items[1].res->Ok_0 is OpenBrace {
            lemma_stack_weight_push(stack, ParseContext::Node(true));
        }
    } else {
        let sc_t = spec_set_comma(stack, true);
        let sc_f = spec_set_comma(stack, false);
        lemma_stack_weight_set_comma(stack, true);
        lemma_stack_weight_set_comma(stack, false);
        lemma_stack_weight_push(sc_t, ParseContext::Node(true));
        lemma_stack_weight_push(sc_f, ParseContext::Value);
        lemma_stack_weight_push(stack, ParseContext::Node(true));
        lemma_stack_weight_push(stack, ParseContext::Value);
        if stack.last() is Value || stack.last() is List {
            let base = if stack.last() is Value {
                stack.drop_last()
            } else {
                stack
            };
            assert(stack_weight(stack.drop_last()) == stack_weight(stack) - ctx_w(stack.last()));
            lemma_stack_weight_push(base, ParseContext::List(true));
            lemma_stack_weight_push(base, ParseContext::Dict(true));
            lemma_stack_weight_set_comma(base, true);
            lemma_stack_weight_set_comma(base.push(ParseContext::List(true)), true);
            lemma_stack_weight_set_comma(base.push(ParseContext::Dict(true)), true);
            if stack.last() is List {
                lemma_stack_weight_set_comma(stack.drop_last(), true);
            }
        }
    }
}

/// From its very first event on, the parser's stream is well nested: the
/// nesting depth counted over node, list and dict openings and closings
/// never drops below zero, and when the stream closes the file it has
/// returned to exactly zero.
pub proof fn lemma_run_depth(
    stack: Seq<ParseContext>,
    items: Seq<LexItemV>,
    eofp: Position,
    cur: Position,
    tsp: Position,
)
    requires
        stack.len() > 0,
        stack[0] == ParseContext::Basefile,
        forall|i: int| 1 <= i < stack.len() ==> !((#[trigger] stack[i]) is Basefile),
    ensures
        ({
            let evs = parser_run(stack, items, eofp, cur, tsp);
            &&& (forall|k: int|
                0 <= k <= evs.len() ==> stack_weight(stack) + #[trigger] depth_sum(evs, k) >= 0)
            &&& ((evs.last().out is Ok && evs.last().out->Ok_0.0 is FileEnd) ==> stack_weight(
                stack,
            ) + depth_sum(evs, evs.len() as int) == 0)
        }),
    decreases items.len(),
{
    lemma_parser_step_progress(stack, items, eofp, cur, tsp);
    lemma_step_weight(stack, items, eofp, cur, tsp);
    lemma_stack_weight_nonneg(stack);
    let st = parser_step(stack, items, eofp, cur, tsp);
    let e = PEv { out: st.out, lexpos: st.lexpos };
    let evs = parser_run(stack, items, eofp, cur, tsp);
    if st.ended {
        assert(evs =~= seq![e]);
        assert(evs[0] == e);
        assert(depth_sum(evs, 0) == 0);
        assert(depth_sum(evs, 1) == ev_delta(e));
        assert forall|k: int| 0 <= k <= evs.len() implies stack_weight(stack) + #[trigger] depth_sum(
            evs,
            k,
        ) >= 0 by {
            if st.out is Ok {
                assert(ev_delta(e) == 0);
            } else {
                assert(ev_delta(e) == 0);
            }
        }
    } else {
        let rest = parser_run(st.stack, items.skip(st.used), eofp, st.lexpos, tsp);
        lemma_run_depth(st.stack, items.skip(st.used), eofp, st.lexpos, tsp);
        assert(evs == seq![e] + rest);
        assert(rest.len() > 0);
        assert(evs.last() == rest.last()) by {
            assert((seq![e] + rest)[evs.len() - 1] == rest[rest.len() - 1]);
        }
        assert forall|k: int| 0 <= k <= evs.len() implies stack_weight(stack) + #[trigger] depth_sum(
            evs,
            k,
        ) >= 0 by {
            if k == 0 {
                assert(depth_sum(evs, 0) == 0);
            } else {
                lemma_depth_sum_cons(e, rest, k);
                assert(stack_weight(st.stack) + depth_sum(rest, k - 1) >= 0);
            }
        }
        if evs.last().out is Ok && evs.last().out->Ok_0.0 is FileEnd {
            lemma_depth_sum_cons(e, rest, evs.len() as int);
        }
    }
}

/// Round trip of container structure: over the whole event stream of a
/// parse, from the file's start, the nesting depth never drops below zero
/// and stands at exactly zero again when the file's end is reached, so every
/// opening event is matched by exactly one closing event at its own depth.
pub proof fn lemma_events_well_nested(
    items: Seq<LexItemV>,
    eofp: Position,
    cur: Position,
    tsp: Position,
)
    ensures
        ({
            let evs = parser_run(Seq::<ParseContext>::empty(), items, eofp, cur, tsp);
            &&& (forall|k: int| 0 <= k <= evs.len() ==> #[trigger] depth_sum(evs, k) >= 0)
            &&& ((evs.last().out is Ok && evs.last().out->Ok_0.0 is FileEnd) ==> depth_sum(
                evs,
                evs.len() as int,
            ) == 0)
        }),
{
    let stack0 = Seq::<ParseContext>::empty();
    let st = parser_step(stack0, items, eofp, cur, tsp);
    let e = PEv { out: st.out, lexpos: st.lexpos };
    let evs = parser_run(stack0, items, eofp, cur, tsp);
    assert(st.stack =~= stack0.push(ParseContext::Basefile));
    assert(st.stack.len() == 1 && st.stack[0] == ParseContext::Basefile);
    lemma_stack_weight_push(stack0, ParseContext::Basefile);
    assert(items.skip(0) =~= items);
    let rest = parser_run(st.stack, items.skip(0), eofp, st.lexpos, tsp);
    lemma_run_depth(st.stack, items.skip(0), eofp, st.lexpos, tsp);
    assert(evs == seq![e] + rest);
    assert(rest.len() > 0) by {
        lemma_parser_step_progress(st.stack, items, eofp, st.lexpos, tsp);
    }
    assert(evs.last() == rest.last()) by {
        assert((seq![e] + rest)[evs.len() - 1] == rest[rest.len() - 1]);
    }
    assert(ev_delta(e) == 0);
    assert forall|k: int| 0 <= k <= evs.len() implies #[trigger] depth_sum(evs, k) >= 0 by {
        if k == 0 {
            assert(depth_sum(evs, 0) == 0);
        } else {
            lemma_depth_sum_cons(e, rest, k);
        }
    }
    if evs.last().out is Ok && evs.last().out->Ok_0.0 is FileEnd {
        lemma_depth_sum_cons(e, rest, evs.len() as int);
    }
}

// ---------------------------------------------------------------------------
// The parser.
// ---------------------------------------------------------------------------
/// The pull-parser: a context stack, a flag set once the terminal event or
/// error has been yielded, and the lexer it reads from.
pub struct Parser {
    pub context: Vec<ParseContext>,
    pub ended: bool,
    pub lexer: Lexer,
}

impl Parser {
    /// The parser is well formed when its lexer is and the bottom of a
    /// non-empty context stack is the whole-file context.
    pub open spec fn wf(&self) -> bool {
        &&& self.lexer.wf()
        &&& (self.context@.len() == 0 || self.context@[0] == ParseContext::Basefile)
        &&& (self.ended || !self.lexer.has_errored())
    }

    /// The position of the first character of the last token read.
    pub open spec fn tsp(&self) -> Position {
        (Position { line: self.lexer.token_start.line, pos: self.lexer.token_start.pos })
    }

    /// The lexer's current position.
    pub open spec fn curp(&self) -> Position {
        (Position { line: self.lexer.position.line, pos: self.lexer.position.pos })
    }

    /// The events and terminal error this parser will still yield.
    pub open spec fn run(&self) -> Seq<PEv> {
        if self.ended {
            Seq::<PEv>::empty()
        } else {
            parser_run(
                self.context@,
                self.lexer.items(),
                self.lexer.eof_pos(),
                self.curp(),
                self.tsp(),
            )
        }
    }

    /// Make a parser that pulls from the given lexer.  The lexer must not
    /// have yielded an error already.
    pub fn parse(lexer: Lexer) -> (r: Self)
        requires
            !lexer.has_errored(),
        ensures
            r.context@ == Seq::<ParseContext>::empty(),
            r.ended == false,
            r.lexer == lexer,
    {
        Parser { context: Vec::new(), ended: false, lexer: lexer }
    }

    /// The lexer's current position, for tagging errors found above the
    /// parser.
    pub fn lex_position(&self) -> (p: Position)
        ensures
            p == self.curp(),
    {
        Position::at(self.lexer.position.line, self.lexer.position.pos)
    }

    /// The position of the first character of the last token read.
    fn token_pos(&self) -> (p: Position)
        ensures
            p == self.tsp(),
    {
        Position::at(self.lexer.token_start.line, self.lexer.token_start.pos)
    }

    /// Whether a comma or opening delimiter is pending in the innermost
    /// context.
    fn has_comma(&self) -> (r: bool)
        ensures
            r == spec_has_comma(self.context@),
    {
        let n = self.context.len();
        if n == 0 {
            return false;
        }
        match self.context[n - 1] {
            ParseContext::Node(b) => b,
            ParseContext::List(b) => b,
            ParseContext::Dict(b) => b,
            _ => false,
        }
    }

    /// Set the comma flag of the innermost context that carries one.
    fn set_comma(&mut self, state: bool)
        ensures
            final(self).context@ == spec_set_comma(old(self).context@, state),
            final(self).ended == old(self).ended,
            final(self).lexer == old(self).lexer,
    {
        let n = self.context.len();
        if n == 0 {
            return ;
        }
        match self.context[n - 1] {
            ParseContext::Node(_) => {
                self.context.set(n - 1, ParseContext::Node(state));
            },
            ParseContext::List(_) => {
                self.context.set(n - 1, ParseContext::List(state));
            },
            ParseContext::Dict(_) => {
                self.context.set(n - 1, ParseContext::Dict(state));
            },
            _ => {},
        }
    }

    /// Consume a comma standing directly after a value, setting the enclosing
    /// context's comma flag.
    fn maybe_comma(&mut self)
        requires
            old(self).wf(),
        ensures
            final(self).wf(),
            final(self).ended == old(self).ended,
            final(self).lexer.src() == old(self).lexer.src(),
            final(self).lexer.has_errored() == old(self).lexer.has_errored(),
            final(self).tsp() == old(self).tsp() || final(self).tsp() == old(
                self,
            ).lexer.items()[0].pos,
            ({
                let its = old(self).lexer.items();
                if its.len() > 0 && its[0].res is Ok && its[0].res->Ok_0 is Comma {
                    &&& final(self).context@ == spec_set_comma(old(self).context@, true)
                    &&& final(self).lexer.items() == its.drop_first()
                    &&& final(self).curp() == its[0].endpos
                    &&& final(self).lexer.eof_pos() == old(self).lexer.eof_pos()
                } else {
                    &&& final(self).context@ == old(self).context@
                    &&& final(self).lexer.items() == its
                    &&& final(self).curp() == old(self).curp()
                    &&& final(self).lexer.eof_pos() == old(self).lexer.eof_pos()
                    &&& final(self).lexer == old(self).lexer
                }
            }),
    {
        let is_comma = match self.lexer.peek() {
            Some(Ok(LexToken::Comma)) => true,
            _ => false,
        };
        if is_comma {
            self.set_comma(true);
            let _ = self.lexer.next();
        }
    }

    /// One step at the top level of the document.
    fn parse_context_file(&mut self) -> (r: Option<ParseResult>)
        requires
            old(self).wf(),
            !old(self).ended,
            old(self).context@.len() > 0,
            old(self).context@.last() == ParseContext::Basefile,
        ensures
            final(self).wf(),
            final(self).lexer.src() == old(self).lexer.src(),
            ({
                let st = step_file(old(self).context@, old(self).lexer.items(), old(
                    self,
                ).lexer.eof_pos());
                &&& (match (r, st.out) {
                    (Some(Ok((ev, p))), Ok(pair)) => ev@ == pair.0 && p == pair.1,
                    (Some(Err((e, p))), Err(pair)) => e@ == pair.0 && p == pair.1,
                    _ => false,
                })
                &&& final(self).ended == st.ended
                &&& final(self).curp() == st.lexpos
                &&& (!st.ended ==> final(self).context@ == st.stack && final(self).lexer.items()
                    == old(self).lexer.items().skip(st.used) && final(self).lexer.eof_pos() == old(
                    self,
                ).lexer.eof_pos())
            }),
    {
        let ghost its0 = self.lexer.items();
        match self.lexer.next() {
            Some(Ok(LexToken::Identifier(ident))) => {
                let p0 = self.token_pos();
                proof {
                    assert(its0.drop_first() =~= its0.skip(1));
                }
                match self.lexer.next() {
                    Some(Ok(LexToken::OpenBrace)) => {
                        self.context.push(ParseContext::Node(true));
                        proof {
                            assert(its0.skip(1).drop_first() =~= its0.skip(2));
                        }
                        Some(Ok((ParseEvent::NodeStart(ident), p0)))
                    },
                    Some(Ok(tok)) => {
                        let p1 = self.token_pos();
                        self.ended = true;
                        Some(Err((ParseError::UnexpectedToken(tok), p1)))
                    },
                    Some(Err(e)) => {
                        let p1 = self.token_pos();
                        self.ended = true;
                        Some(Err((ParseError::LexError(e), p1)))
                    },
                    None => {
                        let p1 = self.token_pos();
                        self.ended = true;
                        Some(Err((ParseError::UnexpectedEndOfFile, p1)))
                    },
                }
            },
            Some(Ok(tok)) => {
                let p0 = self.token_pos();
                self.ended = true;
                Some(Err((ParseError::UnexpectedToken(tok), p0)))
            },
            Some(Err(e)) => {
                let p0 = self.token_pos();
                self.ended = true;
                Some(Err((ParseError::LexError(e), p0)))
            },
            None => {
                let p = self.token_pos();
                self.ended = true;
                Some(Ok((ParseEvent::FileEnd, p)))
            },
        }
    }

    /// One step inside a node or a dict; `dict` picks which of the two.
    fn parse_context_scope(&mut self, dict: bool) -> (r: Option<ParseResult>)
        requires
            old(self).wf(),
            !old(self).ended,
            old(self).context@.len() > 0,
            !dict ==> old(self).context@.last() is Node,
            dict ==> old(self).context@.last() is Dict,
        ensures
            final(self).wf(),
            final(self).lexer.src() == old(self).lexer.src(),
            ({
                let st = step_scope(
                    old(self).context@,
                    old(self).lexer.items(),
                    old(self).lexer.eof_pos(),
                    spec_has_comma(old(self).context@),
                    dict,
                );
                &&& (match (r, st.out) {
                    (Some(Ok((ev, p))), Ok(pair)) => ev@ == pair.0 && p == pair.1,
                    (Some(Err((e, p))), Err(pair)) => e@ == pair.0 && p == pair.1,
                    _ => false,
                })
                &&& final(self).ended == st.ended
                &&& final(self).curp() == st.lexpos
                &&& (!st.ended ==> final(self).context@ == st.stack && final(self).lexer.items()
                    == old(self).lexer.items().skip(st.used) && final(self).lexer.eof_pos() == old(
                    self,
                ).lexer.eof_pos())
            }),
    {
        let ghost its0 = self.lexer.items();
        let pending = self.has_comma();
        match self.lexer.next() {
            Some(Ok(LexToken::CloseBrace)) => {
                let p0 = self.token_pos();
                self.context.pop();
                proof {
                    assert(its0.drop_first() =~= its0.skip(1));
                }
                if dict {
                    Some(Ok((ParseEvent::DictEnd, p0)))
                } else {
                    Some(Ok((ParseEvent::NodeEnd, p0)))
                }
            },
            Some(Ok(LexToken::Identifier(name))) => {
                let p0 = self.token_pos();
                if dict {
                    self.ended = true;
                    Some(Err((ParseError::UnexpectedToken(LexToken::Identifier(name)), p0)))
                } else {
                    self.set_comma(true);
                    proof {
                        assert(its0.drop_first() =~= its0.skip(1));
                    }
                    match self.lexer.next() {
                        Some(Ok(LexToken::OpenBrace)) => {
                            self.context.push(ParseContext::Node(true));
                            proof {
                                assert(its0.skip(1).drop_first() =~= its0.skip(2));
                            }
                            Some(Ok((ParseEvent::NodeStart(name), p0)))
                        },
                        Some(Ok(tok)) => {
                            let p1 = self.token_pos();
                            self.ended = true;
                            Some(Err((ParseError::UnexpectedToken(tok), p1)))
                        },
                        Some(Err(e)) => {
                            let p1 = self.token_pos();
                            self.ended = true;
                            Some(Err((ParseError::LexError(e), p1)))
                        },
                        None => {
                            let p1 = self.token_pos();
                            self.ended = true;
                            Some(Err((ParseError::UnexpectedEndOfFile, p1)))
                        },
                    }
                }
            },
            Some(Ok(LexToken::StringLit(key))) => {
                let p0 = self.token_pos();
                if !pending {
                    self.ended = true;
                    Some(Err((ParseError::UnexpectedToken(LexToken::StringLit(key)), p0)))
                } else {
                    self.set_comma(false);
                    proof {
                        assert(its0.drop_first() =~= its0.skip(1));
                    }
                    match self.lexer.next() {
                        Some(Ok(LexToken::Colon)) => {
                            self.context.push(ParseContext::Value);
                            proof {
                                assert(its0.skip(1).drop_first() =~= its0.skip(2));
                            }
                            Some(Ok((ParseEvent::Key(key), p0)))
                        },
                        Some(Ok(tok)) => {
                            let p1 = self.token_pos();
                            self.ended = true;
                            Some(Err((ParseError::UnexpectedToken(tok), p1)))
                        },
                        Some(Err(e)) => {
                            let p1 = self.token_pos();
                            self.ended = true;
                            Some(Err((ParseError::LexError(e), p1)))
                        },
                        None => {
                            let p1 = self.token_pos();
                            self.ended = true;
                            Some(Err((ParseError::UnexpectedEndOfFile, p1)))
                        },
                    }
                }
            },
            Some(Ok(tok)) => {
                let p0 = self.token_pos();
                self.ended = true;
                Some(Err((ParseError::UnexpectedToken(tok), p0)))
            },
            Some(Err(e)) => {
                let p0 = self.token_pos();
                self.ended = true;
                Some(Err((ParseError::LexError(e), p0)))
            },
            None => {
                let p = self.token_pos();
                self.ended = true;
                Some(Err((ParseError::UnexpectedEndOfFile, p)))
            },
        }
    }

    /// One step in a value position: read exactly one value, concatenating
    /// adjacent string literals, and consume one trailing comma if present.
    fn parse_context_value(&mut self) -> (r: Option<ParseResult>)
        requires
            old(self).wf(),
            !old(self).ended,
            old(self).context@.len() > 0,
            old(self).context@.last() == ParseContext::Value,
        ensures
            final(self).wf(),
            final(self).lexer.src() == old(self).lexer.src(),
            ({
                let st = step_value(
                    old(self).context@.drop_last(),
                    old(self).lexer.items(),
                    old(self).lexer.eof_pos(),
                    old(self).curp(),
                );
                &&& (match (r, st.out) {
                    (Some(Ok((ev, p))), Ok(pair)) => ev@ == pair.0 && p == pair.1,
                    (Some(Err((e, p))), Err(pair)) => e@ == pair.0 && p == pair.1,
                    _ => false,
                })
                &&& final(self).ended == st.ended
                &&& final(self).curp() == st.lexpos
                &&& (!st.ended ==> final(self).context@ == st.stack && final(self).lexer.items()
                    == old(self).lexer.items().skip(st.used) && final(self).lexer.eof_pos() == old(
                    self,
                ).lexer.eof_pos())
            }),
    {
        let ghost its0 = self.lexer.items();
        let ghost eof0 = self.lexer.eof_pos();
        self.context.pop();
        let ghost stack0 = self.context@;
        match self.lexer.next() {
            None => {
                let p = self.token_pos();
                self.ended = true;
                Some(Err((ParseError::UnexpectedEndOfFile, p)))
            },
            Some(Err(e)) => {
                let p = self.token_pos();
                self.ended = true;
                Some(Err((ParseError::LexError(e), p)))
            },
            Some(Ok(LexToken::StringLit(s0))) => {
                let p0 = self.token_pos();
                let mut val = s0;
                let ghost mut j: int = 1;
                proof {
                    lemma_concat_run_bounds(its0, 1);
                    assert(its0.drop_first() =~= its0.skip(1));
                    assert(val@ + concat_texts(its0, 1, 1) =~= val@);
                }
                loop
                    invariant_except_break
                        self.wf(),
                        !self.ended,
                        1 <= its0.len(),
                        j <= its0.len(),
                        self.context@ == stack0,
                        !self.lexer.has_errored(),
                        self.lexer.src() == old(self).lexer.src(),
                        self.lexer.eof_pos() == eof0,
                        1 <= j <= concat_run(its0, 1),
                        self.lexer.items() == its0.skip(j),
                        val@ == seq_of(its0, 0) + concat_texts(its0, 1, j),
                        concat_run(its0, j) == concat_run(its0, 1),
                        self.curp() == its0[j - 1].endpos,
                    ensures
                        self.wf(),
                        !self.ended,
                        self.context@ == stack0,
                        !self.lexer.has_errored(),
                        self.lexer.src() == old(self).lexer.src(),
                        self.lexer.eof_pos() == eof0,
                        j == concat_run(its0, 1),
                        self.lexer.items() == its0.skip(j),
                        val@ == seq_of(its0, 0) + concat_texts(its0, 1, j),
                        self.curp() == its0[j - 1].endpos,
                    decreases concat_run(its0, 1) - j,
                {
                    proof {
                        lemma_concat_run_bounds(its0, 1);
                        lemma_concat_run_bounds(its0, j);
                    }
                    let is_str = match self.lexer.peek() {
                        Some(Ok(LexToken::StringLit(_))) => true,
                        _ => false,
                    };
                    if !is_str {
                        proof {
                            assert(concat_run(its0, j) == j);
                        }
                        break ;
                    }
                    proof {
                        assert(its0.skip(j)[0] == its0[j]);
                        lemma_concat_run_bounds(its0, j + 1);
                    }
                    match self.lexer.next() {
                        Some(Ok(LexToken::StringLit(s))) => {
                            val.append(s.as_str());
                            proof {
                                lemma_concat_texts_snoc(its0, 1, j);
                                assert((seq_of(its0, 0) + concat_texts(its0, 1, j)) + seq_of(
                                    its0,
                                    j,
                                ) =~= seq_of(its0, 0) + (concat_texts(its0, 1, j) + seq_of(
                                    its0,
                                    j,
                                )));
                                assert(its0.skip(j).drop_first() =~= its0.skip(j + 1));
                                j = j + 1;
                            }
                        },
                        _ => {
                            proof {
                                assert(false);
                            }
                        },
                    }
                }
                let ev = Some(Ok((ParseEvent::Value(ParsedValue::Str(val)), p0)));
                proof {
                    lemma_concat_run_bounds(its0, 1);
                    if its0.skip(j).len() > 0 {
                        assert(its0.skip(j)[0] == its0[j]);
                    }
                }
                self.maybe_comma();
                proof {
                    if j + 1 <= its0.len() {
                        assert(its0.skip(j).drop_first() =~= its0.skip(j + 1));
                    }
                }
                ev
            },
            Some(Ok(LexToken::IntegerLit(n))) => {
                let p0 = self.token_pos();
                let ev = Some(Ok((ParseEvent::Value(ParsedValue::Int(n)), p0)));
                proof {
                    assert(its0.drop_first() =~= its0.skip(1));
                    if its0.len() >= 2 {
                        assert(its0.skip(1).drop_first() =~= its0.skip(2));
                    }
                }
                self.maybe_comma();
                ev
            },
            Some(Ok(LexToken::FloatLit(f))) => {
                let p0 = self.token_pos();
                let ev = Some(Ok((ParseEvent::Value(ParsedValue::Float(f)), p0)));
                proof {
                    assert(its0.drop_first() =~= its0.skip(1));
                    if its0.len() >= 2 {
                        assert(its0.skip(1).drop_first() =~= its0.skip(2));
                    }
                }
                self.maybe_comma();
                ev
            },
            Some(Ok(LexToken::Identifier(id))) => {
                let p0 = self.token_pos();
                if crate::utils::string_eq(&id, "true") {
                    let ev = Some(Ok((ParseEvent::Value(ParsedValue::Bool(true)), p0)));
                    proof {
                        assert(its0.drop_first() =~= its0.skip(1));
                        if its0.len() >= 2 {
                            assert(its0.skip(1).drop_first() =~= its0.skip(2));
                        }
                    }
                    self.maybe_comma();
                    ev
                } else if crate::utils::string_eq(&id, "false") {
                    let ev = Some(Ok((ParseEvent::Value(ParsedValue::Bool(false)), p0)));
                    proof {
                        assert(its0.drop_first() =~= its0.skip(1));
                        if its0.len() >= 2 {
                            assert(its0.skip(1).drop_first() =~= its0.skip(2));
                        }
                    }
                    self.maybe_comma();
                    ev
                } else if crate::utils::string_eq(&id, "null") {
                    let ev = Some(Ok((ParseEvent::Value(ParsedValue::Null), p0)));
                    proof {
                        assert(its0.drop_first() =~= its0.skip(1));
                        if its0.len() >= 2 {
                            assert(its0.skip(1).drop_first() =~= its0.skip(2));
                        }
                    }
                    self.maybe_comma();
                    ev
                } else {
                    self.ended = true;
                    Some(Err((ParseError::UnexpectedToken(LexToken::Identifier(id)), p0)))
                }
            },
            Some(Ok(LexToken::Bang)) => {
                let p0 = self.token_pos();
                proof {
                    assert(its0.drop_first() =~= its0.skip(1));
                }
                match self.lexer.next() {
                    Some(Ok(LexToken::Identifier(s))) => {
                        let ev = Some(Ok((ParseEvent::Value(ParsedValue::Ident(s)), p0)));
                        proof {
                            assert(its0.skip(1).drop_first() =~= its0.skip(2));
                            if its0.len() >= 3 {
                                assert(its0.skip(2).drop_first() =~= its0.skip(3));
                            }
                        }
                        self.maybe_comma();
                        ev
                    },
                    Some(Ok(tok)) => {
                        let p1 = self.token_pos();
                        self.ended = true;
                        Some(Err((ParseError::UnexpectedToken(tok), p1)))
                    },
                    Some(Err(e)) => {
                        let p1 = self.token_pos();
                        self.ended = true;
                        Some(Err((ParseError::LexError(e), p1)))
                    },
                    None => {
                        let p1 = self.token_pos();
                        self.ended = true;
                        Some(Err((ParseError::UnexpectedEndOfFile, p1)))
                    },
                }
            },
            Some(Ok(LexToken::OpenBracket)) => {
                let p0 = self.token_pos();
                self.context.push(ParseContext::List(true));
                let ev = Some(Ok((ParseEvent::ListStart, p0)));
                proof {
                    assert(its0.drop_first() =~= its0.skip(1));
                    if its0.len() >= 2 {
                        assert(its0.skip(1).drop_first() =~= its0.skip(2));
                    }
                }
                self.maybe_comma();
                ev
            },
            Some(Ok(LexToken::OpenBrace)) => {
                let p0 = self.token_pos();
                self.context.push(ParseContext::Dict(true));
                let ev = Some(Ok((ParseEvent::DictStart, p0)));
                proof {
                    assert(its0.drop_first() =~= its0.skip(1));
                    if its0.len() >= 2 {
                        assert(its0.skip(1).drop_first() =~= its0.skip(2));
                    }
                }
                self.maybe_comma();
                ev
            },
            Some(Ok(tok)) => {
                let p0 = self.token_pos();
                self.ended = true;
                Some(Err((ParseError::UnexpectedToken(tok), p0)))
            },
        }
    }

    /// One step inside a list: a closing bracket ends it; anything else is
    /// read as a value.
    fn parse_context_list(&mut self) -> (r: Option<ParseResult>)
        requires
            old(self).wf(),
            !old(self).ended,
            old(self).context@.len() > 0,
            old(self).context@.last() is List,
        ensures
            final(self).wf(),
            final(self).lexer.src() == old(self).lexer.src(),
            ({
                let st = step_list(
                    old(self).context@,
                    old(self).lexer.items(),
                    old(self).lexer.eof_pos(),
                    old(self).curp(),
                );
                &&& (match (r, st.out) {
                    (Some(Ok((ev, p))), Ok(pair)) => ev@ == pair.0 && p == pair.1,
                    (Some(Err((e, p))), Err(pair)) => e@ == pair.0 && p == pair.1,
                    _ => false,
                })
                &&& final(self).ended == st.ended
                &&& final(self).curp() == st.lexpos
                &&& (!st.ended ==> final(self).context@ == st.stack && final(self).lexer.items()
                    == old(self).lexer.items().skip(st.used) && final(self).lexer.eof_pos() == old(
                    self,
                ).lexer.eof_pos())
            }),
    {
        let ghost its0 = self.lexer.items();
        let is_close = match self.lexer.peek() {
            Some(Ok(LexToken::CloseBracket)) => true,
            _ => false,
        };
        if is_close {
            let _ = self.lexer.next();
            let p0 = self.token_pos();
            self.context.pop();
            let ev = Some(Ok((ParseEvent::ListEnd, p0)));
            proof {
                assert(its0.drop_first() =~= its0.skip(1));
                if its0.len() >= 2 {
                    assert(its0.skip(1).drop_first() =~= its0.skip(2));
                }
            }
            self.maybe_comma();
            ev
        } else {
            self.context.push(ParseContext::Value);
            self.parse_context_value()
        }
    }

    /// Yield the next structural event, or the terminal error, or `None` once
    /// the parser has finished.
    pub fn next(&mut self) -> (r: Option<ParseResult>)
        requires
            old(self).wf(),
        ensures
            final(self).wf(),
            final(self).lexer.src() == old(self).lexer.src(),
            old(self).ended ==> r is None && *final(self) == *old(self),
            !old(self).ended ==> ({
                let run = old(self).run();
                &&& run.len() > 0
                &&& (match (r, run[0].out) {
                    (Some(Ok((ev, p))), Ok(pair)) => ev@ == pair.0 && p == pair.1,
                    (Some(Err((e, p))), Err(pair)) => e@ == pair.0 && p == pair.1,
                    _ => false,
                })
                &&& final(self).run() == run.drop_first()
                &&& final(self).curp() == run[0].lexpos
                &&& final(self).ended == (run.len() == 1)
            }),
    {
        if self.ended {
            return None;
        }
        let ghost stack0 = self.context@;
        let ghost its0 = self.lexer.items();
        let ghost eof0 = self.lexer.eof_pos();
        let ghost cur0 = self.curp();
        let ghost tsp0 = self.tsp();
        let ghost st = parser_step(stack0, its0, eof0, cur0, tsp0);
        proof {
            lemma_parser_step_progress(stack0, its0, eof0, cur0, tsp0);
        }
        let n = self.context.len();
        let r: Option<ParseResult> = if n == 0 {
            self.context.push(ParseContext::Basefile);
            let p = self.token_pos();
            proof {
                assert(its0.skip(0) =~= its0);
            }
            Some(Ok((ParseEvent::FileStart, p)))
        } else {
            match self.context[n - 1] {
                ParseContext::Basefile => self.parse_context_file(),
                ParseContext::Node(_) => self.parse_context_scope(false),
                ParseContext::Dict(_) => self.parse_context_scope(true),
                ParseContext::Value => self.parse_context_value(),
                ParseContext::List(_) => self.parse_context_list(),
            }
        };
        proof {
            let run = parser_run(stack0, its0, eof0, cur0, tsp0);
            assert(run == seq![PEv { out: st.out, lexpos: st.lexpos }] + if st.ended {
                Seq::<PEv>::empty()
            } else {
                parser_run(st.stack, its0.skip(st.used), eof0, st.lexpos, tsp0)
            });
            if st.ended {
                assert(run.drop_first() =~= Seq::<PEv>::empty());
            } else {
                assert(run.drop_first() =~= parser_run(
                    st.stack,
                    its0.skip(st.used),
                    eof0,
                    st.lexpos,
                    tsp0,
                ));
                lemma_parser_run_tsp(
                    st.stack,
                    its0.skip(st.used),
                    eof0,
                    st.lexpos,
                    self.tsp(),
                    tsp0,
                );
            }
        }
        r
    }
}

} // verus!