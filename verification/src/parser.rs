//! The parser: recursive descent with one token of lookahead over the
//! lexed token sequence, producing the dialogue-node tree, tracking slot
//! declarations, and validating every `$N` reference at parse time.
//! `spec_parse` is the mathematical definition; `Parser::parse` is the
//! executable parser, proved to return exactly what `spec_parse` says.

use vstd::prelude::*;

use crate::models::{Branch, Error, ErrorType, OpCode, Parser, Position, SpecError, SpecErrorKind,
    SpecNode, SpecOption, SpecPos, SpecToken, SpecTokenKind, Token, TokenType, spec_nodes,
    spec_options, lemma_spec_nodes, lemma_spec_options};
use crate::lexer::{spec_tokens, lemma_spec_tokens};
use crate::runtime::{scope_after, spec_node_valid, spec_prog_valid};
use crate::scan::{digit_run_end, digit_run_end_exec, lemma_digit_run_end, run_value,
    run_value_exec};

verus! {

/// The slot ids named by a sequence of declarations.
pub open spec fn scope_set(ids: Seq<usize>) -> Set<nat> {
    Set::new(|n: nat| exists|i: int| 0 <= i < ids.len() && ids[i] as nat == n)
}

/// Declaring one more id adds exactly that id to the scope.
pub proof fn lemma_scope_push(ids: Seq<usize>, v: usize)
    ensures
        scope_set(ids.push(v)) == scope_set(ids).insert(v as nat),
{
    let a = scope_set(ids.push(v));
    let b = scope_set(ids).insert(v as nat);
    assert forall|n: nat| a.contains(n) implies b.contains(n) by {
        let i = choose|i: int| 0 <= i < ids.push(v).len() && ids.push(v)[i] as nat == n;
        if i < ids.len() {
            assert(ids[i] as nat == n);
        }
    }
    assert forall|n: nat| b.contains(n) implies a.contains(n) by {
        if n == v as nat {
            assert(ids.push(v)[ids.len() as int] as nat == n);
        } else {
            let i = choose|i: int| 0 <= i < ids.len() && ids[i] as nat == n;
            assert(ids.push(v)[i] as nat == n);
        }
    }
    assert(a =~= b);
}

/// The first invalid `$N` reference in `text` from position `i` on, if
/// any: a `$` followed by a maximal non-empty digit run is a reference and
/// must name a slot in `scope`; a `$` not followed by digits is literal
/// text. A reference past the machine's slot-id range can name no slot
/// and is reported as invalid syntax.
pub open spec fn spec_validate_from(text: Seq<char>, i: int, scope: Set<nat>) -> Option<
    SpecErrorKind,
>
    recommends
        0 <= i,
    decreases text.len() - i,
    when 0 <= i
    via spec_validate_from_dec
{
    if i >= text.len() {
        None
    } else if text[i] == '$' {
        let j = digit_run_end(text, i + 1);
        if j == i + 1 {
            spec_validate_from(text, i + 1, scope)
        } else if run_value(text, i + 1, j) > usize::MAX as int {
            Some(SpecErrorKind::InvalidSyntax)
        } else if !scope.contains(run_value(text, i + 1, j) as nat) {
            Some(SpecErrorKind::InvalidIdentifier(run_value(text, i + 1, j) as nat))
        } else {
            spec_validate_from(text, j, scope)
        }
    } else {
        spec_validate_from(text, i + 1, scope)
    }
}

#[via_fn]
proof fn spec_validate_from_dec(text: Seq<char>, i: int, scope: Set<nat>) {
    if 0 <= i < text.len() && text[i] == '$' {
        lemma_digit_run_end(text, i + 1);
    }
}

/// The first invalid reference in a whole literal, if any.
pub open spec fn spec_validate(text: Seq<char>, scope: Set<nat>) -> Option<SpecErrorKind> {
    spec_validate_from(text, 0, scope)
}

/// Clamps a parse position into `[lo, hi]`; parse positions always lie
/// there, so on every reachable path this is the identity.
pub open spec fn clamp_idx(lo: int, hi: int, j: int) -> int {
    if lo <= j <= hi {
        j
    } else if lo <= hi {
        lo
    } else {
        hi
    }
}

/// Parses the node whose leading token is `toks[i]`: a string literal
/// opens an info node or, followed by `{`, a branch; an identifier-number
/// opens a question and declares its slot; anything else is rejected.
/// Returns the node, the position after it, the position of the last
/// consumed token, and the scope including any new declaration.
pub open spec fn spec_parse_node(toks: Seq<SpecToken>, i: int, scope: Set<nat>) -> Result<
    (SpecNode, int, SpecPos, Set<nat>),
    SpecError,
>
    recommends
        0 <= i < toks.len(),
    decreases toks.len() - i, 1int,
    when 0 <= i < toks.len()
{
    let t = toks[i];
    match t.kind {
        SpecTokenKind::StringLiteral(text) => match spec_validate(text, scope) {
            Some(k) => Err(SpecError { kind: k, line: t.pos.line, col: t.pos.col }),
            None => if i + 1 < toks.len() && toks[i + 1].kind is BrackOpen {
                match spec_parse_options(toks, i + 2, t.pos, scope) {
                    Err(e) => Err(e),
                    Ok((opts, j, cur2)) => Ok((SpecNode::Branch(text, opts), j, cur2, scope)),
                }
            } else {
                Ok((SpecNode::Info(text), i + 1, t.pos, scope))
            },
        },
        SpecTokenKind::IdentifierNumber(n) => if i + 1 >= toks.len() {
            Err(SpecError {
                kind: SpecErrorKind::Missing("question (StringLiteral)"@),
                line: t.pos.line,
                col: t.pos.col,
            })
        } else {
            let t2 = toks[i + 1];
            match t2.kind {
                SpecTokenKind::StringLiteral(q) => match spec_validate(q, scope) {
                    Some(k) => Err(SpecError { kind: k, line: t2.pos.line, col: t2.pos.col }),
                    None => Ok(
                        (SpecNode::Question(q, n), i + 2, t2.pos, scope.insert(n)),
                    ),
                },
                _ => Err(SpecError {
                    kind: SpecErrorKind::Expected("question (StringLiteral)"@),
                    line: t2.pos.line,
                    col: t2.pos.col,
                }),
            }
        },
        _ => Err(SpecError {
            kind: SpecErrorKind::Expected("Message"@),
            line: t.pos.line,
            col: t.pos.col,
        }),
    }
}

/// Parses one or more options of a branch, up to and including the
/// closing `}`. Each option is a validated label, `=>`, `{`, a node
/// sequence and `}`; the scope is snapshotted before each option body and
/// restored after it, so declarations inside one option are invisible to
/// its sibling options and to everything after the branch.
pub open spec fn spec_parse_options(toks: Seq<SpecToken>, i: int, cur: SpecPos, scope: Set<nat>)
    -> Result<(Seq<SpecOption>, int, SpecPos), SpecError>
    recommends
        0 <= i,
    decreases toks.len() - i, 0int,
    when 0 <= i <= toks.len()
{
    if i >= toks.len() {
        Err(SpecError {
            kind: SpecErrorKind::Missing("'}' (Branch ending)"@),
            line: cur.line,
            col: cur.col,
        })
    } else {
        let t = toks[i];
        match t.kind {
            SpecTokenKind::StringLiteral(label) => match spec_validate(label, scope) {
                Some(k) => Err(SpecError { kind: k, line: t.pos.line, col: t.pos.col }),
                None => if i + 1 >= toks.len() {
                    Err(SpecError {
                        kind: SpecErrorKind::Missing("'=>' (Branch Node declaration)"@),
                        line: t.pos.line,
                        col: t.pos.col,
                    })
                } else if !(toks[i + 1].kind is LambdaOp) {
                    Err(SpecError {
                        kind: SpecErrorKind::Expected("'=>' (Branch Node declaration)"@),
                        line: toks[i + 1].pos.line,
                        col: toks[i + 1].pos.col,
                    })
                } else if i + 2 >= toks.len() {
                    Err(SpecError {
                        kind: SpecErrorKind::Missing("'{' (Branch Node starting)"@),
                        line: toks[i + 1].pos.line,
                        col: toks[i + 1].pos.col,
                    })
                } else if !(toks[i + 2].kind is BrackOpen) {
                    Err(SpecError {
                        kind: SpecErrorKind::Expected("'{' (Branch Node starting)"@),
                        line: toks[i + 2].pos.line,
                        col: toks[i + 2].pos.col,
                    })
                } else {
                    match spec_parse_body(toks, i + 3, toks[i + 2].pos, scope) {
                        Err(e) => Err(e),
                        Ok((body, j, cur2, _body_scope)) => {
                            let opt = SpecOption { label, body };
                            if j < toks.len() && toks[j].kind is BrackClose {
                                Ok((seq![opt], j + 1, cur2))
                            } else if j >= toks.len() {
                                Err(SpecError {
                                    kind: SpecErrorKind::Missing("'}' (Branch ending)"@),
                                    line: cur2.line,
                                    col: cur2.col,
                                })
                            } else {
                                match spec_parse_options(
                                    toks,
                                    clamp_idx(i + 4, toks.len() as int, j),
                                    cur2,
                                    scope,
                                ) {
                                    Err(e) => Err(e),
                                    Ok((opts, k, cur3)) => Ok((seq![opt] + opts, k, cur3)),
                                }
                            }
                        },
                    }
                }
            },
            _ => Err(SpecError {
                kind: SpecErrorKind::Expected("Branch Node"@),
                line: t.pos.line,
                col: t.pos.col,
            }),
        }
    }
}

/// Parses a node sequence up to and including a closing `}`; the input
/// ending first is an error at the last consumed token.
pub open spec fn spec_parse_body(toks: Seq<SpecToken>, i: int, cur: SpecPos, scope: Set<nat>)
    -> Result<(Seq<SpecNode>, int, SpecPos, Set<nat>), SpecError>
    recommends
        0 <= i,
    decreases toks.len() - i, 2int,
    when 0 <= i <= toks.len()
{
    if i >= toks.len() {
        Err(SpecError {
            kind: SpecErrorKind::Missing("'}' (Branch Node ending)"@),
            line: cur.line,
            col: cur.col,
        })
    } else if toks[i].kind is BrackClose {
        Ok((Seq::empty(), i + 1, cur, scope))
    } else {
        match spec_parse_node(toks, i, scope) {
            Err(e) => Err(e),
            Ok((node, j, cur2, scope2)) => match spec_parse_body(
                toks,
                clamp_idx(i + 1, toks.len() as int, j),
                cur2,
                scope2,
            ) {
                Err(e) => Err(e),
                Ok((nodes, k, cur3, scope3)) => Ok((seq![node] + nodes, k, cur3, scope3)),
            },
        }
    }
}

/// Parses nodes until the token sequence is exhausted.
pub open spec fn spec_parse_program(toks: Seq<SpecToken>, i: int, cur: SpecPos, scope: Set<nat>)
    -> Result<(Seq<SpecNode>, int, SpecPos, Set<nat>), SpecError>
    recommends
        0 <= i,
    decreases toks.len() - i, 2int,
    when 0 <= i <= toks.len()
{
    if i >= toks.len() {
        Ok((Seq::empty(), i, cur, scope))
    } else {
        match spec_parse_node(toks, i, scope) {
            Err(e) => Err(e),
            Ok((node, j, cur2, scope2)) => match spec_parse_program(
                toks,
                clamp_idx(i + 1, toks.len() as int, j),
                cur2,
                scope2,
            ) {
                Err(e) => Err(e),
                Ok((nodes, k, cur3, scope3)) => Ok((seq![node] + nodes, k, cur3, scope3)),
            },
        }
    }
}

/// The dialogue tree of a whole token sequence, or the first parse error.
/// Parsing starts with an empty scope and a dummy current position.
pub open spec fn spec_parse(toks: Seq<SpecToken>) -> Result<Seq<SpecNode>, SpecError> {
    match spec_parse_program(toks, 0, SpecPos { line: 0, col: 0 }, Set::empty()) {
        Ok((nodes, _, _, _)) => Ok(nodes),
        Err(e) => Err(e),
    }
}

/// Prepends one node to a node-sequence parse that succeeded.
pub open spec fn nodes_cons(
    n: SpecNode,
    r: Result<(Seq<SpecNode>, int, SpecPos, Set<nat>), SpecError>,
) -> Result<(Seq<SpecNode>, int, SpecPos, Set<nat>), SpecError> {
    match r {
        Ok((rest, k, c, s)) => Ok((seq![n] + rest, k, c, s)),
        Err(e) => Err(e),
    }
}

/// Prepends already-parsed nodes to a node-sequence parse result.
pub open spec fn nodes_combine(
    ns: Seq<SpecNode>,
    r: Result<(Seq<SpecNode>, int, SpecPos, Set<nat>), SpecError>,
) -> Result<(Seq<SpecNode>, int, SpecPos, Set<nat>), SpecError> {
    match r {
        Ok((rest, k, c, s)) => Ok((ns + rest, k, c, s)),
        Err(e) => Err(e),
    }
}

/// Prepends one option to an option-sequence parse that succeeded.
pub open spec fn opts_cons(
    o: SpecOption,
    r: Result<(Seq<SpecOption>, int, SpecPos), SpecError>,
) -> Result<(Seq<SpecOption>, int, SpecPos), SpecError> {
    match r {
        Ok((rest, k, c)) => Ok((seq![o] + rest, k, c)),
        Err(e) => Err(e),
    }
}

/// Prepends already-parsed options to an option-sequence parse result.
pub open spec fn opts_combine(
    os: Seq<SpecOption>,
    r: Result<(Seq<SpecOption>, int, SpecPos), SpecError>,
) -> Result<(Seq<SpecOption>, int, SpecPos), SpecError> {
    match r {
        Ok((rest, k, c)) => Ok((os + rest, k, c)),
        Err(e) => Err(e),
    }
}

/// Moving a node from the pending result into the finished prefix.
proof fn lemma_nodes_combine_cons(
    ns: Seq<SpecNode>,
    n: SpecNode,
    r: Result<(Seq<SpecNode>, int, SpecPos, Set<nat>), SpecError>,
)
    ensures
        nodes_combine(ns.push(n), r) == nodes_combine(ns, nodes_cons(n, r)),
{
    match r {
        Ok((rest, k, c, s)) => {
            assert(ns.push(n) + rest =~= ns + (seq![n] + rest));
        },
        Err(_) => {},
    }
}

/// Moving an option from the pending result into the finished prefix.
proof fn lemma_opts_combine_cons(
    os: Seq<SpecOption>,
    o: SpecOption,
    r: Result<(Seq<SpecOption>, int, SpecPos), SpecError>,
)
    ensures
        opts_combine(os.push(o), r) == opts_combine(os, opts_cons(o, r)),
{
    match r {
        Ok((rest, k, c)) => {
            assert(os.push(o) + rest =~= os + (seq![o] + rest));
        },
        Err(_) => {},
    }
}

/// Appending a node on the executable side matches `push` on the model.
proof fn lemma_spec_nodes_push(s: Seq<OpCode>, n: OpCode)
    ensures
        spec_nodes(s.push(n)) == spec_nodes(s).push(n@),
{
    assert(s.push(n).drop_last() =~= s);
    assert(s.push(n).last() == n);
}

/// Appending an option on the executable side matches `push` on the model.
proof fn lemma_spec_options_push(s: Seq<Branch>, b: Branch)
    ensures
        spec_options(s.push(b)) == spec_options(s).push(b@),
{
    assert(s.push(b).drop_last() =~= s);
    assert(s.push(b).last() == b);
}

/// One token's model, linked to the token sequence's model.
proof fn lemma_token_at(toks: Seq<Token>, i: int)
    requires
        0 <= i < toks.len(),
    ensures
        spec_tokens(toks).len() == toks.len(),
        spec_tokens(toks)[i] == toks[i]@,
{
    lemma_spec_tokens(toks);
    assert(spec_tokens(toks)[i] == toks[i]@);
}

/// Whether slot `v` stands among the declared ids.
fn contains_id(ids: &Vec<usize>, v: usize) -> (b: bool)
    ensures
        b == scope_set(ids@).contains(v as nat),
{
    let mut k: usize = 0;
    while k < ids.len()
        invariant
            k <= ids@.len(),
            forall|m: int| 0 <= m < k ==> ids@[m] != v,
        decreases ids@.len() - k,
    {
        if ids[k] == v {
            assert(ids@[k as int] as nat == v as nat);
            return true;
        }
        k = k + 1;
    }
    proof {
        if scope_set(ids@).contains(v as nat) {
            let i = choose|i: int| 0 <= i < ids@.len() && ids@[i] as nat == v as nat;
            assert(ids@[i] == v);
        }
    }
    false
}

impl Parser {
    /// The parser's cursor is within its token sequence.
    pub open spec fn wf(&self) -> bool {
        self.index <= self.tokens@.len()
    }

    /// A parser at the start of `tokens`, with an empty scope, an empty
    /// node sequence and a dummy current position.
    pub fn new(tokens: Vec<Token>) -> (p: Parser)
        ensures
            p.tokens == tokens,
            p.index == 0,
            p.byte_code@ == Seq::<OpCode>::empty(),
            p.curr_pos@ == (SpecPos { line: 0, col: 0 }),
            p.value_identifiers@ == Seq::<usize>::empty(),
            p.wf(),
    {
        Parser {
            tokens,
            index: 0,
            byte_code: Vec::new(),
            curr_pos: Position { line: 0, column: 0 },
            value_identifiers: Vec::new(),
        }
    }

    /// Turns a token sequence into the dialogue tree it spells, or
    /// reports the first parse error with the position it arose at.
    /// Returns exactly what `spec_parse` ascribes to the tokens.
    pub fn parse(tokens: Vec<Token>) -> (r: Result<Vec<OpCode>, Error>)
        ensures
            match r {
                Ok(code) => spec_parse(spec_tokens(tokens@)) == Ok::<Seq<SpecNode>, SpecError>(
                    spec_nodes(code@)),
                Err(e) => spec_parse(spec_tokens(tokens@)) == Err::<Seq<SpecNode>, SpecError>(e@),
            },
    {
        let mut parser = Parser::new(tokens);
        proof {
            assert(scope_set(Seq::<usize>::empty()) =~= Set::<nat>::empty());
        }
        match parser.source() {
            Ok(()) => {
                proof {
                    let t = spec_tokens(parser.tokens@);
                    let r0 = spec_parse_program(t, 0, SpecPos { line: 0, col: 0 }, Set::empty());
                    if r0 is Ok {
                        assert(Seq::<SpecNode>::empty() + r0->Ok_0.0 =~= r0->Ok_0.0);
                    }
                }
                Ok(parser.byte_code)
            },
            Err(e) => Err(e),
        }
    }

    /// Parses statements until the tokens are exhausted, appending each
    /// parsed node to the parser's node sequence.
    #[verifier::loop_isolation(false)]
    fn source(&mut self) -> (r: Result<(), Error>)
        requires
            old(self).wf(),
        ensures
            final(self).tokens == old(self).tokens,
            ({
                let t = spec_tokens(old(self).tokens@);
                let i0 = old(self).index as int;
                let cur0 = old(self).curr_pos@;
                let s0 = scope_set(old(self).value_identifiers@);
                match spec_parse_program(t, i0, cur0, s0) {
                    Ok(res) => {
                        &&& r is Ok
                        &&& spec_nodes(final(self).byte_code@) == spec_nodes(old(self).byte_code@)
                            + res.0
                        &&& final(self).wf()
                    },
                    Err(e) => r matches Err(err) && err@ == e,
                }
            }),
    {
        let ghost t = spec_tokens(old(self).tokens@);
        let ghost i0 = old(self).index as int;
        let ghost cur0 = old(self).curr_pos@;
        let ghost s0 = scope_set(old(self).value_identifiers@);
        let ghost code0 = spec_nodes(old(self).byte_code@);
        proof {
            lemma_spec_tokens(old(self).tokens@);
            let r0 = spec_parse_program(t, i0, cur0, s0);
            if r0 is Ok {
                assert(code0 + r0->Ok_0.0 =~= code0 + r0->Ok_0.0);
            }
        }
        loop
            invariant
                self.tokens == old(self).tokens,
                self.wf(),
                nodes_combine(code0, spec_parse_program(t, i0, cur0, s0)) == nodes_combine(
                    spec_nodes(self.byte_code@),
                    spec_parse_program(t, self.index as int, self.curr_pos@,
                        scope_set(self.value_identifiers@)),
                ),
            decreases self.tokens@.len() - self.index,
        {
            if self.index >= self.tokens.len() {
                proof {
                    assert(spec_nodes(self.byte_code@) + Seq::<SpecNode>::empty() =~= spec_nodes(
                        self.byte_code@));
                }
                return Ok(());
            }
            let ghost i = self.index as int;
            let ghost cur = self.curr_pos@;
            let ghost sc = scope_set(self.value_identifiers@);
            let ghost code_before = spec_nodes(self.byte_code@);
            match self.handle_token() {
                Ok(op) => {
                    proof {
                        let after = spec_parse_program(t, self.index as int, self.curr_pos@,
                            scope_set(self.value_identifiers@));
                        assert(clamp_idx(i + 1, t.len() as int, self.index as int)
                            == self.index as int);
                        assert(spec_parse_program(t, i, cur, sc) == nodes_cons(op@, after));
                        lemma_spec_nodes_push(self.byte_code@, op);
                        lemma_nodes_combine_cons(code_before, op@, after);
                    }
                    self.byte_code.push(op);
                },
                Err(e) => {
                    return Err(e);
                },
            }
        }
    }

    /// Parses one statement by its leading token: a string literal opens
    /// an info node or a branch, an identifier-number opens a question;
    /// any other token is rejected.
    fn handle_token(&mut self) -> (r: Result<OpCode, Error>)
        requires
            old(self).wf(),
            old(self).index < old(self).tokens@.len(),
        ensures
            final(self).tokens == old(self).tokens,
            final(self).byte_code == old(self).byte_code,
            ({
                let t = spec_tokens(old(self).tokens@);
                let i = old(self).index as int;
                let s0 = scope_set(old(self).value_identifiers@);
                match spec_parse_node(t, i, s0) {
                    Ok(res) => {
                        &&& r matches Ok(op) && op@ == res.0
                        &&& final(self).index as int == res.1
                        &&& old(self).index < final(self).index <= old(self).tokens@.len()
                        &&& final(self).curr_pos@ == res.2
                        &&& scope_set(final(self).value_identifiers@) == res.3
                        &&& old(self).value_identifiers@.is_prefix_of(
                            final(self).value_identifiers@)
                        &&& final(self).wf()
                    },
                    Err(e) => r matches Err(err) && err@ == e,
                }
            }),
        decreases old(self).tokens@.len() - old(self).index, 1int,
    {
        proof {
            lemma_token_at(self.tokens@, self.index as int);
        }
        let sel: u8 = match &self.tokens[self.index].token_type {
            TokenType::StringLiteral(_) => 0,
            TokenType::IdentifierNumber(_) => 1,
            _ => 2,
        };
        if sel == 0 {
            self.parse_strings()
        } else if sel == 1 {
            self.parse_identifier()
        } else {
            let pos = self.tokens[self.index].position;
            self.curr_pos = pos;
            Err(Error::parse_error(ErrorType::Expected(String::from_str("Message")), self))
        }
    }

    /// Parses a statement led by a string literal: the literal alone is
    /// an info node; followed by `{` it heads a branch.
    fn parse_strings(&mut self) -> (r: Result<OpCode, Error>)
        requires
            old(self).wf(),
            old(self).index < old(self).tokens@.len(),
            old(self).tokens@[old(self).index as int].token_type is StringLiteral,
        ensures
            final(self).tokens == old(self).tokens,
            final(self).byte_code == old(self).byte_code,
            ({
                let t = spec_tokens(old(self).tokens@);
                let i = old(self).index as int;
                let s0 = scope_set(old(self).value_identifiers@);
                match spec_parse_node(t, i, s0) {
                    Ok(res) => {
                        &&& r matches Ok(op) && op@ == res.0
                        &&& final(self).index as int == res.1
                        &&& old(self).index < final(self).index <= old(self).tokens@.len()
                        &&& final(self).curr_pos@ == res.2
                        &&& scope_set(final(self).value_identifiers@) == res.3
                        &&& old(self).value_identifiers@.is_prefix_of(
                            final(self).value_identifiers@)
                        &&& final(self).wf()
                    },
                    Err(e) => r matches Err(err) && err@ == e,
                }
            }),
        decreases old(self).tokens@.len() - old(self).index, 0int,
    {
        proof {
            lemma_token_at(self.tokens@, self.index as int);
        }
        let len = self.tokens.len();
        let i = self.index;
        let pos = self.tokens[i].position;
        let text: String = match &self.tokens[i].token_type {
            TokenType::StringLiteral(s) => s.clone(),
            _ => vstd::pervasive::unreached(),
        };
        self.curr_pos = pos;
        match self.validate_string(&text) {
            Err(e) => {
                return Err(e);
            },
            Ok(()) => {},
        }
        proof {
            if i + 1 < self.tokens@.len() {
                lemma_token_at(self.tokens@, i + 1);
            }
        }
        let next_is_brack: bool = if i + 1 < len {
            match &self.tokens[i + 1].token_type {
                TokenType::BrackOpen => true,
                _ => false,
            }
        } else {
            false
        };
        if next_is_brack {
            self.index = i + 2;
            match self.parse_branch(text) {
                Ok(op) => Ok(op),
                Err(e) => Err(e),
            }
        } else {
            self.index = i + 1;
            Ok(OpCode::Info(text))
        }
    }

    /// Parses a question: the declared slot id, then its prompt literal,
    /// validated against the scope before the id is registered (so a
    /// prompt cannot reference its own slot). Declaring a slot id a
    /// second time is permitted silently: the scope set absorbs it, and
    /// at run time the later answer overwrites the earlier one.
    fn parse_identifier(&mut self) -> (r: Result<OpCode, Error>)
        requires
            old(self).wf(),
            old(self).index < old(self).tokens@.len(),
            old(self).tokens@[old(self).index as int].token_type is IdentifierNumber,
        ensures
            final(self).tokens == old(self).tokens,
            final(self).byte_code == old(self).byte_code,
            ({
                let t = spec_tokens(old(self).tokens@);
                let i = old(self).index as int;
                let s0 = scope_set(old(self).value_identifiers@);
                match spec_parse_node(t, i, s0) {
                    Ok(res) => {
                        &&& r matches Ok(op) && op@ == res.0
                        &&& final(self).index as int == res.1
                        &&& old(self).index < final(self).index <= old(self).tokens@.len()
                        &&& final(self).curr_pos@ == res.2
                        &&& scope_set(final(self).value_identifiers@) == res.3
                        &&& old(self).value_identifiers@.is_prefix_of(
                            final(self).value_identifiers@)
                        &&& final(self).wf()
                    },
                    Err(e) => r matches Err(err) && err@ == e,
                }
            }),
        decreases old(self).tokens@.len() - old(self).index, 0int,
    {
        proof {
            lemma_token_at(self.tokens@, self.index as int);
        }
        let len = self.tokens.len();
        let i = self.index;
        let pos = self.tokens[i].position;
        let n: usize = match &self.tokens[i].token_type {
            TokenType::IdentifierNumber(v) => *v,
            _ => vstd::pervasive::unreached(),
        };
        self.curr_pos = pos;
        if i + 1 >= len {
            self.index = len;
            let msg = String::from_str("question (StringLiteral)");
            return Err(Error::parse_error(ErrorType::Missing(msg), self));
        }
        self.index = i + 1;
        proof {
            lemma_token_at(self.tokens@, i + 1);
        }
        let pos2 = self.tokens[self.index].position;
        self.curr_pos = pos2;
        let q_opt: Option<String> = match &self.tokens[self.index].token_type {
            TokenType::StringLiteral(s) => Some(s.clone()),
            _ => None,
        };
        match q_opt {
            None => {
                let msg = String::from_str("question (StringLiteral)");
                Err(Error::parse_error(ErrorType::Expected(msg), self))
            },
            Some(q) => {
                match self.validate_string(&q) {
                    Err(e) => {
                        return Err(e);
                    },
                    Ok(()) => {},
                }
                self.index = self.index + 1;
                let ghost ids_before = self.value_identifiers@;
                self.value_identifiers.push(n);
                proof {
                    lemma_scope_push(ids_before, n);
                    assert(ids_before.is_prefix_of(self.value_identifiers@));
                }
                Ok(OpCode::Question(q, n))
            },
        }
    }

    /// Checks a literal's `$N` references against the declared scope;
    /// reports the first invalid one at the current token's position.
    #[verifier::loop_isolation(false)]
    fn validate_string(&self, text: &String) -> (r: Result<(), Error>)
        ensures
            match spec_validate(text@, scope_set(self.value_identifiers@)) {
                None => r is Ok,
                Some(k) => r matches Err(e) && e@ == (SpecError {
                    kind: k,
                    line: self.curr_pos.line as int,
                    col: self.curr_pos.column as int,
                }),
            },
    {
        let ghost sc = scope_set(self.value_identifiers@);
        let len = crate::scan::char_len(text);
        let mut i: usize = 0;
        loop
            invariant
                i <= len,
                spec_validate(text@, sc) == spec_validate_from(text@, i as int, sc),
            decreases len - i,
        {
            if i >= len {
                return Ok(());
            }
            let c = crate::scan::char_at(text, i);
            if c == '$' {
                let j = digit_run_end_exec(text, i + 1);
                proof {
                    lemma_digit_run_end(text@, i + 1);
                }
                if j == i + 1 {
                    i = i + 1;
                } else {
                    match run_value_exec(text, i + 1, j) {
                        None => {
                            return Err(Error::parse_error(ErrorType::InvalidSyntax, self));
                        },
                        Some(v) => {
                            if !contains_id(&self.value_identifiers, v) {
                                return Err(Error::parse_error(
                                    ErrorType::InvalidIdentifier(v), self));
                            }
                            i = j;
                        },
                    }
                }
            } else {
                i = i + 1;
            }
        }
    }

    /// Parses a node sequence up to and including a closing `}`.
    #[verifier::loop_isolation(false)]
    fn block(&mut self) -> (r: Result<Vec<OpCode>, Error>)
        requires
            old(self).wf(),
        ensures
            final(self).tokens == old(self).tokens,
            final(self).byte_code == old(self).byte_code,
            ({
                let t = spec_tokens(old(self).tokens@);
                let i0 = old(self).index as int;
                let cur0 = old(self).curr_pos@;
                let s0 = scope_set(old(self).value_identifiers@);
                match spec_parse_body(t, i0, cur0, s0) {
                    Ok(res) => {
                        &&& r matches Ok(code) && spec_nodes(code@) == res.0
                        &&& final(self).index as int == res.1
                        &&& old(self).index < final(self).index <= old(self).tokens@.len()
                        &&& final(self).curr_pos@ == res.2
                        &&& scope_set(final(self).value_identifiers@) == res.3
                        &&& old(self).value_identifiers@.is_prefix_of(
                            final(self).value_identifiers@)
                        &&& final(self).wf()
                    },
                    Err(e) => r matches Err(err) && err@ == e,
                }
            }),
        decreases old(self).tokens@.len() - old(self).index, 2int,
    {
        let ghost t = spec_tokens(old(self).tokens@);
        let ghost i0 = old(self).index as int;
        let ghost cur0 = old(self).curr_pos@;
        let ghost s0 = scope_set(old(self).value_identifiers@);
        proof {
            lemma_spec_tokens(old(self).tokens@);
            let r0 = spec_parse_body(t, i0, cur0, s0);
            if r0 is Ok {
                assert(Seq::<SpecNode>::empty() + r0->Ok_0.0 =~= r0->Ok_0.0);
            }
        }
        let mut code: Vec<OpCode> = Vec::new();
        loop
            invariant
                self.tokens == old(self).tokens,
                self.byte_code == old(self).byte_code,
                self.wf(),
                i0 <= self.index as int,
                old(self).value_identifiers@.is_prefix_of(self.value_identifiers@),
                spec_parse_body(t, i0, cur0, s0) == nodes_combine(
                    spec_nodes(code@),
                    spec_parse_body(t, self.index as int, self.curr_pos@,
                        scope_set(self.value_identifiers@)),
                ),
            decreases self.tokens@.len() - self.index,
        {
            if self.index >= self.tokens.len() {
                let msg = String::from_str("'}' (Branch Node ending)");
                return Err(Error::parse_error(ErrorType::Missing(msg), self));
            }
            proof {
                lemma_token_at(self.tokens@, self.index as int);
            }
            let is_close: bool = match &self.tokens[self.index].token_type {
                TokenType::BrackClose => true,
                _ => false,
            };
            if is_close {
                self.index = self.index + 1;
                proof {
                    assert(spec_nodes(code@) + Seq::<SpecNode>::empty() =~= spec_nodes(code@));
                }
                return Ok(code);
            }
            let ghost i = self.index as int;
            let ghost cur = self.curr_pos@;
            let ghost sc = scope_set(self.value_identifiers@);
            let ghost code_before = spec_nodes(code@);
            match self.handle_token() {
                Ok(op) => {
                    proof {
                        let after = spec_parse_body(t, self.index as int, self.curr_pos@,
                            scope_set(self.value_identifiers@));
                        assert(clamp_idx(i + 1, t.len() as int, self.index as int)
                            == self.index as int);
                        assert(spec_parse_body(t, i, cur, sc) == nodes_cons(op@, after));
                        lemma_spec_nodes_push(code@, op);
                        lemma_nodes_combine_cons(code_before, op@, after);
                    }
                    code.push(op);
                },
                Err(e) => {
                    return Err(e);
                },
            }
        }
    }

    /// Parses a branch's options after its header and opening `{`: one or
    /// more labelled option bodies, then the closing `}`. The scope is
    /// snapshotted before each option body and restored after it.
    #[verifier::loop_isolation(false)]
    fn parse_branch(&mut self, question: String) -> (r: Result<OpCode, Error>)
        requires
            old(self).wf(),
        ensures
            final(self).tokens == old(self).tokens,
            final(self).byte_code == old(self).byte_code,
            ({
                let t = spec_tokens(old(self).tokens@);
                let i0 = old(self).index as int;
                let cur0 = old(self).curr_pos@;
                let s0 = scope_set(old(self).value_identifiers@);
                match spec_parse_options(t, i0, cur0, s0) {
                    Ok(res) => {
                        &&& r matches Ok(op) && op@ == SpecNode::Branch(question@, res.0)
                        &&& final(self).index as int == res.1
                        &&& old(self).index < final(self).index <= old(self).tokens@.len()
                        &&& final(self).curr_pos@ == res.2
                        &&& final(self).value_identifiers@ == old(self).value_identifiers@
                        &&& final(self).wf()
                    },
                    Err(e) => r matches Err(err) && err@ == e,
                }
            }),
        decreases old(self).tokens@.len() - old(self).index, 3int,
    {
        let ghost t = spec_tokens(old(self).tokens@);
        let ghost i0 = old(self).index as int;
        let ghost cur0 = old(self).curr_pos@;
        let ghost s0 = scope_set(old(self).value_identifiers@);
        proof {
            lemma_spec_tokens(old(self).tokens@);
            let r0 = spec_parse_options(t, i0, cur0, s0);
            if r0 is Ok {
                assert(Seq::<SpecOption>::empty() + r0->Ok_0.0 =~= r0->Ok_0.0);
            }
        }
        let mut branches: Vec<Branch> = Vec::new();
        loop
            invariant
                self.tokens == old(self).tokens,
                self.byte_code == old(self).byte_code,
                self.wf(),
                i0 <= self.index as int,
                self.value_identifiers@ == old(self).value_identifiers@,
                spec_parse_options(t, i0, cur0, s0) == opts_combine(
                    spec_options(branches@),
                    spec_parse_options(t, self.index as int, self.curr_pos@, s0),
                ),
            decreases self.tokens@.len() - self.index,
        {
            if self.index >= self.tokens.len() {
                let msg = String::from_str("'}' (Branch ending)");
                return Err(Error::parse_error(ErrorType::Missing(msg), self));
            }
            proof {
                lemma_token_at(self.tokens@, self.index as int);
            }
            let ghost i = self.index as int;
            let ghost cur = self.curr_pos@;
            let ghost opts_before = spec_options(branches@);

            let lpos = self.tokens[self.index].position;
            let label_opt: Option<String> = match &self.tokens[self.index].token_type {
                TokenType::StringLiteral(s) => Some(s.clone()),
                _ => None,
            };
            self.curr_pos = lpos;
            let label: String = match label_opt {
                Some(l) => l,
                None => {
                    let msg = String::from_str("Branch Node");
                    return Err(Error::parse_error(ErrorType::Expected(msg), self));
                },
            };
            match self.validate_string(&label) {
                Err(e) => {
                    return Err(e);
                },
                Ok(()) => {},
            }
            self.index = self.index + 1;

            if self.index >= self.tokens.len() {
                let msg = String::from_str("'=>' (Branch Node declaration)");
                return Err(Error::parse_error(ErrorType::Missing(msg), self));
            }
            proof {
                lemma_token_at(self.tokens@, i + 1);
            }
            let t2pos = self.tokens[self.index].position;
            let is_lambda: bool = match &self.tokens[self.index].token_type {
                TokenType::LambdaOp => true,
                _ => false,
            };
            self.curr_pos = t2pos;
            self.index = self.index + 1;
            if !is_lambda {
                let msg = String::from_str("'=>' (Branch Node declaration)");
                return Err(Error::parse_error(ErrorType::Expected(msg), self));
            }

            if self.index >= self.tokens.len() {
                let msg = String::from_str("'{' (Branch Node starting)");
                return Err(Error::parse_error(ErrorType::Missing(msg), self));
            }
            proof {
                lemma_token_at(self.tokens@, i + 2);
            }
            let t3pos = self.tokens[self.index].position;
            let is_open: bool = match &self.tokens[self.index].token_type {
                TokenType::BrackOpen => true,
                _ => false,
            };
            self.curr_pos = t3pos;
            self.index = self.index + 1;
            if !is_open {
                let msg = String::from_str("'{' (Branch Node starting)");
                return Err(Error::parse_error(ErrorType::Expected(msg), self));
            }

            let snap_len = self.value_identifiers.len();
            let ghost ids_snap = self.value_identifiers@;
            let body: Vec<OpCode> = match self.block() {
                Ok(b) => b,
                Err(e) => {
                    return Err(e);
                },
            };
            self.value_identifiers.truncate(snap_len);
            proof {
                assert(self.value_identifiers@ =~= ids_snap);
            }

            let ghost body_end = self.index as int;
            let b = Branch::new(label, body);
            let ghost opt_model = b@;
            proof {
                lemma_spec_options_push(branches@, b);
            }
            branches.push(b);

            if self.index < self.tokens.len() {
                proof {
                    lemma_token_at(self.tokens@, body_end);
                }
                let is_close: bool = match &self.tokens[self.index].token_type {
                    TokenType::BrackClose => true,
                    _ => false,
                };
                if is_close {
                    self.index = self.index + 1;
                    proof {
                        assert(spec_parse_options(t, i, cur, s0) == Ok::<
                            (Seq<SpecOption>, int, SpecPos), SpecError>((
                            seq![opt_model], body_end + 1, self.curr_pos@)));
                        assert(opts_before + seq![opt_model] =~= opts_before.push(opt_model));
                    }
                    let op = OpCode::Branch(question, branches);
                    return Ok(op);
                }
            }
            proof {
                let after = spec_parse_options(t, self.index as int, self.curr_pos@, s0);
                assert(clamp_idx(i + 4, t.len() as int, self.index as int) == self.index as int);
                assert(spec_parse_options(t, i, cur, s0) == opts_cons(opt_model, after));
                lemma_opts_combine_cons(opts_before, opt_model, after);
            }
        }
    }
}

/// Parsing one node yields a node that is valid in the scope it was
/// parsed in, and extends the scope exactly by its own declaration.
pub proof fn lemma_parse_node_valid(toks: Seq<SpecToken>, i: int, scope: Set<nat>)
    requires
        0 <= i < toks.len(),
    ensures
        spec_parse_node(toks, i, scope) matches Ok(res) ==> spec_node_valid(res.0, scope)
            && res.3 == scope_after(res.0, scope),
    decreases toks.len() - i, 1int,
{
    if let Ok(res) = spec_parse_node(toks, i, scope) {
        match toks[i].kind {
            SpecTokenKind::StringLiteral(text) => {
                if i + 1 < toks.len() && toks[i + 1].kind is BrackOpen {
                    lemma_parse_options_valid(toks, i + 2, toks[i].pos, scope);
                }
            },
            _ => {},
        }
    }
}

/// The options a branch parses to are at least one, and every option's
/// body is valid in the branch's own scope (the snapshot each body
/// started from and was restored to).
pub proof fn lemma_parse_options_valid(toks: Seq<SpecToken>, i: int, cur: SpecPos, scope: Set<nat>)
    requires
        0 <= i <= toks.len(),
    ensures
        spec_parse_options(toks, i, cur, scope) matches Ok(res) ==> res.0.len() >= 1
            && forall|k: int| 0 <= k < res.0.len() ==> spec_prog_valid(
                #[trigger] res.0[k].body, scope),
    decreases toks.len() - i, 0int,
{
    if let Ok(res) = spec_parse_options(toks, i, cur, scope) {
        let t = toks[i];
        if let SpecTokenKind::StringLiteral(label) = t.kind {
            lemma_parse_body_valid(toks, i + 3, toks[i + 2].pos, scope);
            let body_r = spec_parse_body(toks, i + 3, toks[i + 2].pos, scope);
            if let Ok((body, j, cur2, _body_scope)) = body_r {
                let opt = SpecOption { label, body };
                if j < toks.len() && toks[j].kind is BrackClose {
                    assert(res.0 == seq![opt]);
                    assert(res.0[0] == opt);
                } else {
                    let j2 = clamp_idx(i + 4, toks.len() as int, j);
                    lemma_parse_options_valid(toks, j2, cur2, scope);
                    if let Ok((opts, _, _)) = spec_parse_options(toks, j2, cur2, scope) {
                        assert(res.0 == seq![opt] + opts);
                        assert forall|k: int| 0 <= k < res.0.len() implies spec_prog_valid(
                            #[trigger] res.0[k].body, scope) by {
                            if k == 0 {
                                assert(res.0[0] == opt);
                            } else {
                                assert(res.0[k] == opts[k - 1]);
                            }
                        }
                    }
                }
            }
        }
    }
}

/// A parsed node sequence (up to its closing brace) is valid in the
/// scope it was parsed from.
pub proof fn lemma_parse_body_valid(toks: Seq<SpecToken>, i: int, cur: SpecPos, scope: Set<nat>)
    requires
        0 <= i <= toks.len(),
    ensures
        spec_parse_body(toks, i, cur, scope) matches Ok(res) ==> spec_prog_valid(res.0, scope),
    decreases toks.len() - i, 2int,
{
    if let Ok(res) = spec_parse_body(toks, i, cur, scope) {
        if i < toks.len() && !(toks[i].kind is BrackClose) {
            lemma_parse_node_valid(toks, i, scope);
            if let Ok((node, j, cur2, scope2)) = spec_parse_node(toks, i, scope) {
                let j2 = clamp_idx(i + 1, toks.len() as int, j);
                lemma_parse_body_valid(toks, j2, cur2, scope2);
                if let Ok((nodes, _, _, _)) = spec_parse_body(toks, j2, cur2, scope2) {
                    assert(res.0 == seq![node] + nodes);
                    assert(res.0[0] == node);
                    assert(res.0.subrange(1, res.0.len() as int) =~= nodes);
                }
            }
        }
    }
}

/// A parsed top-level node sequence is valid in the scope it was parsed
/// from.
pub proof fn lemma_parse_program_valid(toks: Seq<SpecToken>, i: int, cur: SpecPos, scope: Set<nat>)
    requires
        0 <= i <= toks.len(),
    ensures
        spec_parse_program(toks, i, cur, scope) matches Ok(res) ==> spec_prog_valid(res.0, scope),
    decreases toks.len() - i, 2int,
{
    if let Ok(res) = spec_parse_program(toks, i, cur, scope) {
        if i < toks.len() {
            lemma_parse_node_valid(toks, i, scope);
            if let Ok((node, j, cur2, scope2)) = spec_parse_node(toks, i, scope) {
                let j2 = clamp_idx(i + 1, toks.len() as int, j);
                lemma_parse_program_valid(toks, j2, cur2, scope2);
                if let Ok((nodes, _, _, _)) = spec_parse_program(toks, j2, cur2, scope2) {
                    assert(res.0 == seq![node] + nodes);
                    assert(res.0[0] == node);
                    assert(res.0.subrange(1, res.0.len() as int) =~= nodes);
                }
            }
        }
    }
}

/// Law: whatever tree the parser accepts is valid from an empty scope —
/// every `$N` reference in it stands under a `?N` declaration on its own
/// lexical path, so no dangling reference survives to run time.
pub proof fn lemma_parse_valid(toks: Seq<SpecToken>)
    ensures
        spec_parse(toks) matches Ok(nodes) ==> spec_prog_valid(nodes, Set::empty()),
{
    lemma_parse_program_valid(toks, 0, SpecPos { line: 0, col: 0 }, Set::empty());
}

} // verus!
