//! The compiler front door: lexing followed by parsing, as one call.

use vstd::prelude::*;

use crate::lexer::{spec_lex, spec_tokens};
use crate::models::{Error, Lexer, OpCode, Parser, SpecError, SpecNode, spec_nodes};
use crate::parser::spec_parse;
use crate::runtime::{Session, SpecSession, SpecSessionMode};

verus! {

/// The dialogue tree that a source text compiles to, or the first
/// lexical or parse error.
pub open spec fn spec_compile(s: Seq<char>) -> Result<Seq<SpecNode>, SpecError> {
    match spec_lex(s) {
        Err(e) => Err(e),
        Ok(toks) => spec_parse(toks),
    }
}

/// Compiles source text into its dialogue tree: the token sequence of
/// `Lexer::lex` fed to `Parser::parse`. Returns exactly what
/// `spec_compile` ascribes to the text; the first error aborts the whole
/// compile with no partial tree.
pub fn compile(source: String) -> (r: Result<Vec<OpCode>, Error>)
    requires
        source@.len() <= usize::MAX - 2,
    ensures
        match r {
            Ok(code) => spec_compile(source@) == Ok::<Seq<SpecNode>, SpecError>(spec_nodes(code@)),
            Err(e) => spec_compile(source@) == Err::<Seq<SpecNode>, SpecError>(e@),
        },
{
    let ghost s = source@;
    match Lexer::lex(source) {
        Err(e) => Err(e),
        Ok(tokens) => match Parser::parse(tokens) {
            Err(e) => Err(e),
            Ok(code) => Ok(code),
        },
    }
}

/// Law: compilation is deterministic — the same source always yields the
/// identical tree (or the identical error), because the result is a
/// function of the character sequence alone.
pub proof fn lemma_compile_deterministic(s1: Seq<char>, s2: Seq<char>)
    requires
        s1 == s2,
    ensures
        spec_compile(s1) == spec_compile(s2),
{
}

/// Law: a program that compiles is valid from the empty scope — every
/// `$N` reference stands after a `?N` declaration on its own lexical
/// path, so a run of the program can never meet an unset slot.
pub proof fn lemma_compile_valid(s: Seq<char>)
    ensures
        spec_compile(s) matches Ok(nodes) ==> crate::runtime::spec_prog_valid(
            nodes, Set::empty()),
{
    if let Ok(toks) = spec_lex(s) {
        crate::parser::lemma_parse_valid(toks);
    }
}

/// Compiles a source text and, on success, opens a session ready to run
/// the program — sound because whatever compiles is valid from the
/// empty scope (`lemma_compile_valid`).
pub fn start(source: String) -> (r: Result<Session, Error>)
    requires
        source@.len() <= usize::MAX - 2,
    ensures
        match r {
            Ok(s) => {
                &&& spec_compile(source@) matches Ok(nodes)
                &&& s@ == (SpecSession {
                    frames: seq![spec_compile(source@)->Ok_0],
                    store: Map::empty(),
                    mode: SpecSessionMode::Ready,
                })
                &&& s.inv()
            },
            Err(e) => spec_compile(source@) == Err::<Seq<SpecNode>, SpecError>(e@),
        },
{
    let ghost s = source@;
    match compile(source) {
        Err(e) => Err(e),
        Ok(code) => {
            proof {
                lemma_compile_valid(s);
            }
            Ok(Session::new(code))
        },
    }
}

} // verus!
