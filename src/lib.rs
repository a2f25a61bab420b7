//! Parses short algebraic statements into syntax trees and resolves them in a
//! session: folds numbers, substitutes bound names and stored functions, and
//! solves equalities with one unknown.
use vstd::prelude::*;

pub mod namespace;
pub mod functions;
pub mod latex;
pub mod node;
pub mod number;
pub mod parsers;
pub mod resolve_message;
pub mod resolver;
pub mod tokenizer;
pub mod walkers;

use crate::functions::views;
use crate::namespace::Binding;
use crate::node::Tree;
use crate::number::Arithmetic;
use crate::parsers::{parsed, ParseError};
use crate::resolve_message::{is_error, ResolveMessage};
use crate::resolver::{error_note, line_result, note, notes, numbered_notes, Note, Resolver};
use crate::tokenizer::{has_number, lex, reads_all, Token, TokenizingError};

verus! {

/// Why a line could not be turned into a tree.
pub enum PipelineError {
    TokenizeError(TokenizingError),
    ParsingError(ParseError),
}

impl PipelineError {
    pub fn to_resolve_message(&self) -> (r: ResolveMessage)
        ensures
            match self {
                PipelineError::TokenizeError(TokenizingError::ParseFloatError(reason)) => is_error(r, reason@),
                PipelineError::ParsingError(ParseError::UnmatchedOpeningParen) => is_error(r, "Unmatched opening paren"@),
                PipelineError::ParsingError(ParseError::UnmatchedClosingParen) => is_error(r, "Unmatched closing paren"@),
                PipelineError::ParsingError(ParseError::UnmatchedOpeningBracket) => is_error(r, "Unmatched opening bracket"@),
                PipelineError::ParsingError(ParseError::UnmatchedClosingBracket) => is_error(r, "Unmatched closing bracket"@),
                PipelineError::ParsingError(ParseError::WrongBracket) => is_error(r, "Wrong bracket"@),
            },
    {
        match self {
            PipelineError::TokenizeError(TokenizingError::ParseFloatError(reason)) => ResolveMessage::error(reason.as_str()),
            PipelineError::ParsingError(err) => match err {
                ParseError::UnmatchedOpeningParen => ResolveMessage::error("Unmatched opening paren"),
                ParseError::UnmatchedClosingParen => ResolveMessage::error("Unmatched closing paren"),
                ParseError::UnmatchedOpeningBracket => ResolveMessage::error("Unmatched opening bracket"),
                ParseError::UnmatchedClosingBracket => ResolveMessage::error("Unmatched closing bracket"),
                ParseError::WrongBracket => ResolveMessage::error("Wrong bracket"),
            },
        }
    }
}

/// The text of a grouping error.
pub open spec fn parse_error_text(e: ParseError) -> Seq<char> {
    match e {
        ParseError::UnmatchedOpeningParen => "Unmatched opening paren"@,
        ParseError::UnmatchedClosingParen => "Unmatched closing paren"@,
        ParseError::UnmatchedOpeningBracket => "Unmatched opening bracket"@,
        ParseError::UnmatchedClosingBracket => "Unmatched closing bracket"@,
        ParseError::WrongBracket => "Wrong bracket"@,
    }
}

/// A reading of a line is what tokenizing it may give: tokens that read as
/// its units, or a reason where it has a numeric word.
pub open spec fn reading_fits(line: Seq<char>, read: Result<Seq<Token>, Seq<char>>) -> bool {
    match read {
        Ok(tokens) => reads_all(tokens, lex(line)),
        Err(_) => has_number(lex(line)),
    }
}

/// What a line gives before resolution, given its reading: its tree, or the
/// error that stops it.
pub open spec fn line_pipeline(read: Result<Seq<Token>, Seq<char>>) -> Result<Tree, Note> {
    match read {
        Err(reason) => Err(error_note(reason)),
        Ok(tokens) => match parsed(tokens) {
            Ok(t) => Ok(t),
            Err(e) => Err(error_note(parse_error_text(e))),
        },
    }
}

/// Each reading fits its line.
pub open spec fn readings_fit(lines: Seq<Seq<char>>, reads: Seq<Result<Seq<Token>, Seq<char>>>) -> bool {
    reads.len() == lines.len() && forall|k: int| 0 <= k < lines.len() ==> reading_fits(#[trigger] lines[k], reads[k])
}

/// What a session over the lines says, each message numbered by its line
/// from 1, and the bindings it leaves; it starts with no bindings.
pub open spec fn lines_session<A: Arithmetic>(arith: A, reads: Seq<Result<Seq<Token>, Seq<char>>>) -> (
    Seq<(usize, Note)>,
    Map<Seq<char>, Binding>,
)
    decreases reads.len(),
{
    if reads.len() == 0 {
        (Seq::empty(), Map::empty())
    } else {
        let n = reads.len();
        let p = lines_session(arith, reads.subrange(0, n - 1));
        let num = n as usize;
        match line_pipeline(reads[n - 1]) {
            Err(x) => (p.0.push((num, x)), p.1),
            Ok(t) => {
                let lr = line_result(arith, p.1, t);
                (p.0 + lr.0.map_values(|x: Note| (num, x)), lr.1)
            },
        }
    }
}

/// Resolves lines in order in one session. A line that cannot be read or
/// grouped gives its one error; any other line gives what resolving it in
/// the session so far gives. Each message carries its line's number, from 1.
pub fn resolve_lines<A: Arithmetic>(lines: Vec<String>, arith: A) -> (r: Vec<(usize, ResolveMessage)>)
    requires
        lines@.len() < usize::MAX,
    ensures
        exists|reads: Seq<Result<Seq<Token>, Seq<char>>>|
            readings_fit(views(lines@), reads) && numbered_notes(r@) == lines_session(arith, reads).0,
{
    let ghost ar = arith;
    let ghost all = views(lines@);
    let mut resolver = Resolver::new(arith);
    let mut out: Vec<(usize, ResolveMessage)> = Vec::new();
    let ghost mut reads: Seq<Result<Seq<Token>, Seq<char>>> = Seq::empty();
    let mut k: usize = 0;
    proof {
        assert(all.subrange(0, 0) =~= Seq::<Seq<char>>::empty());
        assert(numbered_notes(out@) =~= Seq::<(usize, Note)>::empty());
    }
    while k < lines.len()
        invariant
            k <= lines@.len(),
            lines@.len() < usize::MAX,
            all == views(lines@),
            resolver.arith == ar,
            readings_fit(all.subrange(0, k as int), reads),
            numbered_notes(out@) == lines_session(ar, reads).0,
            resolver.namespace@ == lines_session(ar, reads).1,
        decreases lines@.len() - k,
    {
        let line_num = k + 1;
        let ghost o0 = out@;
        let ghost line = all[k as int];
        proof {
            assert(line == lines@[k as int]@);
        }
        let tokenized = tokenizer::tokenize(lines[k].as_str(), &resolver.arith);
        let ghost read: Result<Seq<Token>, Seq<char>> = if tokenized is Ok {
            Ok(tokenized->Ok_0@)
        } else {
            Err(tokenized->Err_0->ParseFloatError_0@)
        };
        proof {
            let l2 = all.subrange(0, k + 1);
            let r2 = reads.push(read);
            assert(l2.subrange(0, k as int) =~= all.subrange(0, k as int));
            assert(r2.subrange(0, k as int) =~= reads);
            assert(l2[k as int] == line);
            assert forall|j: int| 0 <= j < l2.len() implies reading_fits(#[trigger] l2[j], r2[j]) by {
                if j < k {
                    assert(l2[j] == all.subrange(0, k as int)[j]);
                }
            }
        }
        let parsed_line = match tokenized {
            Ok(tokens) => match parsers::parse(&tokens) {
                Ok(tree) => Ok(tree),
                Err(err) => Err(PipelineError::ParsingError(err)),
            },
            Err(err) => Err(PipelineError::TokenizeError(err)),
        };
        match parsed_line {
            Ok(tree) => {
                let messages = resolver.resolve_line(tree);
                let mut messages = messages;
                let ghost tagged = notes(messages@).map_values(|x: Note| (line_num, x));
                proof {
                    assert(numbered_notes(out@) + notes(messages@).map_values(|x: Note| (line_num, x))
                        =~= numbered_notes(o0)
                        + tagged);
                }
                while messages.len() > 0
                    invariant
                        numbered_notes(out@) + notes(messages@).map_values(|x: Note| (line_num, x))
                            == numbered_notes(o0) + tagged,
                    decreases messages@.len(),
                {
                    let ghost m0 = messages@;
                    let ghost b0 = out@;
                    let m = messages.remove(0);
                    out.push((line_num, m));
                    proof {
                        assert(numbered_notes(out@) =~= numbered_notes(b0).push((line_num, note(m.msg_type, m.content@))));
                        assert(notes(m0).map_values(|x: Note| (line_num, x)) =~= seq![(line_num, note(m.msg_type, m.content@))]
                            + notes(messages@).map_values(|x: Note| (line_num, x)));
                        assert(numbered_notes(out@) + notes(messages@).map_values(|x: Note| (line_num, x))
                            =~= numbered_notes(b0) + notes(m0).map_values(|x: Note| (line_num, x)));
                    }
                }
                proof {
                    assert(notes(messages@).map_values(|x: Note| (line_num, x)) =~= Seq::<(usize, Note)>::empty());
                    assert(numbered_notes(out@) =~= numbered_notes(o0) + tagged);
                }
            },
            Err(err) => {
                let m = err.to_resolve_message();
                out.push((line_num, m));
                proof {
                    assert(numbered_notes(out@) =~= numbered_notes(o0).push((line_num, note(m.msg_type, m.content@))));
                }
            },
        }
        proof {
            reads = reads.push(read);
        }
        k += 1;
    }
    proof {
        assert(all.subrange(0, k as int) =~= all);
    }
    out
}

} // verus!
