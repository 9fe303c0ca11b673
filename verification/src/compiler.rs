//! The whole pipeline: source text in, assembly or an error message out.
use vstd::prelude::*;
use vstd::string::StringSliceAdditionalSpecFns;
use crate::codegen::{generate, program_text};
use crate::lexer::{lex, lex_spec, invalid_character_message, LexOutcome};
use crate::parser::{parse, parse_spec};
use crate::sema::{
    analyze, analyze_spec, analyzed_program_is_well_formed, small_programs_are_within_limits, stmts_size, within_limits,
    within_machine_limits,
};

verus! {

/// The message for a program too large for the frame arithmetic.
pub open spec fn too_large_message() -> Seq<char> {
    "program is too large"@
}

/// What compiling the source bytes `b` gives: the assembly, or the message of
/// the first stage that rejects the program.
pub open spec fn compile_spec(b: Seq<u8>) -> Result<Seq<char>, Seq<char>> {
    match lex_spec(b) {
        LexOutcome::Tokens(ts) => match parse_spec(ts) {
            Ok(fs) => if !within_limits(fs) {
                Err(too_large_message())
            } else {
                match analyze_spec(fs) {
                    Ok(p) => Ok(program_text(p)),
                    Err(m) => Err(m),
                }
            },
            Err(m) => Err(m),
        },
        LexOutcome::Invalid(p) => Err(invalid_character_message(p)),
        LexOutcome::Overflow => Err(seq![]),
    }
}

/// Compiles a program: lexes, parses, analyzes and generates its assembly.
/// Each stage's error message is passed on unchanged. A number literal that
/// does not fit in 64 bits is outside what this function accepts (see
/// `lexer::literals_fit`).
pub fn compile(input: &str) -> (r: Result<String, String>)
    requires
        !(lex_spec(input.spec_bytes()) is Overflow),
    ensures
        match compile_spec(input.spec_bytes()) {
            Ok(a) => r matches Ok(s) && s@ == a,
            Err(m) => r matches Err(e) && e@ == m,
        },
{
    let tokens = lex(input)?;
    let program = parse(tokens.as_slice())?;
    if !within_machine_limits(&program) {
        return Err(String::from_str("program is too large"));
    }
    let ghost fs = program@;
    proof {
        analyzed_program_is_well_formed(fs);
    }
    match analyze(program) {
        Ok(resolved) => Ok(generate(&resolved)),
        Err(e) => Err(e.to_string()),
    }
}

/// A program whose stages all succeed compiles to its assembly as long as
/// each function has at most 268435455 (2^28 - 1) parameters and statements
/// together; "program is too large" is left for programs beyond what any
/// machine could hold in memory.
pub proof fn compile_accepts_programs_of_any_practical_size(b: Seq<u8>)
    ensures
        lex_spec(b) matches LexOutcome::Tokens(ts) ==> (parse_spec(ts) matches Ok(fs) ==> (
            (forall|i: int| 0 <= i < fs.len() ==> (#[trigger] fs[i]).params.len() + stmts_size(fs[i].body) <= 268435455)
                ==> (analyze_spec(fs) matches Ok(p) ==> compile_spec(b) == Ok::<Seq<char>, Seq<char>>(program_text(p))))),
{
    if let LexOutcome::Tokens(ts) = lex_spec(b) {
        if let Ok(fs) = parse_spec(ts) {
            small_programs_are_within_limits(fs);
        }
    }
}

} // verus!
