//! Compiles templates that mix markup with `<% %>` code blocks into Rust
//! source that rebuilds the rendered text in an accumulator.
pub mod lexer;
pub mod parser;

use vstd::prelude::*;
use crate::lexer::lex;
use crate::parser::{generated, parse, GenerationError};

verus! {

/// `proc_macro2::TokenStream`, carried through as an opaque value.
#[verifier::external_type_specification]
#[verifier::external_body]
pub struct ExTokenStream(proc_macro2::TokenStream);

/// `proc_macro2::LexError`, carried through as an opaque value.
#[verifier::external_type_specification]
#[verifier::external_body]
pub struct ExLexError(proc_macro2::LexError);

/// Relies on `<proc_macro2::TokenStream as FromStr>::from_str` to turn the
/// text into a token stream. Nothing is assumed of the outcome: which lexer
/// decides depends on how the process runs.
#[verifier::external_body]
fn token_stream_from_str(code: &str) -> (r: Result<proc_macro2::TokenStream, proc_macro2::LexError>) {
    code.parse::<proc_macro2::TokenStream>()
}

/// Compiles a template into a token stream of Rust code whose value is the
/// rendered text. Fails, with the generated code, where the code does not
/// read as Rust tokens.
pub fn preprocess_and_generate_rust_code(content: &str) -> (r: Result<
    proc_macro2::TokenStream,
    GenerationError,
>)
    ensures
        r is Err ==> r->Err_0.code@ == generated(lex(content@)),
{
    match parse(content) {
        Ok(code) => match token_stream_from_str(code.as_str()) {
            Ok(stream) => Ok(stream),
            Err(e) => Err(GenerationError { message: e.to_string(), code }),
        },
        Err(e) => Err(e),
    }
}

} // verus!
