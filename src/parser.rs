use vstd::prelude::*;
use crate::lexer::{
    chars_of, is_opener, lemma_literal_end_bounds, lex, lex_from, lexer, opens_at, views, well_formed,
    HustToken, TokenView,
};

verus! {

/// How the code of a block is used, as told by its opener.
#[derive(Clone, Copy, Debug, PartialEq, Eq, Structural)]
pub enum BlockKind {
    /// `<%`: statements, emitted as they are.
    Silent,
    /// `<%=`: an expression whose value is appended to the output.
    Expression,
    /// `<%#`: a comment, emitted as nothing.
    Comment,
}

/// The line that declares the accumulator.
pub open spec fn header() -> Seq<char> {
    "let mut output_buffer = String::new();\n"@
}

/// What a single character of markup becomes inside a string literal.
pub open spec fn escape_char(c: char) -> Seq<char> {
    if c == '\\' {
        "\\\\"@
    } else if c == '"' {
        "\\\""@
    } else {
        seq![c]
    }
}

/// Markup with each backslash and each quote escaped.
pub open spec fn escape(s: Seq<char>) -> Seq<char>
    decreases s.len(),
{
    if s.len() == 0 {
        Seq::empty()
    } else {
        escape(s.drop_last()) + escape_char(s.last())
    }
}

/// The block kind that a code token meets after the first `k` tokens of
/// `ts`: set by an opener, cleared by a code token.
pub open spec fn pending_after(ts: Seq<TokenView>, k: int) -> Option<BlockKind>
    decreases k,
{
    if k <= 0 || k > ts.len() {
        None
    } else {
        match ts[k - 1] {
            TokenView::CodeStartSilent => Some(BlockKind::Silent),
            TokenView::CodeStartString => Some(BlockKind::Expression),
            TokenView::CodeComment => Some(BlockKind::Comment),
            TokenView::Code(_) => None,
            _ => pending_after(ts, k - 1),
        }
    }
}

/// The text emitted for one token, given the pending block kind.
pub open spec fn statement(t: TokenView, pending: Option<BlockKind>) -> Seq<char> {
    match t {
        TokenView::Html(h) => "output_buffer.push_str(\""@ + escape(h) + "\");\n"@,
        TokenView::Code(c) => match pending {
            Some(BlockKind::Expression) => "output_buffer.push_str("@ + c + ");\n"@,
            Some(BlockKind::Comment) => Seq::empty(),
            _ => c + "\n"@,
        },
        TokenView::EOF => "output_buffer"@,
        _ => Seq::empty(),
    }
}

/// The statements emitted for the first `k` tokens of `ts`.
pub open spec fn statements(ts: Seq<TokenView>, k: int) -> Seq<char>
    decreases k,
{
    if k <= 0 || k > ts.len() {
        Seq::empty()
    } else {
        statements(ts, k - 1) + statement(ts[k - 1], pending_after(ts, k - 1))
    }
}

/// The code generated for a sequence of tokens.
pub open spec fn generated(ts: Seq<TokenView>) -> Seq<char> {
    header() + statements(ts, ts.len() as int)
}

/// A non-empty template with no `<%` in it is a single markup run, and its
/// code appends that run, escaped, and then yields the accumulator.
pub proof fn lemma_plain_text(s: Seq<char>)
    requires
        s.len() > 0,
        forall|j: int| !opens_at(s, j),
    ensures
        lex(s) == seq![TokenView::Html(s), TokenView::EOF],
        generated(lex(s)) == header() + ("output_buffer.push_str(\""@ + escape(s) + "\");\n"@)
            + "output_buffer"@,
{
    lemma_literal_end_bounds(s, 1);
    assert(s.subrange(0, s.len() as int) =~= s);
    assert(lex_from(s, s.len() as int) == seq![TokenView::EOF]);
    assert(lex(s) =~= seq![TokenView::Html(s), TokenView::EOF]);
    let ts = lex(s);
    assert(statements(ts, 0) == Seq::<char>::empty());
    assert(pending_after(ts, 0) == None::<BlockKind>);
    assert(statements(ts, 1) =~= statement(TokenView::Html(s), None));
    assert(statements(ts, 2) == statements(ts, 1) + statement(TokenView::EOF, pending_after(ts, 1)));
    assert(header() + statements(ts, 2) =~= header() + ("output_buffer.push_str(\""@ + escape(s)
        + "\");\n"@) + "output_buffer"@);
}

/// In well-formed tokens each code token meets the kind of the opener just
/// before it, so code is never emitted without a block kind.
pub proof fn lemma_code_has_kind(ts: Seq<TokenView>, k: int)
    requires
        well_formed(ts),
        0 <= k < ts.len(),
        ts[k] is Code,
    ensures
        pending_after(ts, k) is Some,
        ts[k - 1] is CodeStartString ==> pending_after(ts, k) == Some(BlockKind::Expression),
        ts[k - 1] is CodeStartSilent ==> pending_after(ts, k) == Some(BlockKind::Silent),
        ts[k - 1] is CodeComment ==> pending_after(ts, k) == Some(BlockKind::Comment),
{
    assert(is_opener(ts[k - 1]));
}

/// Escapes backslashes and quotes so that markup can stand inside a Rust
/// string literal.
pub fn escape_html(html: &str) -> (r: String)
    ensures
        r@ == escape(html@),
{
    let chars = chars_of(html);
    let n = chars.len();
    let mut out = String::new();
    let mut run: usize = 0;
    let mut j: usize = 0;
    while j < n
        invariant
            chars@ == html@,
            n == html@.len(),
            run <= j <= n,
            out@ + html@.subrange(run as int, j as int) == escape(html@.subrange(0, j as int)),
        decreases n - j,
    {
        let c = chars[j];
        let ghost s = html@;
        assert(s.subrange(0, j + 1).drop_last() =~= s.subrange(0, j as int));
        if c == '\\' || c == '"' {
            out.append(html.substring_char(run, j));
            if c == '\\' {
                out.append("\\\\");
            } else {
                out.append("\\\"");
            }
            run = j + 1;
            assert(s.subrange(run as int, j + 1) =~= Seq::<char>::empty());
        } else {
            assert(s.subrange(run as int, j + 1) =~= s.subrange(run as int, j as int) + seq![c]);
        }
        j = j + 1;
    }
    out.append(html.substring_char(run, n));
    assert(html@.subrange(0, n as int) =~= html@);
    out
}

/// Turns tokens into Rust code that declares an accumulator, appends each
/// markup run and each expression's value to it in order, runs silent
/// blocks as statements, skips comments, and ends with the accumulator.
pub fn generate(tokens: &Vec<HustToken>) -> (code: String)
    ensures
        code@ == generated(views(tokens@)),
{
    let ghost ts = views(tokens@);
    let mut out = "let mut output_buffer = String::new();\n".to_owned();
    let mut pending: Option<BlockKind> = None;
    let mut k: usize = 0;
    while k < tokens.len()
        invariant
            ts == views(tokens@),
            k <= tokens.len(),
            out@ == header() + statements(ts, k as int),
            pending == pending_after(ts, k as int),
        decreases tokens.len() - k,
    {
        assert(ts[k as int] == tokens@[k as int]@);
        match &tokens[k] {
            HustToken::Html(h) => {
                let escaped = escape_html(h.as_str());
                out.append("output_buffer.push_str(\"");
                out.append(escaped.as_str());
                out.append("\");\n");
            },
            HustToken::CodeStartSilent => {
                pending = Some(BlockKind::Silent);
            },
            HustToken::CodeStartString => {
                pending = Some(BlockKind::Expression);
            },
            HustToken::CodeComment => {
                pending = Some(BlockKind::Comment);
            },
            HustToken::Code(c) => {
                match pending {
                    Some(BlockKind::Expression) => {
                        out.append("output_buffer.push_str(");
                        out.append(c.as_str());
                        out.append(");\n");
                    },
                    Some(BlockKind::Comment) => {},
                    _ => {
                        out.append(c.as_str());
                        out.append("\n");
                    },
                }
                pending = None;
            },
            HustToken::EOF => {
                out.append("output_buffer");
            },
        }
        k = k + 1;
    }
    out
}

/// How a token sequence breaks the shape that lexing gives.
#[derive(Clone, Copy, Debug, PartialEq, Eq, Structural)]
pub enum StructureError {
    /// The sequence is empty or does not end with `EOF`.
    MissingEof,
    /// An `EOF` at this position comes before the last token.
    EofBeforeEnd(usize),
    /// The code token at this position does not follow an opener.
    CodeWithoutOpener(usize),
    /// The opener at this position is not followed by a code token.
    OpenerWithoutCode(usize),
}

/// Whether the token opens a block.
fn is_opener_exec(t: &HustToken) -> (r: bool)
    ensures
        r == is_opener(t@),
{
    match t {
        HustToken::CodeStartSilent | HustToken::CodeStartString | HustToken::CodeComment => true,
        _ => false,
    }
}

/// Checks that tokens have the shape that lexing gives, the one `generate`
/// relies on to know the kind of each block: it names the first position
/// where the shape breaks.
pub fn check_structure(tokens: &Vec<HustToken>) -> (r: Result<(), StructureError>)
    ensures
        r is Ok <==> well_formed(views(tokens@)),
        r matches Err(StructureError::MissingEof) ==> tokens.len() == 0 || !(
        tokens@.last() is EOF),
        r matches Err(StructureError::EofBeforeEnd(k)) ==> k + 1 < tokens.len()
            && tokens@[k as int] is EOF,
        r matches Err(StructureError::CodeWithoutOpener(k)) ==> k < tokens.len()
            && tokens@[k as int] is Code && !(k > 0 && is_opener(tokens@[k - 1]@)),
        r matches Err(StructureError::OpenerWithoutCode(k)) ==> k + 1 < tokens.len()
            && is_opener(tokens@[k as int]@) && !(tokens@[k + 1] is Code),
{
    let ghost ts = views(tokens@);
    let n = tokens.len();
    if n == 0 {
        return Err(StructureError::MissingEof);
    }
    let mut k: usize = 0;
    while k < n
        invariant
            ts == views(tokens@),
            n == tokens.len(),
            k <= n,
            forall|j: int| 0 <= j < k && j < n - 1 ==> !(#[trigger] ts[j] is EOF),
            forall|j: int|
                0 <= j < k ==> (#[trigger] ts[j] is Code <==> (j > 0 && is_opener(ts[j - 1]))),
        decreases n - k,
    {
        assert(ts[k as int] == tokens@[k as int]@);
        let is_code = matches!(tokens[k], HustToken::Code(_));
        let after_opener = k > 0 && is_opener_exec(&tokens[k - 1]);
        if k > 0 {
            assert(ts[k - 1] == tokens@[k - 1]@);
        }
        if is_code && !after_opener {
            return Err(StructureError::CodeWithoutOpener(k));
        }
        if !is_code && after_opener {
            return Err(StructureError::OpenerWithoutCode(k - 1));
        }
        if k + 1 < n && matches!(tokens[k], HustToken::EOF) {
            return Err(StructureError::EofBeforeEnd(k));
        }
        k = k + 1;
    }
    assert(ts[n - 1] == tokens@[n - 1]@);
    if !matches!(tokens[n - 1], HustToken::EOF) {
        return Err(StructureError::MissingEof);
    }
    Ok(())
}

/// Why generated code was refused: the checker's message, and the code.
pub struct GenerationError {
    pub message: String,
    pub code: String,
}

/// `syn::Error`, carried through as an opaque value.
#[verifier::external_type_specification]
#[verifier::external_body]
pub struct ExSynError(syn::Error);

/// Relies on `syn::parse_str::<proc_macro2::TokenStream>` to read the text
/// as Rust tokens. Nothing is assumed of the outcome: which lexer decides
/// depends on how the process runs.
#[verifier::external_body]
fn syn_token_stream(code: &str) -> (r: Result<proc_macro2::TokenStream, syn::Error>) {
    syn::parse_str::<proc_macro2::TokenStream>(code)
}

/// Settles the outcome of generation once the code has been checked:
/// the code itself when the checker gave no diagnostic, else an error that
/// carries the diagnostic and the code.
pub fn accept_checked(code: String, diagnostic: Option<String>) -> (r: Result<String, GenerationError>)
    ensures
        diagnostic is None <==> r is Ok,
        r is Ok ==> r->Ok_0@ == code@,
        r is Err ==> r->Err_0.code@ == code@ && r->Err_0.message@ == diagnostic->Some_0@,
{
    match diagnostic {
        None => Ok(code),
        Some(message) => Err(GenerationError { message, code }),
    }
}

/// Compiles a template to Rust code and checks that the code reads as Rust
/// tokens; a failed check is returned as an error with the code.
pub fn parse(content: &str) -> (r: Result<String, GenerationError>)
    ensures
        r is Ok ==> r->Ok_0@ == generated(lex(content@)),
        r is Err ==> r->Err_0.code@ == generated(lex(content@)),
{
    let tokens = lexer(content);
    let code = generate(&tokens);
    let diagnostic = match syn_token_stream(code.as_str()) {
        Ok(_) => None,
        Err(e) => Some(e.to_string()),
    };
    accept_checked(code, diagnostic)
}

} // verus!
