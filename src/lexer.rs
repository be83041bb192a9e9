use vstd::prelude::*;
use vstd::std_specs::iter::IteratorSpec;

verus! {

broadcast use vstd::string::axiom_spec_iter, vstd::string::next_postcondition;

/// One token of a template.
#[derive(Debug, PartialEq)]
pub enum HustToken {
    /// Raw markup text between code blocks.
    Html(String),
    /// `<%`: the following code runs as statements.
    CodeStartSilent,
    /// `<%=`: the following code is an expression whose value is appended.
    CodeStartString,
    /// `<%#`: the following code is a comment.
    CodeComment,
    /// The text between a block opener and its `%>`.
    Code(String),
    /// The end of the template; always the last token.
    EOF,
}

/// Mathematical model of a token.
pub ghost enum TokenView {
    Html(Seq<char>),
    CodeStartSilent,
    CodeStartString,
    CodeComment,
    Code(Seq<char>),
    EOF,
}

impl View for HustToken {
    type V = TokenView;

    open spec fn view(&self) -> TokenView {
        match self {
            HustToken::Html(s) => TokenView::Html(s@),
            HustToken::CodeStartSilent => TokenView::CodeStartSilent,
            HustToken::CodeStartString => TokenView::CodeStartString,
            HustToken::CodeComment => TokenView::CodeComment,
            HustToken::Code(s) => TokenView::Code(s@),
            HustToken::EOF => TokenView::EOF,
        }
    }
}

/// The models of a sequence of tokens.
pub open spec fn views(ts: Seq<HustToken>) -> Seq<TokenView> {
    ts.map_values(|t: HustToken| t@)
}

/// A block opener `<%` starts at `i`.
pub open spec fn opens_at(s: Seq<char>, i: int) -> bool {
    0 <= i && i + 1 < s.len() && s[i] == '<' && s[i + 1] == '%'
}

/// A block closer `%>` starts at `i`.
pub open spec fn closes_at(s: Seq<char>, i: int) -> bool {
    0 <= i && i + 1 < s.len() && s[i] == '%' && s[i + 1] == '>'
}

/// The first position at or after `i` where a block opens, or the end of `s`.
pub open spec fn literal_end(s: Seq<char>, i: int) -> int
    decreases s.len() - i,
{
    if i >= s.len() {
        s.len() as int
    } else if opens_at(s, i) {
        i
    } else {
        literal_end(s, i + 1)
    }
}

/// The first position at or after `i` where a block closes, or the end of `s`.
pub open spec fn code_end(s: Seq<char>, i: int) -> int
    decreases s.len() - i,
{
    if i >= s.len() {
        s.len() as int
    } else if closes_at(s, i) {
        i
    } else {
        code_end(s, i + 1)
    }
}

/// The token for the block opener at `i`, told by the character after `<%`.
pub open spec fn start_token(s: Seq<char>, i: int) -> TokenView {
    if i + 2 < s.len() && s[i + 2] == '=' {
        TokenView::CodeStartString
    } else if i + 2 < s.len() && s[i + 2] == '#' {
        TokenView::CodeComment
    } else {
        TokenView::CodeStartSilent
    }
}

/// Where the code of the block opened at `i` begins.
pub open spec fn body_start(s: Seq<char>, i: int) -> int {
    if i + 2 < s.len() && (s[i + 2] == '=' || s[i + 2] == '#') {
        i + 3
    } else {
        i + 2
    }
}

/// Where scanning resumes after code that ends at `e`: past its `%>`, or at
/// the end of `s` when the block is never closed.
pub open spec fn after_code(s: Seq<char>, e: int) -> int {
    if e < s.len() {
        e + 2
    } else {
        s.len() as int
    }
}

/// The tokens of `s` from position `i` on.
pub open spec fn lex_from(s: Seq<char>, i: int) -> Seq<TokenView>
    decreases s.len() - i,
    via lex_from_decreases
{
    if i < 0 || i >= s.len() {
        seq![TokenView::EOF]
    } else if opens_at(s, i) {
        let b = body_start(s, i);
        let e = code_end(s, b);
        seq![start_token(s, i), TokenView::Code(s.subrange(b, e))] + lex_from(s, after_code(s, e))
    } else {
        let e = literal_end(s, i + 1);
        seq![TokenView::Html(s.subrange(i, e))] + lex_from(s, e)
    }
}

#[via_fn]
proof fn lex_from_decreases(s: Seq<char>, i: int) {
    if 0 <= i < s.len() {
        if opens_at(s, i) {
            lemma_code_end_bounds(s, body_start(s, i));
        } else {
            lemma_literal_end_bounds(s, i + 1);
        }
    }
}

/// The tokens of a whole template.
pub open spec fn lex(s: Seq<char>) -> Seq<TokenView> {
    lex_from(s, 0)
}

/// `literal_end` lies between `i` and the end, at an opener or the end,
/// with no opener before it.
pub proof fn lemma_literal_end_bounds(s: Seq<char>, i: int)
    requires
        0 <= i <= s.len(),
    ensures
        i <= literal_end(s, i) <= s.len(),
        literal_end(s, i) == s.len() || opens_at(s, literal_end(s, i)),
        forall|j: int| i <= j < literal_end(s, i) ==> !opens_at(s, j),
    decreases s.len() - i,
{
    if i < s.len() && !opens_at(s, i) {
        lemma_literal_end_bounds(s, i + 1);
    }
}

/// `code_end` lies between `i` and the end, at a closer or the end, with no
/// closer before it.
pub proof fn lemma_code_end_bounds(s: Seq<char>, i: int)
    requires
        0 <= i <= s.len(),
    ensures
        i <= code_end(s, i) <= s.len(),
        code_end(s, i) == s.len() || closes_at(s, code_end(s, i)),
        forall|j: int| i <= j < code_end(s, i) ==> !closes_at(s, j),
    decreases s.len() - i,
{
    if i < s.len() && !closes_at(s, i) {
        lemma_code_end_bounds(s, i + 1);
    }
}

/// The token opens a block.
pub open spec fn is_opener(t: TokenView) -> bool {
    t is CodeStartSilent || t is CodeStartString || t is CodeComment
}

/// The shape of every token sequence that lexing produces: it ends with the
/// only `EOF`, and a code token stands exactly after each opener.
pub open spec fn well_formed(ts: Seq<TokenView>) -> bool {
    &&& ts.len() > 0
    &&& ts.last() is EOF
    &&& forall|k: int| 0 <= k < ts.len() - 1 ==> !(#[trigger] ts[k] is EOF)
    &&& forall|k: int| 0 <= k < ts.len() ==> (#[trigger] ts[k] is Code <==> (k > 0 && is_opener(ts[k - 1])))
}

proof fn lemma_well_formed_from(s: Seq<char>, i: int)
    requires
        0 <= i <= s.len(),
    ensures
        well_formed(lex_from(s, i)),
    decreases s.len() - i,
{
    if i < s.len() {
        if opens_at(s, i) {
            let b = body_start(s, i);
            let e = code_end(s, b);
            lemma_code_end_bounds(s, b);
            let rest = lex_from(s, after_code(s, e));
            lemma_well_formed_from(s, after_code(s, e));
            let ts = seq![start_token(s, i), TokenView::Code(s.subrange(b, e))] + rest;
            assert(ts == lex_from(s, i));
            assert(rest[0] == ts[2]);
            assert forall|k: int| 0 <= k < ts.len() implies (#[trigger] ts[k] is Code <==> (k > 0
                && is_opener(ts[k - 1]))) by {
                if k >= 3 {
                    assert(ts[k] == rest[k - 2] && ts[k - 1] == rest[k - 3]);
                }
            }
            assert forall|k: int| 0 <= k < ts.len() - 1 implies !(#[trigger] ts[k] is EOF) by {
                if k >= 2 {
                    assert(ts[k] == rest[k - 2]);
                }
            }
        } else {
            let e = literal_end(s, i + 1);
            lemma_literal_end_bounds(s, i + 1);
            let rest = lex_from(s, e);
            lemma_well_formed_from(s, e);
            let ts = seq![TokenView::Html(s.subrange(i, e))] + rest;
            assert(ts == lex_from(s, i));
            assert(rest[0] == ts[1]);
            assert forall|k: int| 0 <= k < ts.len() implies (#[trigger] ts[k] is Code <==> (k > 0
                && is_opener(ts[k - 1]))) by {
                if k >= 2 {
                    assert(ts[k] == rest[k - 1] && ts[k - 1] == rest[k - 2]);
                }
            }
            assert forall|k: int| 0 <= k < ts.len() - 1 implies !(#[trigger] ts[k] is EOF) by {
                if k >= 1 {
                    assert(ts[k] == rest[k - 1]);
                }
            }
        }
    }
}

/// The tokens of every template are well formed.
pub proof fn lemma_lex_well_formed(s: Seq<char>)
    ensures
        well_formed(lex(s)),
{
    lemma_well_formed_from(s, 0);
}

/// The template text that a token stands for, delimiters included.
pub open spec fn token_source(t: TokenView) -> Seq<char> {
    match t {
        TokenView::Html(h) => h,
        TokenView::CodeStartSilent => seq!['<', '%'],
        TokenView::CodeStartString => seq!['<', '%', '='],
        TokenView::CodeComment => seq!['<', '%', '#'],
        TokenView::Code(c) => c + seq!['%', '>'],
        TokenView::EOF => Seq::empty(),
    }
}

/// The template rebuilt from tokens: their texts in order, with the
/// delimiters put back.
pub open spec fn source_of(ts: Seq<TokenView>) -> Seq<char>
    decreases ts.len(),
{
    if ts.len() == 0 {
        Seq::empty()
    } else {
        token_source(ts[0]) + source_of(ts.drop_first())
    }
}

/// Where the block that is left open starts, when lexing `s` from `i` on
/// ends inside a block that is never closed.
pub open spec fn unclosed_from(s: Seq<char>, i: int) -> Option<int>
    decreases s.len() - i,
    via unclosed_from_decreases
{
    if i < 0 || i >= s.len() {
        None
    } else if opens_at(s, i) {
        let e = code_end(s, body_start(s, i));
        if e >= s.len() {
            Some(i)
        } else {
            unclosed_from(s, e + 2)
        }
    } else {
        unclosed_from(s, literal_end(s, i + 1))
    }
}

#[via_fn]
proof fn unclosed_from_decreases(s: Seq<char>, i: int) {
    if 0 <= i < s.len() {
        if opens_at(s, i) {
            lemma_code_end_bounds(s, body_start(s, i));
        } else {
            lemma_literal_end_bounds(s, i + 1);
        }
    }
}

/// Lexing `s` from `i` on ends inside a block that is never closed.
pub open spec fn ends_open(s: Seq<char>, i: int) -> bool {
    unclosed_from(s, i) is Some
}

/// What rebuilding the template adds at its end: the closer of a block
/// that was left open, else nothing.
pub open spec fn missing_closer(s: Seq<char>) -> Seq<char> {
    if ends_open(s, 0) {
        seq!['%', '>']
    } else {
        Seq::empty()
    }
}

proof fn lemma_source_of_two(x: TokenView, y: TokenView, rest: Seq<TokenView>)
    ensures
        source_of(seq![x, y] + rest) == token_source(x) + token_source(y) + source_of(rest),
{
    let ts = seq![x, y] + rest;
    assert(ts[0] == x);
    assert(ts.drop_first() =~= seq![y] + rest);
    lemma_source_of_one(y, rest);
    assert(token_source(x) + (token_source(y) + source_of(rest)) =~= token_source(x)
        + token_source(y) + source_of(rest));
}

proof fn lemma_source_of_one(x: TokenView, rest: Seq<TokenView>)
    ensures
        source_of(seq![x] + rest) == token_source(x) + source_of(rest),
{
    assert((seq![x] + rest)[0] == x);
    assert((seq![x] + rest).drop_first() =~= rest);
}

proof fn lemma_source_from(s: Seq<char>, i: int)
    requires
        0 <= i <= s.len(),
    ensures
        source_of(lex_from(s, i)) == s.subrange(i, s.len() as int) + (if ends_open(s, i) {
            seq!['%', '>']
        } else {
            Seq::empty()
        }),
    decreases s.len() - i,
{
    if i == s.len() {
        lemma_source_of_one(TokenView::EOF, Seq::empty());
        assert(source_of(Seq::<TokenView>::empty()) == Seq::<char>::empty());
        assert(s.subrange(i, s.len() as int) + Seq::<char>::empty() =~= Seq::<char>::empty());
    } else if opens_at(s, i) {
        let b = body_start(s, i);
        let e = code_end(s, b);
        lemma_code_end_bounds(s, b);
        let next = after_code(s, e);
        lemma_source_from(s, next);
        lemma_source_of_two(start_token(s, i), TokenView::Code(s.subrange(b, e)), lex_from(s, next));
        assert(token_source(start_token(s, i)) =~= s.subrange(i, b));
        if e < s.len() {
            assert(s.subrange(e, e + 2) =~= seq!['%', '>']);
            assert(s.subrange(i, s.len() as int) =~= s.subrange(i, b) + s.subrange(b, e)
                + s.subrange(e, e + 2) + s.subrange(e + 2, s.len() as int));
        } else {
            assert(s.subrange(i, s.len() as int) =~= s.subrange(i, b) + s.subrange(b, e));
            assert(s.subrange(next, s.len() as int) =~= Seq::<char>::empty());
        }
    } else {
        let e = literal_end(s, i + 1);
        lemma_literal_end_bounds(s, i + 1);
        lemma_source_from(s, e);
        lemma_source_of_one(TokenView::Html(s.subrange(i, e)), lex_from(s, e));
        assert(s.subrange(i, s.len() as int) =~= s.subrange(i, e) + s.subrange(e, s.len() as int));
    }
}

/// Lexing loses nothing: rebuilding the template from its tokens gives the
/// template back, with a closing `%>` added where the last block was left
/// open.
pub proof fn lemma_lossless(s: Seq<char>)
    ensures
        source_of(lex(s)) == s + missing_closer(s),
{
    lemma_source_from(s, 0);
    assert(s.subrange(0, s.len() as int) =~= s);
}

proof fn lemma_literal_end_closed(s: Seq<char>, j: int)
    requires
        0 <= j <= s.len(),
        literal_end(s, j) < s.len(),
    ensures
        literal_end(s + seq!['%', '>'], j) == literal_end(s, j),
    decreases s.len() - j,
{
    let t = s + seq!['%', '>'];
    if !opens_at(s, j) {
        lemma_literal_end_bounds(s, j + 1);
        lemma_literal_end_closed(s, j + 1);
        assert(!opens_at(t, j));
    } else {
        assert(opens_at(t, j));
    }
}

proof fn lemma_code_end_closed(s: Seq<char>, j: int)
    requires
        0 <= j <= s.len(),
    ensures
        code_end(s + seq!['%', '>'], j) == code_end(s, j),
    decreases s.len() - j,
{
    let t = s + seq!['%', '>'];
    if j == s.len() {
        assert(closes_at(t, j));
    } else if closes_at(s, j) {
        assert(closes_at(t, j));
    } else {
        lemma_code_end_closed(s, j + 1);
        assert(!closes_at(t, j));
    }
}

proof fn lemma_relex_closed(s: Seq<char>, i: int)
    requires
        0 <= i <= s.len(),
        ends_open(s, i),
    ensures
        lex_from(s + seq!['%', '>'], i) == lex_from(s, i),
    decreases s.len() - i,
{
    let t = s + seq!['%', '>'];
    if opens_at(s, i) {
        assert(opens_at(t, i));
        let b = body_start(s, i);
        assert(body_start(t, i) == b);
        assert(start_token(t, i) == start_token(s, i));
        let e = code_end(s, b);
        lemma_code_end_bounds(s, b);
        lemma_code_end_closed(s, b);
        assert(t.subrange(b, e) =~= s.subrange(b, e));
        if e < s.len() {
            assert(ends_open(s, e + 2));
            lemma_relex_closed(s, e + 2);
        } else {
            assert(after_code(t, e) == t.len());
            assert(lex_from(t, after_code(t, e)) == seq![TokenView::EOF]);
            assert(lex_from(s, after_code(s, e)) == seq![TokenView::EOF]);
        }
        assert(lex_from(t, i) == seq![start_token(t, i), TokenView::Code(t.subrange(b, e))]
            + lex_from(t, after_code(t, e)));
    } else {
        let e = literal_end(s, i + 1);
        lemma_literal_end_bounds(s, i + 1);
        assert(ends_open(s, e));
        lemma_literal_end_closed(s, i + 1);
        assert(!opens_at(t, i));
        assert(t.subrange(i, e) =~= s.subrange(i, e));
        lemma_relex_closed(s, e);
    }
}

/// Lexing the template rebuilt from a template's tokens gives the same
/// tokens again.
pub proof fn lemma_relex_idempotent(s: Seq<char>)
    ensures
        lex(source_of(lex(s))) == lex(s),
{
    lemma_lossless(s);
    if ends_open(s, 0) {
        lemma_relex_closed(s, 0);
    } else {
        assert(s + missing_closer(s) =~= s);
    }
}

/// The characters of `content`, in order.
pub(crate) fn chars_of(content: &str) -> (r: Vec<char>)
    ensures
        r@ == content@,
{
    let mut it = content.chars();
    let mut r: Vec<char> = Vec::new();
    loop
        invariant
            r@ + it.remaining() == content@,
        ensures
            r@ == content@,
        decreases content@.len() - r@.len(),
    {
        match it.next() {
            Some(c) => {
                r.push(c);
            },
            None => {
                assert(r@ =~= content@);
                break;
            },
        }
    }
    r
}

/// Whether a block opens at `i`, read off the characters of the template.
fn opens_at_exec(chars: &Vec<char>, i: usize) -> (r: bool)
    ensures
        r == opens_at(chars@, i as int),
{
    i < chars.len() && i + 1 < chars.len() && chars[i] == '<' && chars[i + 1] == '%'
}

/// Whether a block closes at `i`, read off the characters of the template.
fn closes_at_exec(chars: &Vec<char>, i: usize) -> (r: bool)
    ensures
        r == closes_at(chars@, i as int),
{
    i < chars.len() && i + 1 < chars.len() && chars[i] == '%' && chars[i + 1] == '>'
}

/// The first position at or after `start` where a block opens, or the end.
fn find_open(chars: &Vec<char>, start: usize) -> (r: usize)
    requires
        start <= chars.len(),
    ensures
        r == literal_end(chars@, start as int),
        start <= r <= chars.len(),
{
    let mut j: usize = start;
    while j < chars.len() && !opens_at_exec(chars, j)
        invariant
            start <= j <= chars.len(),
            literal_end(chars@, j as int) == literal_end(chars@, start as int),
        decreases chars.len() - j,
    {
        j = j + 1;
    }
    j
}

/// The first position at or after `start` where a block closes, or the end.
fn find_close(chars: &Vec<char>, start: usize) -> (r: usize)
    requires
        start <= chars.len(),
    ensures
        r == code_end(chars@, start as int),
        start <= r <= chars.len(),
        r < chars.len() ==> closes_at(chars@, r as int),
{
    let mut j: usize = start;
    while j < chars.len() && !closes_at_exec(chars, j)
        invariant
            start <= j <= chars.len(),
            code_end(chars@, j as int) == code_end(chars@, start as int),
        decreases chars.len() - j,
    {
        j = j + 1;
    }
    j
}

/// Where the code of the block opened at `i` begins.
fn body_start_exec(chars: &Vec<char>, i: usize) -> (r: usize)
    requires
        opens_at(chars@, i as int),
    ensures
        r == body_start(chars@, i as int),
{
    assert(i + 2 <= chars.len());
    if i + 2 < chars.len() && (chars[i + 2] == '=' || chars[i + 2] == '#') {
        i + 3
    } else {
        i + 2
    }
}

/// Reads the markup run that starts at `start`, up to the next `<%` or the
/// end, and returns its token with the position just past it.
fn collect_html(content: &str, chars: &Vec<char>, start: usize) -> (r: (HustToken, usize))
    requires
        chars@ == content@,
        start < chars.len(),
    ensures
        r.1 == literal_end(chars@, start + 1),
        r.0@ == TokenView::Html(chars@.subrange(start as int, r.1 as int)),
{
    let j = find_open(chars, start + 1);
    (HustToken::Html(content.substring_char(start, j).to_owned()), j)
}

/// Reads the code that starts at `start`, up to the next `%>` or the end,
/// and returns its token with the position just past the closer.
fn collect_code(content: &str, chars: &Vec<char>, start: usize) -> (r: (HustToken, usize))
    requires
        chars@ == content@,
        start <= chars.len(),
    ensures
        r.0@ == TokenView::Code(chars@.subrange(start as int, code_end(chars@, start as int))),
        r.1 == after_code(chars@, code_end(chars@, start as int)),
{
    let j = find_close(chars, start);
    let code = HustToken::Code(content.substring_char(start, j).to_owned());
    if j < chars.len() {
        (code, j + 2)
    } else {
        (code, j)
    }
}

/// The error of a template that lexing refuses.
#[derive(Clone, Copy, Debug, PartialEq, Eq, Structural)]
pub enum LexingError {
    /// A block opened at this character position is never closed.
    UnterminatedBlock(usize),
}

/// The character position of the opener of a block that is never closed,
/// if the template has one.
pub fn unclosed_block(content: &str) -> (r: Option<usize>)
    ensures
        r is None <==> unclosed_from(content@, 0) is None,
        r is Some ==> unclosed_from(content@, 0) == Some(r->Some_0 as int),
{
    let chars = chars_of(content);
    let mut i: usize = 0;
    while i < chars.len()
        invariant
            chars@ == content@,
            i <= chars.len(),
            unclosed_from(chars@, i as int) == unclosed_from(chars@, 0),
        decreases chars.len() - i,
    {
        if opens_at_exec(&chars, i) {
            let b = body_start_exec(&chars, i);
            proof {
                lemma_code_end_bounds(chars@, b as int);
            }
            let e = find_close(&chars, b);
            if e >= chars.len() {
                return Some(i);
            }
            i = e + 2;
        } else {
            proof {
                lemma_literal_end_bounds(chars@, i + 1);
            }
            i = find_open(&chars, i + 1);
        }
    }
    None
}

/// Splits a template into tokens as `lexer` does, but refuses a template
/// with a block that is never closed, naming where that block opens.
pub fn lexer_checked(content: &str) -> (r: Result<Vec<HustToken>, LexingError>)
    ensures
        r is Ok <==> !ends_open(content@, 0),
        r is Ok ==> views(r->Ok_0@) == lex(content@),
        r is Err ==> Some(r->Err_0->UnterminatedBlock_0 as int) == unclosed_from(content@, 0),
{
    match unclosed_block(content) {
        Some(p) => Err(LexingError::UnterminatedBlock(p)),
        None => Ok(lexer(content)),
    }
}

/// Splits a template into tokens: runs of markup, block openers with the
/// code that follows each, and a final `EOF`. A block that is never closed
/// takes the rest of the template as its code.
pub fn lexer(content: &str) -> (tokens: Vec<HustToken>)
    ensures
        views(tokens@) == lex(content@),
{
    let chars = chars_of(content);
    let mut tokens: Vec<HustToken> = Vec::new();
    let mut i: usize = 0;
    while i < chars.len()
        invariant
            chars@ == content@,
            i <= chars.len(),
            views(tokens@) + lex_from(chars@, i as int) == lex(content@),
        decreases chars.len() - i,
    {
        let ghost prev = views(tokens@);
        let ghost at = i as int;
        if opens_at_exec(&chars, i) {
            let b = body_start_exec(&chars, i);
            let opener = if b - i == 3 && chars[i + 2] == '=' {
                HustToken::CodeStartString
            } else if b - i == 3 {
                HustToken::CodeComment
            } else {
                HustToken::CodeStartSilent
            };
            proof {
                lemma_code_end_bounds(chars@, b as int);
            }
            let (code, next) = collect_code(content, &chars, b);
            let ghost step = seq![opener@, code@];
            tokens.push(opener);
            tokens.push(code);
            i = next;
            proof {
                assert(lex_from(chars@, at) == step + lex_from(chars@, i as int));
                assert(views(tokens@) =~= prev + step);
            }
        } else {
            proof {
                lemma_literal_end_bounds(chars@, i + 1);
            }
            let (html, next) = collect_html(content, &chars, i);
            let ghost step = seq![html@];
            tokens.push(html);
            i = next;
            proof {
                assert(lex_from(chars@, at) == step + lex_from(chars@, i as int));
                assert(views(tokens@) =~= prev + step);
            }
        }
        assert(views(tokens@) + lex_from(chars@, i as int) =~= prev + lex_from(chars@, at));
    }
    let ghost prev = views(tokens@);
    tokens.push(HustToken::EOF);
    assert(views(tokens@) =~= prev + lex_from(chars@, i as int));
    tokens
}

} // verus!
