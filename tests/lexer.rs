use hust::lexer::lexer;
use hust::lexer::HustToken::{Code, CodeComment, CodeStartSilent, CodeStartString, Html, EOF};
use hust::lexer::LexingError::UnterminatedBlock;

#[test]
fn test_html_only() {
    let content = "<div>Hello, world!</div>";
    let tokens = lexer(content);
    assert_eq!(tokens, vec![Html(String::from("<div>Hello, world!</div>")), EOF]);
}

#[test]
fn test_code_block_silent() {
    let content = "<% let x = 10; %>";
    let tokens = lexer(content);
    assert_eq!(tokens, vec![CodeStartSilent, Code(String::from(" let x = 10; ")), EOF]);
}

#[test]
fn test_code_block_string() {
    let content = "<%= \"Hello, world!\" %>";
    let tokens = lexer(content);
    assert_eq!(tokens, vec![CodeStartString, Code(String::from(" \"Hello, world!\" ")), EOF]);
}

#[test]
fn test_code_block_comment() {
    let content = "<%# This is a comment %>";
    let tokens = lexer(content);
    assert_eq!(tokens, vec![CodeComment, Code(String::from(" This is a comment ")), EOF]);
}

#[test]
fn test_mixed_content() {
    let content = "<div><%= \"Hello\" %></div>";
    let tokens = lexer(content);
    assert_eq!(
        tokens,
        vec![
            Html(String::from("<div>")),
            CodeStartString,
            Code(String::from(" \"Hello\" ")),
            Html(String::from("</div>")),
            EOF
        ]
    );
}

#[test]
fn empty_template_is_only_eof() {
    assert_eq!(lexer(""), vec![EOF]);
}

#[test]
fn trailing_less_than_is_kept() {
    assert_eq!(lexer("a<"), vec![Html(String::from("a<")), EOF]);
    assert_eq!(lexer("<"), vec![Html(String::from("<")), EOF]);
}

#[test]
fn less_than_before_opener_stays_markup() {
    assert_eq!(
        lexer("<<% x %>"),
        vec![Html(String::from("<")), CodeStartSilent, Code(String::from(" x ")), EOF]
    );
}

#[test]
fn unclosed_block_takes_the_rest() {
    assert_eq!(lexer("a<%= b"), vec![Html(String::from("a")), CodeStartString, Code(String::from(" b")), EOF]);
    assert_eq!(lexer("<%"), vec![CodeStartSilent, Code(String::new()), EOF]);
}

#[test]
fn empty_block_and_adjacent_blocks() {
    assert_eq!(
        lexer("<%%><%#x%>"),
        vec![CodeStartSilent, Code(String::new()), CodeComment, Code(String::from("x")), EOF]
    );
}

#[test]
fn percent_before_closer_belongs_to_code() {
    assert_eq!(lexer("<% a%%>b"), vec![CodeStartSilent, Code(String::from(" a%")), Html(String::from("b")), EOF]);
}

#[test]
fn closer_outside_block_is_markup() {
    assert_eq!(lexer("x %> y"), vec![Html(String::from("x %> y")), EOF]);
}

#[test]
fn multibyte_text_is_kept() {
    assert_eq!(
        lexer("é<%= ü %>ß"),
        vec![Html(String::from("é")), CodeStartString, Code(String::from(" ü ")), Html(String::from("ß")), EOF]
    );
}

fn rebuild(tokens: &[hust::lexer::HustToken]) -> String {
    let mut out = String::new();
    for t in tokens {
        match t {
            Html(h) => out.push_str(h),
            CodeStartSilent => out.push_str("<%"),
            CodeStartString => out.push_str("<%="),
            CodeComment => out.push_str("<%#"),
            Code(c) => {
                out.push_str(c);
                out.push_str("%>");
            }
            EOF => {}
        }
    }
    out
}

#[test]
fn rebuilt_template_matches_input() {
    let input = "<p><% if a { %>x<%= b %><% } %><%# note %></p>";
    assert_eq!(rebuild(&lexer(input)), input);
    assert_eq!(rebuild(&lexer("a<% b")), "a<% b%>");
}

#[test]
fn relexing_rebuilt_template_is_stable() {
    for input in ["<p><%= a %>q</p>", "a<% b", "<%", "x<", "<%= a%"] {
        let tokens = lexer(input);
        assert_eq!(lexer(&rebuild(&tokens)), tokens);
    }
}

#[test]
fn checked_lexing_accepts_closed_blocks() {
    assert_eq!(
        hust::lexer::lexer_checked("a<%= b %>c"),
        Ok(vec![Html(String::from("a")), CodeStartString, Code(String::from(" b ")), Html(String::from("c")), EOF])
    );
    assert_eq!(hust::lexer::lexer_checked(""), Ok(vec![EOF]));
}

#[test]
fn checked_lexing_names_unclosed_block() {
    assert_eq!(hust::lexer::lexer_checked("ab<%= c"), Err(UnterminatedBlock(2)));
    assert_eq!(hust::lexer::lexer_checked("<% a %>é<%# b"), Err(UnterminatedBlock(8)));
    assert_eq!(hust::lexer::lexer_checked("<%"), Err(UnterminatedBlock(0)));
}

#[test]
fn unclosed_block_positions() {
    assert_eq!(hust::lexer::unclosed_block("x %> <% y %>"), None);
    assert_eq!(hust::lexer::unclosed_block("<% a %%"), Some(0));
    assert_eq!(hust::lexer::unclosed_block("<"), None);
}
