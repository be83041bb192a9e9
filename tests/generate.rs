use hust::lexer::lexer;
use hust::lexer::HustToken::{Code, CodeComment, CodeStartSilent, CodeStartString, Html, EOF};
use hust::parser::{accept_checked, check_structure, escape_html, generate, parse, StructureError};
use hust::preprocess_and_generate_rust_code;

const HEADER: &str = "let mut output_buffer = String::new();\n";

fn compile(content: &str) -> String {
    generate(&lexer(content))
}

#[test]
fn plain_text_is_one_append() {
    assert_eq!(lexer("<div>hi</div>"), vec![Html(String::from("<div>hi</div>")), EOF]);
    assert_eq!(
        compile("<div>hi</div>"),
        format!("{}output_buffer.push_str(\"<div>hi</div>\");\noutput_buffer", HEADER)
    );
}

#[test]
fn silent_block_is_emitted_verbatim() {
    assert_eq!(lexer("<% x %>"), vec![CodeStartSilent, Code(String::from(" x ")), EOF]);
    assert_eq!(compile("<% x %>"), format!("{} x \noutput_buffer", HEADER));
}

#[test]
fn expression_block_is_appended() {
    assert_eq!(lexer("<%= x %>"), vec![CodeStartString, Code(String::from(" x ")), EOF]);
    assert_eq!(compile("<%= x %>"), format!("{}output_buffer.push_str( x );\noutput_buffer", HEADER));
}

#[test]
fn comment_block_emits_nothing() {
    assert_eq!(lexer("<%# c %>"), vec![CodeComment, Code(String::from(" c ")), EOF]);
    assert_eq!(compile("<%# c %>"), format!("{}output_buffer", HEADER));
}

#[test]
fn mixed_template_in_order() {
    assert_eq!(
        lexer("<div><%= x %></div>"),
        vec![
            Html(String::from("<div>")),
            CodeStartString,
            Code(String::from(" x ")),
            Html(String::from("</div>")),
            EOF
        ]
    );
    assert_eq!(
        compile("<div><%= x %></div>"),
        format!(
            "{}output_buffer.push_str(\"<div>\");\noutput_buffer.push_str( x );\noutput_buffer.push_str(\"</div>\");\noutput_buffer",
            HEADER
        )
    );
}

#[test]
fn empty_template_yields_accumulator() {
    assert_eq!(compile(""), format!("{}output_buffer", HEADER));
}

#[test]
fn escape_backslash_and_quote() {
    assert_eq!(escape_html("a\"b\\c"), "a\\\"b\\\\c");
    assert_eq!(escape_html(""), "");
    assert_eq!(escape_html("plain"), "plain");
    assert_eq!(escape_html("\\\""), "\\\\\\\"");
}

#[test]
fn literal_is_escaped_in_code() {
    assert_eq!(
        compile("say \"hi\"\\"),
        format!("{}output_buffer.push_str(\"say \\\"hi\\\"\\\\\");\noutput_buffer", HEADER)
    );
}

#[test]
fn parse_accepts_valid_code() {
    let code = parse("<ul><% for i in 0..3 { %><li><%= &i.to_string() %></li><% } %></ul>").ok().unwrap();
    assert!(code.starts_with(HEADER));
    assert!(code.ends_with("output_buffer"));
}

#[test]
fn parse_reports_invalid_code() {
    let err = parse("<% { %>").err().unwrap();
    assert_eq!(err.code, format!("{} {{ \noutput_buffer", HEADER));
    assert!(!err.message.is_empty());
}

#[test]
fn accept_checked_outcomes() {
    assert_eq!(accept_checked(String::from("c"), None).ok().unwrap(), "c");
    let err = accept_checked(String::from("c"), Some(String::from("bad"))).err().unwrap();
    assert_eq!(err.message, "bad");
    assert_eq!(err.code, "c");
}

#[test]
fn token_stream_of_valid_template() {
    let stream = preprocess_and_generate_rust_code("<b><%= name %></b>").ok().unwrap();
    let text = stream.to_string();
    assert!(text.contains("output_buffer"));
    assert!(text.contains("name"));
}

#[test]
fn token_stream_of_invalid_template() {
    let err = preprocess_and_generate_rust_code("<%= ( %>").err().unwrap();
    assert!(err.code.contains("output_buffer.push_str( ( );"));
}

#[test]
fn lexer_output_has_valid_structure() {
    use_check(&lexer("<p><%= a %><% b %><%# c %>x</p>"), Ok(()));
    use_check(&lexer(""), Ok(()));
    use_check(&lexer("a<% b"), Ok(()));
}

fn use_check(tokens: &Vec<hust::lexer::HustToken>, expected: Result<(), StructureError>) {
    assert_eq!(check_structure(tokens), expected);
}

#[test]
fn structure_errors_are_named() {
    use_check(&vec![], Err(StructureError::MissingEof));
    use_check(&vec![Html(String::from("a"))], Err(StructureError::MissingEof));
    use_check(&vec![EOF, Html(String::from("a")), EOF], Err(StructureError::EofBeforeEnd(0)));
    use_check(&vec![Code(String::from("x")), EOF], Err(StructureError::CodeWithoutOpener(0)));
    use_check(
        &vec![CodeStartString, Html(String::from("a")), Code(String::from("x")), EOF],
        Err(StructureError::OpenerWithoutCode(0))
    );
    use_check(&vec![CodeComment, EOF], Err(StructureError::OpenerWithoutCode(0)));
}
