use mortar::plstr::lex::token::{Location, TokenKind};
use mortar::plstr::lex::{LexError, Lexer};

#[test]
fn basic_types() {
    let mut lexer = Lexer::new("   abc  23 2.3");
    let mut token = lexer.next().unwrap();

    assert_eq!(token.contents, "abc");
    assert_eq!(token.kind, TokenKind::Identifier);

    token = lexer.next().unwrap();

    assert_eq!(token.contents, "23");
    assert_eq!(token.kind, TokenKind::Integer);

    token = lexer.next().unwrap();

    assert_eq!(token.contents, "2.3");
    assert_eq!(token.kind, TokenKind::Float);
}

#[test]
fn unicode() {
    let mut lexer = Lexer::new("a😭bc\r\nd");
    let mut token = lexer.next().unwrap();

    assert_eq!(token.contents, "a😭bc");
    assert_eq!(token.kind, TokenKind::Identifier);

    token = lexer.next().unwrap();

    assert_eq!(token.contents, "d");
    assert_eq!(token.kind, TokenKind::Identifier);
}

#[test]
fn locations_count_clusters_and_bytes() {
    let mut lexer = Lexer::new("a😭bc\r\nd");
    assert_eq!(lexer.get_location(), Location { line: 0, column: 0, index: 0 });
    let token = lexer.next().unwrap();
    assert_eq!(token.location, Location { line: 0, column: 4, index: 7 });
    let token = lexer.next().unwrap();
    assert_eq!(token.location, Location { line: 1, column: 1, index: 10 });
    assert_eq!(lexer.get_location(), Location { line: 1, column: 1, index: 10 });
    assert_eq!(lexer.next(), None);
}

#[test]
fn punctuation() {
    let mut lexer = Lexer::new("{ } ( ) [ ] / * ! + - = < >");
    let kinds = [
        TokenKind::OpenBrace,
        TokenKind::CloseBrace,
        TokenKind::OpenParen,
        TokenKind::CloseParen,
        TokenKind::OpenBracket,
        TokenKind::CloseBracket,
        TokenKind::ForwardSlash,
        TokenKind::Asterisk,
        TokenKind::Bang,
        TokenKind::Plus,
        TokenKind::Hyphen,
        TokenKind::Equal,
        TokenKind::Less,
        TokenKind::Greater,
    ];
    let texts = ["{", "}", "(", ")", "[", "]", "/", "*", "!", "+", "-", "=", "<", ">"];
    for (kind, text) in kinds.iter().zip(texts.iter()) {
        let token = lexer.next().unwrap();
        assert_eq!(token.kind, *kind);
        assert_eq!(token.contents, *text);
    }
    assert_eq!(lexer.next(), None);
}

#[test]
fn doubled_punctuation() {
    let mut lexer = Lexer::new("++ -- == << >> +-");
    let kinds = [
        TokenKind::PlusPlus,
        TokenKind::HyphenHyphen,
        TokenKind::EqualEqual,
        TokenKind::LessLess,
        TokenKind::GreaterGreater,
    ];
    let texts = ["+", "-", "=", "<", ">"];
    for (kind, text) in kinds.iter().zip(texts.iter()) {
        let token = lexer.next().unwrap();
        assert_eq!(token.kind, *kind);
        assert_eq!(token.contents, *text);
    }
    assert_eq!(lexer.next().unwrap().kind, TokenKind::Plus);
    assert_eq!(lexer.next().unwrap().kind, TokenKind::Hyphen);
    assert_eq!(lexer.next(), None);
}

#[test]
fn three_in_a_row_are_two_and_one() {
    let mut lexer = Lexer::new("+++");
    assert_eq!(lexer.next().unwrap().kind, TokenKind::PlusPlus);
    assert_eq!(lexer.next().unwrap().kind, TokenKind::Plus);
    assert_eq!(lexer.next(), None);
}

#[test]
fn identifiers_take_underscores_digits_and_emojis() {
    let mut lexer = Lexer::new("_a1 🚀x");
    let token = lexer.next().unwrap();
    assert_eq!(token.kind, TokenKind::Identifier);
    assert_eq!(token.contents, "_a1");
    let token = lexer.next().unwrap();
    assert_eq!(token.kind, TokenKind::Identifier);
    assert_eq!(token.contents, "🚀x");
}

#[test]
fn a_number_may_end_in_its_point() {
    let mut lexer = Lexer::new("7.");
    let token = lexer.next().unwrap();
    assert_eq!(token.kind, TokenKind::Float);
    assert_eq!(token.contents, "7.");
}

#[test]
fn empty_text_has_no_token() {
    let mut lexer = Lexer::new("");
    assert_eq!(lexer.next(), None);
    assert_eq!(lexer.get_location(), Location { line: 0, column: 0, index: 0 });
}

#[test]
fn white_space_alone_has_no_token() {
    let mut lexer = Lexer::new(" \t\r\n\n ");
    assert_eq!(lexer.try_next(), Ok(None));
    assert_eq!(lexer.get_location(), Location { line: 2, column: 1, index: 6 });
}

#[test]
fn try_next_tells_an_unexpected_cluster() {
    let mut lexer = Lexer::new("ab ?");
    assert_eq!(lexer.try_next().unwrap().unwrap().contents, "ab");
    let before = lexer.get_location();
    assert_eq!(lexer.try_next(), Err(LexError::UnexpectedCharacter("?".to_owned())));
    assert_eq!(lexer.get_location(), before);
}

#[test]
fn try_next_tells_a_second_decimal_point() {
    let mut lexer = Lexer::new("1.2.3");
    assert_eq!(lexer.try_next(), Err(LexError::SecondDecimalPoint));
    assert_eq!(lexer.get_location(), Location { line: 0, column: 0, index: 0 });
}

#[test]
fn try_next_gives_what_next_gives() {
    let mut first = Lexer::new("x = 12");
    let mut second = Lexer::new("x = 12");
    loop {
        let token = first.next();
        let done = token.is_none();
        assert_eq!(second.try_next(), Ok(token));
        assert_eq!(second.get_location(), first.get_location());
        if done {
            break;
        }
    }
}

#[test]
fn a_location_is_told_from_one() {
    assert_eq!(Location { line: 0, column: 0, index: 0 }.to_string(), "1:1");
    assert_eq!(Location { line: 9, column: 41, index: 7 }.to_string(), "10:42");
    assert_eq!(
        Location { line: usize::MAX, column: 99, index: 0 }.to_string(),
        format!("{}:100", usize::MAX as u128 + 1)
    );
}

#[test]
fn a_kind_is_told_by_its_name() {
    for kind in [
        TokenKind::Identifier,
        TokenKind::Integer,
        TokenKind::Float,
        TokenKind::String,
        TokenKind::OpenBrace,
        TokenKind::CloseBrace,
        TokenKind::OpenParen,
        TokenKind::CloseParen,
        TokenKind::OpenBracket,
        TokenKind::CloseBracket,
        TokenKind::Plus,
        TokenKind::Hyphen,
        TokenKind::ForwardSlash,
        TokenKind::Asterisk,
        TokenKind::Equal,
        TokenKind::Less,
        TokenKind::Greater,
        TokenKind::Bang,
        TokenKind::Comma,
        TokenKind::Colon,
        TokenKind::BangEqual,
        TokenKind::EqualEqual,
        TokenKind::LessLess,
        TokenKind::GreaterGreater,
        TokenKind::PlusPlus,
        TokenKind::HyphenHyphen,
        TokenKind::ColonColon,
    ] {
        assert_eq!(kind.to_string(), format!("{:?}", kind));
    }
}

#[test]
fn a_lexer_reads_the_clusters_it_is_given() {
    let clusters = ["  ", "{", "+", "+", "\r\n", "_", "x", "!"];
    let mut lexer =
        Lexer::from_clusters(clusters.iter().map(|cluster| cluster.to_string()).collect())
            .unwrap();
    assert_eq!(lexer.get_location(), Location { line: 0, column: 0, index: 0 });
    assert_eq!(
        lexer.try_next(),
        Err(LexError::UnexpectedCharacter("  ".to_owned()))
    );
    let mut lexer = Lexer::from_clusters(
        clusters[1..].iter().map(|cluster| cluster.to_string()).collect(),
    )
    .unwrap();
    let token = lexer.next().unwrap();
    assert_eq!(token.kind, TokenKind::OpenBrace);
    assert_eq!(token.location, Location { line: 0, column: 1, index: 1 });
    let token = lexer.next().unwrap();
    assert_eq!(token.kind, TokenKind::PlusPlus);
    assert_eq!(token.location, Location { line: 0, column: 3, index: 3 });
    let token = lexer.next().unwrap();
    assert_eq!(token.kind, TokenKind::Identifier);
    assert_eq!(token.contents, "_x");
    assert_eq!(token.location, Location { line: 1, column: 2, index: 7 });
    let token = lexer.next().unwrap();
    assert_eq!(token.kind, TokenKind::Bang);
    assert_eq!(lexer.next(), None);
}

#[test]
fn a_lexer_without_clusters_is_at_its_end() {
    let mut lexer = Lexer::from_clusters(vec![]).unwrap();
    assert_eq!(lexer.next(), None);
    assert_eq!(lexer.get_location(), Location { line: 0, column: 0, index: 0 });
}
