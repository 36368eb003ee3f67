use search_core::file_process::{chars_of, check_xml_ext, convert_xml, extension_of_name};
use search_core::lexer::{ClassifiedChar, Lexer};

fn all_tokens(text: &str) -> Vec<String> {
    let chars = text.chars().collect::<Vec<_>>();
    let mut lexer = Lexer::new(&chars);
    lexer.collect_tokens()
}

#[test]
fn test_stemmer() {
    let vec = "linear linearly".chars().collect::<Vec<_>>();
    let mut lexer = Lexer::new(&vec);
    let mut seen = Vec::new();
    while let Some(token) = lexer.next() {
        println!("{token}");
        seen.push(token);
    }
    assert_eq!(seen.len(), 2);
}

#[test]
fn test_lexer() {
    // The text of an OpenGL reference page, as the XML reader gives it.
    let page = "<html xmlns=\"http://www.w3.org/1999/xhtml\"><head><title>glClear - OpenGL 4 Reference Pages</title></head>\
                <body><h2>glClear</h2><p>clear buffers to preset values</p><p>GL_COLOR_BUFFER_BIT 0x00004000</p></body></html>";
    let text = convert_xml(page.as_bytes()).unwrap();
    let content = text.chars().collect::<Vec<_>>();
    let mut lexer = Lexer::new(&content);
    let mut tokens = Vec::new();
    while let Some(token) = lexer.next() {
        println!("{token}");
        tokens.push(token);
    }
    assert!(tokens.contains(&"glclear".to_string()));
    assert!(tokens.contains(&"buffer".to_string()));
    assert!(tokens.contains(&"0".to_string()));
}

#[test]
fn stems_as_snowball_documents() {
    assert_eq!(all_tokens("international"), vec!["internat".to_string()]);
    assert_eq!(all_tokens("internal"), vec!["internal".to_string()]);
}

#[test]
fn words_are_lowered_and_stemmed() {
    assert_eq!(
        all_tokens("OpenGL Buffers"),
        vec!["opengl".to_string(), "buffer".to_string()]
    );
}

#[test]
fn numbers_and_symbols_are_tokens() {
    assert_eq!(
        all_tokens("abc123 42x !?"),
        vec!["abc123".to_string(), "42".to_string(), "x".to_string(), "!".to_string(), "?".to_string()]
    );
}

#[test]
fn white_space_only_gives_no_token() {
    assert!(all_tokens("  \t\n ").is_empty());
    let chars: Vec<char> = Vec::new();
    let mut lexer = Lexer::new(&chars);
    assert_eq!(lexer.next(), None);
}

#[test]
fn chars_of_keeps_every_character() {
    assert_eq!(chars_of("añb"), vec!['a', 'ñ', 'b']);
}

#[test]
fn xml_text_skips_attributes() {
    let doc = "<doc title=\"decoy\"><a>Hello</a><b>World <c>deep</c></b></doc>";
    assert_eq!(convert_xml(doc.as_bytes()), Some("Hello World  deep ".to_string()));
}

#[test]
fn broken_xml_gives_none() {
    assert_eq!(convert_xml("<a><b></a>".as_bytes()), None);
}

#[test]
fn xml_extensions() {
    assert!(check_xml_ext("docs/a.xml"));
    assert!(check_xml_ext("b.xhtml"));
    assert!(!check_xml_ext("c.txt"));
    assert!(!check_xml_ext("noext"));
    assert!(!check_xml_ext(".xml"));
}

#[test]
fn extension_is_the_text_after_the_last_dot() {
    assert_eq!(extension_of_name("a.tar.gz"), Some("gz".to_string()));
    assert_eq!(extension_of_name("report.xml"), Some("xml".to_string()));
    assert_eq!(extension_of_name("a."), Some(String::new()));
    assert_eq!(extension_of_name(".a.b"), Some("b".to_string()));
    assert_eq!(extension_of_name(".bashrc"), None);
    assert_eq!(extension_of_name("noext"), None);
    assert_eq!(extension_of_name(""), None);
}

#[test]
fn extension_is_read_from_the_file_name() {
    assert!(check_xml_ext("dir.xml/"));
    assert!(!check_xml_ext("a.xml/.."));
    assert!(!check_xml_ext("pages.xml/notes"));
    assert!(check_xml_ext("pages.txt/notes.xhtml"));
}

#[test]
fn raw_tokens_follow_the_given_classes() {
    let plain = |c: char| ClassifiedChar { c, whitespace: false, alphabetic: false, numeric: false };
    let letter = |c: char| ClassifiedChar { c, whitespace: false, alphabetic: true, numeric: false };
    let digit = |c: char| ClassifiedChar { c, whitespace: false, alphabetic: false, numeric: true };
    let space = |c: char| ClassifiedChar { c, whitespace: true, alphabetic: false, numeric: false };
    let chars = vec![space('_'), letter('Q'), digit('7'), letter('b'), digit('1'), plain('Z'), digit('2'), digit('3')];
    let mut lexer = Lexer::from_classified(chars);
    assert_eq!(
        lexer.collect_raw_tokens(),
        vec!["q7b1".to_string(), "Z".to_string(), "23".to_string()]
    );
}

#[test]
fn collecting_leaves_the_lexer_exhausted() {
    let chars = "two words  ".chars().collect::<Vec<_>>();
    let mut lexer = Lexer::new(&chars);
    assert_eq!(lexer.collect_tokens(), vec!["two".to_string(), "word".to_string()]);
    assert_eq!(lexer.next(), None);
    assert_eq!(lexer.next_raw_token(), None);
    let mut raw = Lexer::new(&chars);
    assert_eq!(raw.collect_raw_tokens(), vec!["two".to_string(), "words".to_string()]);
    assert_eq!(raw.next_raw_token(), None);
}

#[test]
fn multi_byte_words_are_stemmed_too() {
    assert_eq!(all_tokens("ÜBERRUNNING"), vec!["Überrun".to_string()]);
}

#[test]
fn raw_token_then_stemmed_token() {
    let chars = "Running dogs".chars().collect::<Vec<_>>();
    let mut lexer = Lexer::new(&chars);
    assert_eq!(lexer.next_raw_token(), Some("running".to_string()));
    assert_eq!(lexer.next(), Some("dog".to_string()));
    assert_eq!(lexer.next(), None);
}

#[test]
fn unicode_white_space_separates_words() {
    assert_eq!(
        all_tokens("alpha\u{3000}beta\u{00A0}gamma\u{2009}delta"),
        vec!["alpha".to_string(), "beta".to_string(), "gamma".to_string(), "delta".to_string()]
    );
    assert_eq!(all_tokens("a\u{200B}b").len(), 3);
}

#[test]
fn lexer_stays_done() {
    let chars = "one two".chars().collect::<Vec<_>>();
    let mut lexer = Lexer::new(&chars);
    let mut count = 0;
    while lexer.next().is_some() {
        count += 1;
    }
    assert!(count <= chars.len());
    assert_eq!(lexer.next(), None);
    assert_eq!(lexer.next_raw_token(), None);
}
