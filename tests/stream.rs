use megumax::{check_expression_block, text_chunks, Error, StringStream};

#[test]
fn utils_partial_template() {
    let content = "hello [world]";
    let mut reader = StringStream::with_size(check_expression_block, 8);
    let bytes = content.as_bytes();
    let mut pos = 0;
    let result = loop {
        let n = reader.size_needed().min(bytes.len() - pos);
        let step = reader.feed(&bytes[pos..pos + n]);
        pos += n;
        if let Some(r) = step {
            break r;
        }
    };
    assert_eq!(result.unwrap(), content);
}

#[test]
fn valid_string() {
    let content = "Never gonna give you up, Never gonna let you down";

    let (chunks, outcome) = text_chunks(content.as_bytes(), 10, |_: &str| true);
    assert!(outcome.is_ok());
    let result: String = chunks.concat();

    assert_eq!(result, content);
}

#[test]
fn invalid_string() {
    let content = vec![0, 159, 146, 150];
    let (_, result) = text_chunks(content.as_slice(), 10, |_: &str| true);

    match result {
        Err(Error::InvalidString(_)) => (),
        _ => panic!("Expecting `Error::InvalidString` but got {:?}", result),
    }
}

#[test]
fn incomplete_string_any_size() {
    let content = vec![
        0xf0, 0x9f, 0x8e, 0x88, 0xf0, 0x9f, 0xa7, 0xa8, 0xf0, 0x9f, 0x8e, 0x89,
    ];
    for size in 4..40 {
        let (chunks, outcome) = text_chunks(content.as_slice(), size, |_: &str| true);
        assert!(outcome.is_ok());
        assert_eq!(chunks.concat(), "🎈🧨🎉");
    }
}

#[test]
fn unicode_fidelity_any_size() {
    let content = "héllo wörld ✓ 日本語 [key] ünïcödé 🎉 end";
    for size in 4..64 {
        let (chunks, outcome) = text_chunks(content.as_bytes(), size, check_expression_block);
        assert!(outcome.is_ok());
        assert_eq!(chunks.concat().as_bytes(), content.as_bytes());
    }
}

#[test]
fn empty_content() {
    let (chunks, outcome) = text_chunks(&[], 4, |_: &str| true);
    assert!(outcome.is_ok());
    assert_eq!(chunks.concat(), "");
}

#[test]
fn mock_binary_file() {
    let alphabet = b"abcdefghijklmnopqrstuvwxyzABCDEFGHIJKLMNOPQRSTUVWXYZ0123456789";
    let content: String = (0..128).map(|i| alphabet[i % alphabet.len()] as char).collect();
    let content = content.as_str();
    assert_eq!(content.len(), 128);
    let mut invalid_content = content.as_bytes().to_vec();
    invalid_content.extend(&[0, 159, 146, 150]);

    let (chunks, outcome) = text_chunks(&invalid_content, 128, check_expression_block);
    assert!(outcome.is_err());
    assert_eq!(chunks.concat(), content);
}

#[test]
fn binary_output_is_valid_prefix() {
    let mut bytes = "ab✓cd".as_bytes().to_vec();
    bytes.push(0xff);
    bytes.extend_from_slice(b"tail");
    for size in 4..16 {
        let (chunks, outcome) = text_chunks(&bytes, size, |_: &str| true);
        assert!(matches!(outcome, Err(Error::InvalidString(_))));
        let out = chunks.concat();
        assert!("ab✓cd".starts_with(out.as_str()));
    }
}

#[test]
fn truncated_final_character_is_an_error() {
    let bytes = vec![b'a', b'b', 0xe2, 0x82];
    let (chunks, outcome) = text_chunks(&bytes, 4, |_: &str| true);
    assert!(outcome.is_err());
    assert_eq!(chunks.concat(), "ab");
}

#[test]
fn token_is_never_split() {
    let content = "a [long_placeholder_key] b [x] c";
    for size in 4..12 {
        let (chunks, outcome) = text_chunks(content.as_bytes(), size, check_expression_block);
        assert!(outcome.is_ok());
        assert_eq!(chunks.concat(), content);
        for chunk in &chunks[..chunks.len() - 1] {
            assert!(check_expression_block(chunk));
        }
    }
}

#[test]
fn expression_block_check() {
    assert!(check_expression_block(""));
    assert!(check_expression_block("plain"));
    assert!(check_expression_block("a [b] c"));
    assert!(!check_expression_block("a [b"));
    assert!(!check_expression_block("[a] [b"));
    assert!(check_expression_block("[a [b]"));
    assert!(!check_expression_block("]["));
}

#[test]
fn stream_reports_done() {
    let mut stream = StringStream::new(|_: &str| true);
    assert_eq!(stream.size_needed(), 128);
    assert!(!stream.is_done());
    let out = stream.feed(b"abc");
    assert_eq!(out, Some(Ok("abc".to_string())));
    assert!(stream.is_done());
    assert_eq!(stream.size(), 0);
}
