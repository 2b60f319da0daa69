use dupfinder::lines::{first_lines_of, join_with_newlines};
use dupfinder::preview::{
    classify_extension, get_preview, image_data_uri, image_preview, resolve_preview,
    text_preview, unsupported_preview, FilePreview, PreviewError, PreviewKind, PreviewStep,
    PREVIEW_LINES,
};

fn lines(content: &str, limit: usize) -> Vec<String> {
    first_lines_of(content, limit)
}

fn done(step: PreviewStep) -> Result<FilePreview, PreviewError> {
    match step {
        PreviewStep::Done(result) => result,
        PreviewStep::ReadFile => panic!("expected a settled preview"),
    }
}

fn numbered(count: usize) -> Vec<String> {
    (1..=count).map(|n| format!("line {}", n)).collect()
}

#[test]
fn lines_end_at_line_feeds() {
    assert_eq!(lines("a\nb\nc", 20), vec!["a", "b", "c"]);
    assert_eq!(lines("a\n\nb", 20), vec!["a", "", "b"]);
    assert_eq!(lines("\n", 20), vec![""]);
    assert!(lines("", 20).is_empty());
}

#[test]
fn a_final_line_ending_adds_no_line() {
    assert_eq!(lines("a\nb\n", 20), vec!["a", "b"]);
    assert_eq!(lines("a\nb\n\n", 20), vec!["a", "b", ""]);
}

#[test]
fn a_carriage_return_before_a_line_feed_belongs_to_the_ending() {
    assert_eq!(lines("a\r\nb\r\n", 20), vec!["a", "b"]);
    assert_eq!(lines("a\r\r\nb", 20), vec!["a\r", "b"]);
    assert_eq!(lines("a\rb\nc\r", 20), vec!["a\rb", "c\r"]);
    assert_eq!(lines("\r\n", 20), vec![""]);
    assert_eq!(lines("\r", 20), vec!["\r"]);
}

#[test]
fn lines_agree_with_the_standard_library() {
    for content in ["", "x", "x\n", "\n\n", "a\r\nb\rc\n\rd\r\n\r\n", "é\nü\r\n日本語", "\r\r\n\n\r"] {
        let expected: Vec<String> = content.lines().map(|l| l.to_string()).collect();
        assert_eq!(lines(content, 1000), expected);
        let expected: Vec<String> = content.lines().take(2).map(|l| l.to_string()).collect();
        assert_eq!(lines(content, 2), expected);
    }
}

#[test]
fn no_more_lines_than_the_limit() {
    assert_eq!(lines("a\nb\nc", 2), vec!["a", "b"]);
    assert_eq!(lines("a\nb\nc", 3), vec!["a", "b", "c"]);
    assert!(lines("a\nb\nc", 0).is_empty());
}

#[test]
fn joining_puts_one_line_feed_between_lines() {
    let three: Vec<String> = vec!["a".to_string(), "".to_string(), "b".to_string()];
    assert_eq!(join_with_newlines(&three), "a\n\nb");
    assert_eq!(join_with_newlines(&vec!["only".to_string()]), "only");
    assert_eq!(join_with_newlines(&Vec::new()), "");
}

#[test]
fn a_short_text_is_shown_whole() {
    let content = numbered(20).join("\n");
    let preview = text_preview("notes.txt", &content);
    assert_eq!(preview.preview_type, "text");
    assert_eq!(preview.content, content);
    assert_eq!(preview.file_path, "notes.txt");
    assert_eq!(text_preview("one.txt", "single line").content, "single line");
    assert_eq!(text_preview("empty.txt", "").content, "");
}

#[test]
fn a_long_text_is_cut_after_twenty_lines() {
    assert_eq!(PREVIEW_LINES, 20);
    let content = numbered(25).join("\n");
    let preview = text_preview("notes.txt", &content);
    assert_eq!(preview.content, numbered(20).join("\n"));
    let content = numbered(21).join("\r\n");
    assert_eq!(text_preview("notes.txt", &content).content, numbered(20).join("\n"));
}

#[test]
fn line_endings_are_shown_as_line_feeds() {
    assert_eq!(text_preview("a.txt", "a\r\nb\n").content, "a\nb");
}

#[test]
fn extensions_are_classified_by_the_lists() {
    for extension in ["png", "jpg", "jpeg", "gif", "bmp", "webp", "ico", "svg"] {
        assert_eq!(classify_extension(extension), PreviewKind::Image);
    }
    for extension in [
        "txt", "md", "rs", "js", "ts", "tsx", "jsx", "css", "html", "json", "toml", "yaml", "yml",
        "xml", "csv", "log", "py", "java", "c", "cpp", "h", "go", "rb", "php", "sh", "bat", "ps1",
    ] {
        assert_eq!(classify_extension(extension), PreviewKind::Text);
    }
    for extension in ["", "exe", "PNG", "tx", "txt ", "pdf", "mp4"] {
        assert_eq!(classify_extension(extension), PreviewKind::Unsupported);
    }
}

#[test]
fn a_missing_file_has_no_preview() {
    let step = get_preview("gone.png", "png", false, None);
    assert!(matches!(done(step), Err(PreviewError::NotFound)));
    let step = get_preview("gone.xyz", "xyz", false, Some(Ok(vec![1, 2, 3])));
    assert!(matches!(done(step), Err(PreviewError::NotFound)));
    assert_eq!(PreviewError::NotFound.message(), "ファイルが存在しません");
}

#[test]
fn an_unsupported_extension_gives_a_notice_without_a_read() {
    let preview = done(get_preview("/tmp/movie.MP4", "MP4", true, None)).unwrap();
    assert_eq!(preview.preview_type, "unsupported");
    assert_eq!(preview.content, "プレビュー非対応の形式: .mp4");
    assert_eq!(preview.file_path, "/tmp/movie.MP4");
    let preview = done(get_preview("/tmp/plain", "", true, None)).unwrap();
    assert_eq!(preview.content, "プレビュー非対応の形式: .");
    let failed = Some(Err("denied".to_string()));
    let preview = done(get_preview("/tmp/a.bin", "bin", true, failed)).unwrap();
    assert_eq!(preview.preview_type, "unsupported");
    assert_eq!(unsupported_preview("p", "zip").content, "プレビュー非対応の形式: .zip");
}

#[test]
fn images_and_texts_are_read_first() {
    assert!(matches!(get_preview("a.png", "png", true, None), PreviewStep::ReadFile));
    assert!(matches!(get_preview("a.TXT", "TXT", true, None), PreviewStep::ReadFile));
    assert!(matches!(resolve_preview("a.rs", "rs", true, None), PreviewStep::ReadFile));
}

#[test]
fn an_image_becomes_a_data_uri() {
    let content = Some(Ok(b"hello".to_vec()));
    let preview = done(get_preview("/pics/Logo.PNG", "PNG", true, content)).unwrap();
    assert_eq!(preview.preview_type, "image");
    assert_eq!(preview.content, "data:image/png;base64,aGVsbG8=");
    assert_eq!(preview.file_path, "/pics/Logo.PNG");
    let preview = image_preview("x.gif", "gif", &[0xff, 0x00, 0xfe]);
    assert_eq!(preview.content, "data:image/gif;base64,/wD+");
    assert_eq!(image_preview("x.svg", "svg", &[]).content, "data:image/svg;base64,");
    assert_eq!(image_data_uri("jpeg", "QUJD"), "data:image/jpeg;base64,QUJD");
}

#[test]
fn a_text_is_decoded_and_cut() {
    let content = numbered(30).join("\n").into_bytes();
    let preview = done(get_preview("log.LOG", "LOG", true, Some(Ok(content)))).unwrap();
    assert_eq!(preview.preview_type, "text");
    assert_eq!(preview.content, numbered(20).join("\n"));
    assert_eq!(preview.file_path, "log.LOG");
    let content = "héllo\nwörld".as_bytes().to_vec();
    let preview = done(resolve_preview("a.md", "md", true, Some(Ok(content)))).unwrap();
    assert_eq!(preview.content, "héllo\nwörld");
}

#[test]
fn a_text_that_is_not_utf8_fails() {
    let content = Some(Ok(vec![0x66, 0x6f, 0xff, 0x6f]));
    let error = done(get_preview("bad.txt", "txt", true, content)).unwrap_err();
    assert!(matches!(error, PreviewError::EncodingError));
    assert_eq!(
        error.message(),
        "テキストの読み取りに失敗: stream did not contain valid UTF-8"
    );
}

#[test]
fn a_failed_read_fails_the_preview() {
    let failed = Some(Err("permission denied".to_string()));
    match done(get_preview("a.txt", "txt", true, failed.clone())) {
        Err(PreviewError::TextUnreadable(reason)) => assert_eq!(reason, "permission denied"),
        _ => panic!("expected TextUnreadable"),
    }
    match done(get_preview("a.jpg", "jpg", true, failed)) {
        Err(PreviewError::ImageUnreadable(reason)) => assert_eq!(reason, "permission denied"),
        _ => panic!("expected ImageUnreadable"),
    }
    assert_eq!(
        PreviewError::TextUnreadable("x".to_string()).message(),
        "テキストの読み取りに失敗: x"
    );
    assert_eq!(PreviewError::ImageUnreadable("x".to_string()).message(), "画像の読み取りに失敗: x");
}

#[test]
fn the_extension_is_compared_in_lowercase() {
    let content = Some(Ok(b"a\nb".to_vec()));
    let preview = done(get_preview("R.Rs", "Rs", true, content.clone())).unwrap();
    assert_eq!(preview.preview_type, "text");
    let preview = done(resolve_preview("R.Rs", "Rs", true, content)).unwrap();
    assert_eq!(preview.preview_type, "unsupported");
    assert_eq!(preview.content, "プレビュー非対応の形式: .Rs");
}
