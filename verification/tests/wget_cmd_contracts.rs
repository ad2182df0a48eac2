use contextzip::wget_cmd::{
    compact_url, download_failed_message, download_ok_message, extract_filename_from_output,
    format_size, parse_error, stdout_summary, truncate_line,
};

#[test]
fn format_size_rounds_to_one_decimal() {
    assert_eq!(format_size(1023), "1023B");
    assert_eq!(format_size(1280), "1.2KB");
    assert_eq!(format_size(1331), "1.3KB");
    assert_eq!(format_size(1024 * 1024 - 1), "1024.0KB");
    assert_eq!(format_size(3 * 1024 * 1024 * 1024 / 2), "1.5GB");
    assert_eq!(format_size(u64::MAX), "17179869184.0GB");
}

#[test]
fn compact_url_exact_shortening() {
    let long = format!("https://{}/{}", "a".repeat(40), "b".repeat(40));
    assert_eq!(compact_url(&long), format!("{}...{}", "a".repeat(25), "b".repeat(20)));
    assert!(compact_url(&long).chars().count() <= 50);
    assert_eq!(compact_url("ftp://x"), "ftp://x");
}

#[test]
fn parse_error_uses_stdout_and_cuts_long_lines() {
    assert_eq!(parse_error("", "HTTP 404"), "404 Not Found");
    assert_eq!(parse_error(&"x".repeat(70), ""), format!("{}...", "x".repeat(60)));
    assert_eq!(parse_error(&"é".repeat(40), ""), format!("{}...", "é".repeat(40)));
    assert_eq!(parse_error("  \n-- header\n  real error  ", ""), "real error");
    assert!(!parse_error("--", "").is_empty());
}

#[test]
fn truncate_line_counts_bytes_and_chars() {
    assert_eq!(truncate_line("héllo", 5), "hé...");
    assert_eq!(truncate_line("abcdef", 2), "...");
    assert_eq!(truncate_line("abc", 3), "abc");
}

#[test]
fn extract_filename_argument_forms() {
    assert_eq!(extract_filename_from_output("", "https://x/y.z", &["-Ofoo.txt".to_string()]), "foo.txt");
    assert_eq!(
        extract_filename_from_output("", "https://x/y.z", &["--output-document".to_string(), "out.bin".to_string()]),
        "out.bin"
    );
    assert_eq!(extract_filename_from_output("", "https://x/y.z", &["-O".to_string()]), "");
}

#[test]
fn extract_filename_quotes_and_url_quirks() {
    assert_eq!(extract_filename_from_output("Saving to: 'file.txt'", "https://x.com/a.zip", &[]), "file.txt");
    assert_eq!(extract_filename_from_output("Saving to: \u{2018}index.html\u{2019}", "https://x.com/a.zip", &[]), "a.zip");
    assert_eq!(extract_filename_from_output("", "https://example.com/a/b.tar.gz?x=1/2", &[]), "index.html");
    assert_eq!(extract_filename_from_output("", "example.com/c.txt", &[]), "c.txt");
}

#[test]
fn download_messages_exact() {
    assert_eq!(
        download_ok_message("https://example.com/f.zip", "f.zip", 2048),
        "example.com/f.zip ok | f.zip | 2.0KB"
    );
    assert_eq!(download_ok_message("http://h/f", "f", 0), "h/f ok | f | ?");
    assert_eq!(
        download_failed_message("https://example.com/f.zip", "404 Not Found"),
        "example.com/f.zip FAILED: 404 Not Found"
    );
}

#[test]
fn stdout_summary_short_and_long() {
    assert_eq!(stdout_summary("https://x.com", "a\nb\n", 4), "x.com ok | 2 lines\na\nb\n");
    let content: String = (0..25).map(|i| format!("l{}\n", i)).collect();
    let mut expected = String::from("x.com ok | 25 lines | 1.0KB\n--- first 10 lines ---\n");
    for i in 0..10 {
        expected.push_str(&format!("l{}\n", i));
    }
    expected.push_str("... +15 more lines");
    assert_eq!(stdout_summary("https://x.com", &content, 1024), expected);
}
