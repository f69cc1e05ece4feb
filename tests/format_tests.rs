use cargo_geiger::format::{
    colorize, construct_scan_mode_default_output_key_lines, construct_scan_mode_forbid_only_output_key_lines, pad_to,
    forbid_only_marking, status_symbol, str_eq, Charset, CrateDetectionStatus, EmojiSymbols, ScanMode, SymbolKind,
};
use cargo_geiger::pattern::{Chunk, Pattern, PatternError};
use colored::Colorize;
use std::str::FromStr;

#[test]
fn charset_from_str_test() {
    assert_eq!(Charset::from_str("utf8"), Ok(Charset::Utf8));

    assert_eq!(Charset::from_str("ascii"), Ok(Charset::Ascii));

    assert_eq!(Charset::from_str("invalid_str"), Err("invalid charset"));
}

#[test]
fn colorize_matches_colored() {
    let s = String::from("string_value");
    assert_eq!(
        colorize(Charset::Ascii, &CrateDetectionStatus::NoneDetectedForbidsUnsafe, s.clone()),
        s.clone().green().to_string()
    );
    assert_eq!(
        colorize(Charset::Utf8, &CrateDetectionStatus::NoneDetectedAllowsUnsafe, s.clone()),
        s.clone().normal().to_string()
    );
    assert_eq!(
        colorize(Charset::Ascii, &CrateDetectionStatus::UnsafeDetected, s.clone()),
        s.clone().red().bold().to_string()
    );
}

#[test]
fn colorize_leaves_markdown_plain() {
    for status in [
        CrateDetectionStatus::NoneDetectedForbidsUnsafe,
        CrateDetectionStatus::NoneDetectedAllowsUnsafe,
        CrateDetectionStatus::UnsafeDetected,
    ] {
        assert_eq!(colorize(Charset::GitHubMarkdown, &status, String::from("string_value")), "string_value");
    }
}

#[test]
fn colorize_with_forced_colors_wraps_text() {
    colored::control::set_override(true);
    let green = colorize(Charset::Utf8, &CrateDetectionStatus::NoneDetectedForbidsUnsafe, String::from("x"));
    let red = colorize(Charset::Utf8, &CrateDetectionStatus::UnsafeDetected, String::from("x"));
    let lines = construct_scan_mode_default_output_key_lines(&EmojiSymbols::new(Charset::Ascii));
    let (_, red_name) = forbid_only_marking(None, String::from("x"));
    colored::control::unset_override();
    assert_eq!(red_name, "\x1B[31mx\x1B[0m");
    assert_eq!(lines[10], "\x1B[1mFunctions  Expressions  Impls  Traits  Methods  Dependency\x1B[0m");
    assert_eq!(lines[6], "    \x1B[32m:)\x1B[0m = No `unsafe` usage found, declares #![forbid(unsafe_code)]");
    assert_eq!(green, "\x1B[32mx\x1B[0m");
    assert_eq!(red, "\x1B[1;31mx\x1B[0m");
}

#[test]
fn str_eq_compares_characters() {
    assert!(str_eq("héllo", "héllo"));
    assert!(!str_eq("hello", "hellO"));
    assert!(!str_eq("ab", "abc"));
}

fn chunk_names(p: &Pattern) -> Vec<String> {
    p.0.iter()
        .map(|c| match c {
            Chunk::Raw(s) => format!("raw:{}", s),
            Chunk::Package => "package".to_string(),
            Chunk::License => "license".to_string(),
            Chunk::Repository => "repository".to_string(),
        })
        .collect()
}

#[test]
fn pattern_arguments_and_text() {
    let p = Pattern::try_build("{p} ({l}, {r})").unwrap();
    assert_eq!(
        chunk_names(&p),
        vec!["package", "raw: (", "license", "raw:, ", "repository", "raw:)"]
    );
}

#[test]
fn pattern_escaped_braces() {
    let p = Pattern::try_build("{{x}}").unwrap();
    assert_eq!(chunk_names(&p), vec!["raw:{", "raw:x", "raw:}"]);
    assert!(Pattern::try_build("").unwrap().0.is_empty());
}

#[test]
fn pattern_errors() {
    match Pattern::try_build("{p} {x}") {
        Err(e @ PatternError::Unsupported(_)) => assert_eq!(e.message(), "unsupported pattern `x`"),
        other => panic!("unexpected {:?}", other),
    }
    match Pattern::try_build("{p") {
        Err(e @ PatternError::ExpectedCloseBrace) => assert_eq!(e.message(), "expected '}'"),
        other => panic!("unexpected {:?}", other),
    }
    match Pattern::try_build("a}b") {
        Err(e @ PatternError::UnexpectedCloseBrace) => assert_eq!(e.message(), "unexpected '}'"),
        other => panic!("unexpected {:?}", other),
    }
    assert!(matches!(Pattern::try_build("{}"), Err(PatternError::Unsupported(_))));
}

#[test]
fn pattern_render() {
    let p = Pattern::try_build("{p} [{l}] {r}").unwrap();
    let license = Some("MIT".to_string());
    assert_eq!(p.render("geiger", "0.4.5", &license, &None), "geiger 0.4.5 [MIT] ");
}

#[test]
fn construct_scan_mode_default_output_key_lines_test() {
    let emoji_symbols = EmojiSymbols::new(Charset::Utf8);
    let output_key_lines = construct_scan_mode_default_output_key_lines(&emoji_symbols);

    assert_eq!(output_key_lines.len(), 12);
}

#[test]
fn construct_scan_mode_forbid_only_output_key_lines_test() {
    let emoji_symbols = EmojiSymbols::new(Charset::Utf8);
    let output_key_lines = construct_scan_mode_forbid_only_output_key_lines(&emoji_symbols);

    assert_eq!(output_key_lines.len(), 5);
}

#[test]
fn markdown_key_lines_are_plain() {
    let emoji_symbols = EmojiSymbols::new(Charset::GitHubMarkdown);
    let lines = construct_scan_mode_default_output_key_lines(&emoji_symbols);
    assert_eq!(lines[1], "Metric output format: x/y");
    assert_eq!(lines[6], "    :) = No `unsafe` usage found, declares #![forbid(unsafe_code)]");
    assert_eq!(lines[7], "    ?  = No `unsafe` usage found, missing #![forbid(unsafe_code)]");
    assert_eq!(lines[8], "    !  = `unsafe` usage found");
    assert_eq!(lines[10], "Functions  Expressions  Impls  Traits  Methods  Dependency");
    let lines = construct_scan_mode_forbid_only_output_key_lines(&emoji_symbols);
    assert_eq!(lines[2], "    :) = All entry point .rs files declare #![forbid(unsafe_code)].");
}

#[test]
fn symbols_with_and_without_emoji() {
    let symbols = EmojiSymbols::new(Charset::GitHubMarkdown);
    assert_eq!(symbols.symbol(SymbolKind::Lock, true), "🔒");
    assert_eq!(symbols.symbol(SymbolKind::Rads, false), "!");
    assert_eq!(symbols.emoji(SymbolKind::QuestionMark), "?");
    assert!(!symbols.will_output_emoji());
}

#[test]
fn pad_to_width() {
    assert_eq!(pad_to("?", 2), "? ");
    assert_eq!(pad_to(":)", 2), ":)");
    assert_eq!(pad_to("long", 2), "long");
    assert_eq!(pad_to("é", 3), "é  ");
}


#[test]
fn scan_mode_and_symbols() {
    assert!(ScanMode::Full.includes(false));
    assert!(!ScanMode::EntryPointsOnly.includes(false));
    assert!(ScanMode::EntryPointsOnly.includes(true));
    assert_eq!(status_symbol(CrateDetectionStatus::UnsafeDetected), SymbolKind::Rads);
    assert_eq!(status_symbol(CrateDetectionStatus::NoneDetectedForbidsUnsafe), SymbolKind::Lock);
    let name = String::from("geiger 0.5.0");
    assert_eq!(forbid_only_marking(Some(true), name.clone()), (SymbolKind::Lock, name.clone().green().to_string()));
    assert_eq!(forbid_only_marking(None, name.clone()), (SymbolKind::QuestionMark, name.clone().red().to_string()));
    assert_eq!(
        forbid_only_marking(Some(false), name.clone()),
        (SymbolKind::QuestionMark, name.clone().red().to_string())
    );
}
