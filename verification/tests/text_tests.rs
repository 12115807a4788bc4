use tts_taps::error::TtsError;
use tts_taps::lang::{available_langs, is_valid_lang};
use tts_taps::processor::{get_text_mask, length_to_mask, UnicodeProcessor};
use tts_taps::text::{preprocess_normalized, preprocess_text, text_to_unicode_values};

fn pre(text: &str, lang: &str) -> String {
    preprocess_text(text, lang).unwrap()
}

#[test]
fn valid_languages() {
    assert!(is_valid_lang("en"));
    assert!(is_valid_lang("ko"));
    assert!(is_valid_lang("na"));
    assert!(!is_valid_lang("xx"));
    assert!(!is_valid_lang(""));
    assert!(!is_valid_lang("EN"));
    assert!(!is_valid_lang("eng"));
}

#[test]
fn language_list() {
    let langs = available_langs();
    assert_eq!(langs.len(), 32);
    assert_eq!(langs[0], "en");
    assert_eq!(langs[1], "ko");
    assert_eq!(langs[31], "na");
    assert!(langs.iter().all(|l| is_valid_lang(l)));
}

#[test]
fn unicode_values() {
    assert_eq!(text_to_unicode_values("aé"), vec![97, 233]);
    assert_eq!(text_to_unicode_values(""), Vec::<usize>::new());
    assert_eq!(text_to_unicode_values("가😀"), vec![0xAC00, 0x1F600]);
}

#[test]
fn preprocess_adds_period_and_tags() {
    assert_eq!(pre("Hello world", "en"), "<en>Hello world.</en>");
    assert_eq!(pre("Hi  there!", "ko"), "<ko>Hi there!</ko>");
}

#[test]
fn preprocess_empty_text() {
    assert_eq!(pre("", "en"), "<en></en>");
    assert_eq!(pre("   \n\t ", "ja"), "<ja></ja>");
}

#[test]
fn preprocess_rejects_unknown_language() {
    match preprocess_text("Hello", "zz") {
        Err(TtsError::InvalidLanguage(l)) => assert_eq!(l, "zz"),
        other => panic!("unexpected {:?}", other),
    }
}

#[test]
fn preprocess_removes_emoji_and_space_before_marks() {
    assert_eq!(pre("Hi \u{1F600}!", "en"), "<en>Hi!</en>");
    assert_eq!(pre("Sun \u{2600} rise , ok ?", "en"), "<en>Sun rise, ok?</en>");
}

#[test]
fn preprocess_substitutions() {
    assert_eq!(pre("a\u{2013}b", "en"), "<en>a-b.</en>");
    assert_eq!(pre("mail me @ home", "en"), "<en>mail me at home.</en>");
    assert_eq!(pre("fruit, e.g., apples", "en"), "<en>fruit, for example, apples.</en>");
    assert_eq!(pre("Tom's [note]", "en"), "<en>Tom's note.</en>");
    assert_eq!(pre("love \u{2665} you", "en"), "<en>love you.</en>");
    assert_eq!(pre("a_b|c/d#e", "en"), "<en>a b c d e.</en>");
}

#[test]
fn preprocess_quotes() {
    assert_eq!(pre("\u{201C}Hi\u{201D}", "en"), "<en>\"Hi\"</en>");
    assert_eq!(pre("say \"\"\"yes\"", "en"), "<en>say \"yes\"</en>");
    assert_eq!(pre("it''s", "en"), "<en>it's.</en>");
    assert_eq!(pre("it``s", "en"), "<en>it's.</en>");
}

#[test]
fn preprocess_decomposes_compatibility_characters() {
    // U+FB01 (the fi ligature) decomposes to "fi".
    assert_eq!(pre("\u{FB01}ne", "en"), "<en>fine.</en>");
    // The full-width exclamation mark decomposes to "!".
    assert_eq!(pre("Wow\u{FF01}", "en"), "<en>Wow!</en>");
}

#[test]
fn preprocess_normalized_keeps_composed() {
    let r = preprocess_normalized("\u{FB01}", "en").unwrap();
    assert_eq!(r, "<en>\u{FB01}.</en>");
}

#[test]
fn cleaned_text_shape() {
    for t in ["  a   b  ", "x ,y", "\"\"q\"\"", "end...", "[x]", ""] {
        let r = pre(t, "en");
        let inner = &r[4..r.len() - 5];
        assert_eq!(inner.trim(), inner);
        assert!(!inner.contains("  "));
        if let Some(c) = inner.chars().last() {
            assert!(".!?;:,'\")]}".contains(c));
        }
    }
}

#[test]
fn masks() {
    let m = length_to_mask(&[2, 0, 3], None);
    assert_eq!(m, vec![vec![vec![1, 1, 0]], vec![vec![0, 0, 0]], vec![vec![1, 1, 1]]]);
    let m = length_to_mask(&[2, 0, 3], Some(2));
    assert_eq!(m, vec![vec![vec![1, 1]], vec![vec![0, 0]], vec![vec![1, 1]]]);
    let m = length_to_mask(&[1], Some(3));
    assert_eq!(m, vec![vec![vec![1, 0, 0]]]);
    assert_eq!(get_text_mask(&[]), Vec::<Vec<Vec<u8>>>::new());
    assert_eq!(get_text_mask(&[1, 2]), vec![vec![vec![1, 0]], vec![vec![1, 1]]]);
}

fn ascii_indexer() -> UnicodeProcessor {
    let entries: Vec<String> = (0..128).map(|i| (i * 10).to_string()).collect();
    let json = format!("[{}]", entries.join(","));
    UnicodeProcessor::new(json.as_bytes()).unwrap()
}

#[test]
fn processor_tokens_and_mask() {
    let p = ascii_indexer();
    let texts = vec!["Hi".to_string(), "Yes!".to_string()];
    let langs = vec!["en".to_string(), "ko".to_string()];
    let (ids, mask) = p.call(&texts, &langs).unwrap();
    let a = "<en>Hi.</en>";
    let b = "<ko>Yes!</ko>";
    assert_eq!(ids.len(), 2);
    assert_eq!(ids[0].len(), 13);
    assert_eq!(ids[1].len(), 13);
    for (j, c) in a.chars().enumerate() {
        assert_eq!(ids[0][j], c as i64 * 10);
    }
    assert_eq!(ids[0][12], 0);
    for (j, c) in b.chars().enumerate() {
        assert_eq!(ids[1][j], c as i64 * 10);
    }
    let mut row0 = vec![1u8; 12];
    row0.push(0);
    assert_eq!(mask, vec![vec![row0], vec![vec![1u8; 13]]]);
}

#[test]
fn processor_unknown_characters() {
    let p = UnicodeProcessor::new(b"[7, 8]").unwrap();
    let (ids, _) = p.call(&["a".to_string()], &["en".to_string()]).unwrap();
    assert_eq!(ids, vec![vec![-1i64; 11]]);
}

#[test]
fn processor_bad_json() {
    assert!(matches!(UnicodeProcessor::new(b"not json"), Err(TtsError::IndexerJson(_))));
    assert!(matches!(UnicodeProcessor::new(b"[1.5]"), Err(TtsError::IndexerJson(_))));
}

#[test]
fn processor_first_bad_language() {
    let p = ascii_indexer();
    let texts = vec!["a".to_string(), "b".to_string(), "c".to_string()];
    let langs = vec!["en".to_string(), "xx".to_string(), "yy".to_string()];
    match p.call(&texts, &langs) {
        Err(TtsError::InvalidLanguage(l)) => assert_eq!(l, "xx"),
        _ => panic!("expected an invalid language"),
    }
}

#[test]
fn processor_reads_shorter_list() {
    let p = ascii_indexer();
    let texts = vec!["a".to_string(), "b".to_string()];
    let langs = vec!["en".to_string()];
    let (ids, mask) = p.call(&texts, &langs).unwrap();
    assert_eq!(ids.len(), 1);
    assert_eq!(mask.len(), 1);
    let (ids, mask) = p.call(&[], &langs).unwrap();
    assert!(ids.is_empty() && mask.is_empty());
}
