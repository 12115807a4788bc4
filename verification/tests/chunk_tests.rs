use tts_taps::chunk::chunk_text;

fn chunks(text: &str, max: Option<usize>) -> Vec<String> {
    chunk_text(text, max)
}

#[test]
fn empty_text_gives_one_empty_chunk() {
    assert_eq!(chunks("", None), vec![String::new()]);
    assert_eq!(chunks(" \n\n \t", None), vec![String::new()]);
}

#[test]
fn short_text_is_one_chunk() {
    assert_eq!(chunks("  Hello world.  ", None), vec!["Hello world."]);
    assert_eq!(chunks("a\nb", None), vec!["a\nb"]);
}

#[test]
fn paragraphs_are_split() {
    assert_eq!(chunks("First para.\n\nSecond para.", None), vec!["First para.", "Second para."]);
    assert_eq!(chunks("a\n \n b\n\n\n\nc", None), vec!["a", "b", "c"]);
}

#[test]
fn sentences_fill_chunks() {
    assert_eq!(
        chunks("One two three. Four five six. Seven.", Some(20)),
        vec!["One two three.", "Four five six.", "Seven."]
    );
    assert_eq!(chunks("Hi there. Yo! Ok?", Some(12)), vec!["Hi there.", "Yo! Ok?"]);
}

#[test]
fn abbreviations_do_not_end_sentences() {
    assert_eq!(
        chunks("Dr. Smith is here. Yes.", Some(10)),
        vec!["Dr. Smith", "is here.", "Yes."]
    );
    assert_eq!(chunks("See Mr. Bo. Go now.", Some(12)), vec!["See Mr. Bo.", "Go now."]);
}

#[test]
fn commas_then_words() {
    assert_eq!(chunks("aaa,bbb,ccc ddd", Some(7)), vec!["aaa, bbb", "ccc ddd"]);
    assert_eq!(chunks("abcdefghij", Some(3)), vec!["abcdefghij"]);
}

#[test]
fn comma_join_can_pass_the_limit_by_one() {
    let r = chunks("ab,c,dddd", Some(4));
    assert_eq!(r, vec!["ab, c", "dddd"]);
    assert_eq!(r[0].len(), 5);
}

#[test]
fn limit_counts_bytes() {
    assert_eq!(chunks("가나다 라마", Some(8)), vec!["가나다", "라마"]);
    assert_eq!(chunks("가나다 라마", Some(16)), vec!["가나다 라마"]);
}

#[test]
fn default_limit_is_300() {
    let word = "abcd ";
    let text = word.repeat(100);
    let r = chunks(&text, None);
    assert!(r.len() >= 2);
    for c in &r {
        assert!(c.len() <= 301);
        assert_eq!(c.trim(), c);
        assert!(!c.is_empty());
    }
    assert_eq!(chunks(&"x".repeat(300), None).len(), 1);
}

#[test]
fn chunks_respect_bounds() {
    let texts = [
        "One. Two, three, four five six seven. Eight nine ten eleven twelve.\n\nThirteen!",
        "a,b,c,d,e,f,g,h,i,j,k",
        "longwordlongword x y z, q r s t",
    ];
    for t in texts {
        for max in 1..12 {
            for c in chunks(t, Some(max)) {
                assert!(!c.is_empty());
                assert_eq!(c.trim(), c);
                assert!(c.len() <= max + 1 || !c.contains(char::is_whitespace));
            }
        }
    }
}
