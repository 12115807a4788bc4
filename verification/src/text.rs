//! Text normalization for the speech models: emoji removal, symbol
//! substitution, spacing and quote clean-up, final punctuation and the
//! language tags.

use vstd::prelude::*;
use unicode_normalization::UnicodeNormalization;
use crate::chars::{
    halve_until_single, lemma_halving_collapses_runs,
    collapse_ws_from, is_trimmed, is_ws, lemma_trim_end_props, lemma_trim_is_trimmed,
    lemma_trim_start_props, trim_start,
    collapse_char_runs, collapse_whitespace, collapse_ws, copy_range, replace_all,
    replace_chars, str_chars, string_from_chars, trim, trimmed,
};
use crate::error::TtsError;
use crate::lang::{is_available_lang, is_valid_lang};

verus! {

/// Emoji and pictograph blocks that the models do not read.
pub open spec fn is_emoji(c: char) -> bool {
    let u = c as u32;
    ||| 0x1F600 <= u <= 0x1F64F
    ||| 0x1F300 <= u <= 0x1F5FF
    ||| 0x1F680 <= u <= 0x1F6FF
    ||| 0x1F700 <= u <= 0x1F77F
    ||| 0x1F780 <= u <= 0x1F7FF
    ||| 0x1F800 <= u <= 0x1F8FF
    ||| 0x1F900 <= u <= 0x1F9FF
    ||| 0x1FA00 <= u <= 0x1FA6F
    ||| 0x1FA70 <= u <= 0x1FAFF
    ||| 0x2600 <= u <= 0x26FF
    ||| 0x2700 <= u <= 0x27BF
    ||| 0x1F1E6 <= u <= 0x1F1FF
}

/// `s` without its emoji.
pub open spec fn strip_emoji(s: Seq<char>) -> Seq<char>
    decreases s.len(),
{
    if s.len() == 0 {
        s
    } else if is_emoji(s[0]) {
        strip_emoji(s.drop_first())
    } else {
        seq![s[0]] + strip_emoji(s.drop_first())
    }
}

fn is_emoji_char(c: char) -> (b: bool)
    ensures
        b == is_emoji(c),
{
    let u = c as u32;
    (0x1F600 <= u && u <= 0x1F64F) || (0x1F300 <= u && u <= 0x1F5FF) || (0x1F680 <= u && u
        <= 0x1F6FF) || (0x1F700 <= u && u <= 0x1F77F) || (0x1F780 <= u && u <= 0x1F7FF) || (
    0x1F800 <= u && u <= 0x1F8FF) || (0x1F900 <= u && u <= 0x1F9FF) || (0x1FA00 <= u && u
        <= 0x1FA6F) || (0x1FA70 <= u && u <= 0x1FAFF) || (0x2600 <= u && u <= 0x26FF) || (0x2700
        <= u && u <= 0x27BF) || (0x1F1E6 <= u && u <= 0x1F1FF)
}

/// Removes the emoji from `s`.
pub fn remove_emoji(s: &Vec<char>) -> (r: Vec<char>)
    ensures
        r@ == strip_emoji(s@),
{
    let mut r: Vec<char> = Vec::new();
    let mut i: usize = 0;
    assert(s@.skip(0) =~= s@);
    while i < s.len()
        invariant
            i <= s@.len(),
            strip_emoji(s@) == r@ + strip_emoji(s@.skip(i as int)),
        decreases s.len() - i,
    {
        assert(s@.skip(i as int).drop_first() =~= s@.skip(i + 1));
        let ghost r0 = r@;
        if !is_emoji_char(s[i]) {
            r.push(s[i]);
            assert(r0 + (seq![s@[i as int]] + strip_emoji(s@.skip(i + 1))) =~= r@ + strip_emoji(
                s@.skip(i + 1),
            ));
        }
        i = i + 1;
    }
    assert(s@.skip(i as int) =~= Seq::<char>::empty());
    r
}

/// Characters that count as closing punctuation at the end of a text.
pub open spec fn is_closing_punct(c: char) -> bool {
    let u = c as u32;
    ||| c == '.'
    ||| c == '!'
    ||| c == '?'
    ||| c == ';'
    ||| c == ':'
    ||| c == ','
    ||| c == '\''
    ||| c == '"'
    ||| u == 0x201C
    ||| u == 0x201D
    ||| u == 0x2018
    ||| u == 0x2019
    ||| c == ')'
    ||| c == ']'
    ||| c == '}'
    ||| u == 0x2026
    ||| u == 0x3002
    ||| u == 0x300D
    ||| u == 0x300F
    ||| u == 0x3011
    ||| u == 0x3009
    ||| u == 0x300B
    ||| u == 0x203A
    ||| u == 0x00BB
}

fn is_closing_punct_char(c: char) -> (b: bool)
    ensures
        b == is_closing_punct(c),
{
    let u = c as u32;
    c == '.' || c == '!' || c == '?' || c == ';' || c == ':' || c == ',' || c == '\'' || c == '"'
        || u == 0x201C || u == 0x201D || u == 0x2018 || u == 0x2019 || c == ')' || c == ']' || c
        == '}' || u == 0x2026 || u == 0x3002 || u == 0x300D || u == 0x300F || u == 0x3011 || u
        == 0x3009 || u == 0x300B || u == 0x203A || u == 0x00BB
}

/// The literal substitutions, applied one after the other in this order:
/// dashes and quotes unified, brackets and separators turned into spaces,
/// decorative symbols dropped, `@` and two Latin abbreviations spelled out,
/// and the space before a punctuation mark removed.
pub open spec fn substitutions() -> Seq<(Seq<char>, Seq<char>)> {
    seq![
        (seq!['\u{2013}'], seq!['-']),
        (seq!['\u{2011}'], seq!['-']),
        (seq!['\u{2014}'], seq!['-']),
        (seq!['_'], seq![' ']),
        (seq!['\u{201C}'], seq!['"']),
        (seq!['\u{201D}'], seq!['"']),
        (seq!['\u{2018}'], seq!['\'']),
        (seq!['\u{2019}'], seq!['\'']),
        (seq!['\u{00B4}'], seq!['\'']),
        (seq!['`'], seq!['\'']),
        (seq!['['], seq![' ']),
        (seq![']'], seq![' ']),
        (seq!['|'], seq![' ']),
        (seq!['/'], seq![' ']),
        (seq!['#'], seq![' ']),
        (seq!['\u{2192}'], seq![' ']),
        (seq!['\u{2190}'], seq![' ']),
        (seq!['\u{2665}'], seq![]),
        (seq!['\u{2606}'], seq![]),
        (seq!['\u{2661}'], seq![]),
        (seq!['\u{00A9}'], seq![]),
        (seq!['\\'], seq![]),
        (seq!['@'], seq![' ', 'a', 't', ' ']),
        (seq!['e', '.', 'g', '.', ','], seq!['f', 'o', 'r', ' ', 'e', 'x', 'a', 'm', 'p', 'l', 'e', ',', ' ']),
        (seq!['i', '.', 'e', '.', ','], seq!['t', 'h', 'a', 't', ' ', 'i', 's', ',', ' ']),
        (seq![' ', ','], seq![',']),
        (seq![' ', '.'], seq!['.']),
        (seq![' ', '!'], seq!['!']),
        (seq![' ', '?'], seq!['?']),
        (seq![' ', ';'], seq![';']),
        (seq![' ', ':'], seq![':']),
        (seq![' ', '\''], seq!['\'']),
    ]
}

/// `s` after each substitution of `table`, in order.
pub open spec fn substitute_all(s: Seq<char>, table: Seq<(Seq<char>, Seq<char>)>) -> Seq<char>
    decreases table.len(),
{
    if table.len() == 0 {
        s
    } else {
        substitute_all(replace_all(s, table[0].0, table[0].1), table.drop_first())
    }
}

fn substitution(from: &str, to: &str) -> (p: (Vec<char>, Vec<char>))
    ensures
        p.0@ == from@,
        p.1@ == to@,
{
    (str_chars(from), str_chars(to))
}

fn substitution_table() -> (t: Vec<(Vec<char>, Vec<char>)>)
    ensures
        t@.len() == substitutions().len(),
        forall|i: int|
            0 <= i < t@.len() ==> (#[trigger] t@[i]).0@ == substitutions()[i].0 && t@[i].1@
                == substitutions()[i].1,
{
    proof {
        reveal_strlit("\u{2013}");
        reveal_strlit("\u{2011}");
        reveal_strlit("\u{2014}");
        reveal_strlit("-");
        reveal_strlit("_");
        reveal_strlit(" ");
        reveal_strlit("\u{201C}");
        reveal_strlit("\u{201D}");
        reveal_strlit("\"");
        reveal_strlit("\u{2018}");
        reveal_strlit("\u{2019}");
        reveal_strlit("\u{00B4}");
        reveal_strlit("`");
        reveal_strlit("'");
        reveal_strlit("[");
        reveal_strlit("]");
        reveal_strlit("|");
        reveal_strlit("/");
        reveal_strlit("#");
        reveal_strlit("\u{2192}");
        reveal_strlit("\u{2190}");
        reveal_strlit("\u{2665}");
        reveal_strlit("\u{2606}");
        reveal_strlit("\u{2661}");
        reveal_strlit("\u{00A9}");
        reveal_strlit("\\");
        reveal_strlit("");
        reveal_strlit("@");
        reveal_strlit(" at ");
        reveal_strlit("e.g.,");
        reveal_strlit("for example, ");
        reveal_strlit("i.e.,");
        reveal_strlit("that is, ");
        reveal_strlit(" ,");
        reveal_strlit(",");
        reveal_strlit(" .");
        reveal_strlit(".");
        reveal_strlit(" !");
        reveal_strlit("!");
        reveal_strlit(" ?");
        reveal_strlit("?");
        reveal_strlit(" ;");
        reveal_strlit(";");
        reveal_strlit(" :");
        reveal_strlit(":");
        reveal_strlit(" '");
    }
    let t = vec![
        substitution("\u{2013}", "-"),
        substitution("\u{2011}", "-"),
        substitution("\u{2014}", "-"),
        substitution("_", " "),
        substitution("\u{201C}", "\""),
        substitution("\u{201D}", "\""),
        substitution("\u{2018}", "'"),
        substitution("\u{2019}", "'"),
        substitution("\u{00B4}", "'"),
        substitution("`", "'"),
        substitution("[", " "),
        substitution("]", " "),
        substitution("|", " "),
        substitution("/", " "),
        substitution("#", " "),
        substitution("\u{2192}", " "),
        substitution("\u{2190}", " "),
        substitution("\u{2665}", ""),
        substitution("\u{2606}", ""),
        substitution("\u{2661}", ""),
        substitution("\u{00A9}", ""),
        substitution("\\", ""),
        substitution("@", " at "),
        substitution("e.g.,", "for example, "),
        substitution("i.e.,", "that is, "),
        substitution(" ,", ","),
        substitution(" .", "."),
        substitution(" !", "!"),
        substitution(" ?", "?"),
        substitution(" ;", ";"),
        substitution(" :", ":"),
        substitution(" '", "'"),
    ];
    assert(t@.len() == substitutions().len());
    assert forall|i: int| 0 <= i < t@.len() implies (#[trigger] t@[i]).0@ == substitutions()[i].0
        && t@[i].1@ == substitutions()[i].1 by {
        assert(t@[i].0@ =~= substitutions()[i].0);
        assert(t@[i].1@ =~= substitutions()[i].1);
    }
    t
}

/// Applies every substitution of the table, in order.
pub fn apply_substitutions(s: &Vec<char>) -> (r: Vec<char>)
    ensures
        r@ == substitute_all(s@, substitutions()),
{
    let table = substitution_table();
    let mut cur: Vec<char> = copy_range(s, 0, s.len());
    assert(s@.subrange(0, s@.len() as int) =~= s@);
    let mut i: usize = 0;
    assert(substitutions().skip(0) =~= substitutions());
    while i < table.len()
        invariant
            i <= table@.len(),
            table@.len() == substitutions().len(),
            forall|k: int|
                0 <= k < table@.len() ==> (#[trigger] table@[k]).0@ == substitutions()[k].0
                    && table@[k].1@ == substitutions()[k].1,
            substitute_all(s@, substitutions()) == substitute_all(
                cur@,
                substitutions().skip(i as int),
            ),
        decreases table.len() - i,
    {
        assert(substitutions()[i as int].0.len() > 0);
        assert(substitutions().skip(i as int).drop_first() =~= substitutions().skip(i + 1));
        cur = replace_chars(&cur, &table[i].0, &table[i].1);
        i = i + 1;
    }
    assert(substitutions().skip(i as int) =~= Seq::<(Seq<char>, Seq<char>)>::empty());
    cur
}


/// The text the models read, from an already decomposed text: emoji removed,
/// substitutions applied, runs of `"`, `'` and backquotes shortened to one,
/// whitespace runs turned into single spaces, trimmed, and ended with `.`
/// when it is not empty and does not end with closing punctuation.
pub open spec fn clean_text(normalized: Seq<char>) -> Seq<char> {
    let t = substitute_all(strip_emoji(normalized), substitutions());
    let t = halve_until_single(halve_until_single(halve_until_single(t, '"'), '\''), '`');
    let t = trim(collapse_ws(t));
    if t.len() > 0 && !is_closing_punct(t.last()) {
        t.push('.')
    } else {
        t
    }
}

/// `text` between the tags `<lang>` and `</lang>`.
pub open spec fn tagged(lang: Seq<char>, text: Seq<char>) -> Seq<char> {
    seq!['<'] + lang + seq!['>'] + text + seq!['<', '/'] + lang + seq!['>']
}

/// Cleans an already decomposed text for the models.
pub fn clean_normalized(normalized: &Vec<char>) -> (r: Vec<char>)
    ensures
        r@ == clean_text(normalized@),
{
    let t = remove_emoji(normalized);
    let t = apply_substitutions(&t);
    let t = collapse_char_runs(&t, '"');
    let t = collapse_char_runs(&t, '\'');
    let t = collapse_char_runs(&t, '`');
    proof {
        let t0 = substitute_all(strip_emoji(normalized@), substitutions());
        lemma_halving_collapses_runs(t0, '"');
        lemma_halving_collapses_runs(halve_until_single(t0, '"'), '\'');
        lemma_halving_collapses_runs(
            halve_until_single(halve_until_single(t0, '"'), '\''),
            '`',
        );
    }
    let t = collapse_whitespace(&t);
    let mut t = trimmed(&t);
    if t.len() > 0 && !is_closing_punct_char(t[t.len() - 1]) {
        t.push('.');
    }
    t
}

fn push_tag(out: &mut Vec<char>, lang: &Vec<char>, closing: bool)
    ensures
        final(out)@ == old(out)@ + (if closing {
            seq!['<', '/']
        } else {
            seq!['<']
        }) + lang@ + seq!['>'],
{
    out.push('<');
    if closing {
        out.push('/');
    }
    crate::chars::append_chars(out, lang);
    out.push('>');
    assert(final(out)@ =~= old(out)@ + (if closing {
        seq!['<', '/']
    } else {
        seq!['<']
    }) + lang@ + seq!['>']);
}

/// Model input from an already decomposed text: the cleaned text between
/// language tags, or an error when `lang` is not a known language.
pub fn preprocess_normalized(normalized: &str, lang: &str) -> (r: Result<String, TtsError>)
    ensures
        r is Ok <==> is_available_lang(lang@),
        r matches Ok(s) ==> s@ == tagged(lang@, clean_text(normalized@)),
        r matches Err(e) ==> e matches TtsError::InvalidLanguage(l) && l@ == lang@,
{
    let chars = str_chars(normalized);
    let cleaned = clean_normalized(&chars);
    if !is_valid_lang(lang) {
        return Err(TtsError::InvalidLanguage(String::from_str(lang)));
    }
    let l = str_chars(lang);
    let mut out: Vec<char> = Vec::new();
    push_tag(&mut out, &l, false);
    crate::chars::append_chars(&mut out, &cleaned);
    push_tag(&mut out, &l, true);
    assert(out@ =~= tagged(lang@, clean_text(normalized@)));
    Ok(string_from_chars(&out))
}

/// Name for the compatibility decomposition (NFKD) of `text`, as the
/// `unicode-normalization` crate computes it.
pub uninterp spec fn nfkd_chars(text: Seq<char>) -> Seq<char>;

/// Trusted: `UnicodeNormalization::nfkd` of `unicode-normalization`, collected
/// into a `String`. The contract only names the result: it is `nfkd_chars` of
/// the input's characters.
#[verifier::external_body]
fn nfkd(text: &str) -> (r: String)
    ensures
        r@ == nfkd_chars(text@),
{
    text.nfkd().collect()
}

/// What `preprocess_text` makes of `text` in language `lang`.
pub open spec fn preprocessed(text: Seq<char>, lang: Seq<char>) -> Seq<char> {
    tagged(lang, clean_text(nfkd_chars(text)))
}

/// Model input for `text` in `lang`: the decomposed, cleaned text between
/// language tags, or an error when `lang` is not a known language.
pub fn preprocess_text(text: &str, lang: &str) -> (r: Result<String, TtsError>)
    ensures
        r is Ok <==> is_available_lang(lang@),
        r matches Ok(s) ==> s@ == preprocessed(text@, lang@),
        r matches Err(e) ==> e matches TtsError::InvalidLanguage(l) && l@ == lang@,
{
    let normalized = nfkd(text);
    preprocess_normalized(normalized.as_str(), lang)
}

/// The code points of `text`, one per character.
pub open spec fn code_points(text: Seq<char>) -> Seq<usize> {
    text.map_values(|c: char| c as usize)
}

/// The code point of each character of `text`.
pub fn text_to_unicode_values(text: &str) -> (r: Vec<usize>)
    ensures
        r@ == code_points(text@),
{
    let chars = str_chars(text);
    let mut r: Vec<usize> = Vec::new();
    let mut i: usize = 0;
    while i < chars.len()
        invariant
            i <= chars@.len(),
            chars@ == text@,
            r@ == code_points(text@).take(i as int),
        decreases chars.len() - i,
    {
        let c = chars[i];
        r.push(c as usize);
        i = i + 1;
        assert(r@ =~= code_points(text@).take(i as int));
    }
    assert(code_points(text@).take(i as int) =~= code_points(text@));
    r
}


/// Whether no two whitespace characters follow each other in `s`.
pub open spec fn no_double_ws(s: Seq<char>) -> bool {
    forall|i: int| 0 <= i < s.len() - 1 ==> !(is_ws(#[trigger] s[i]) && is_ws(s[i + 1]))
}

proof fn lemma_collapse_ws_from(s: Seq<char>, after_ws: bool)
    ensures
        no_double_ws(collapse_ws_from(s, after_ws)),
        after_ws && collapse_ws_from(s, after_ws).len() > 0 ==> !is_ws(
            collapse_ws_from(s, after_ws)[0],
        ),
    decreases s.len(),
{
    if s.len() > 0 {
        let r = s.drop_first();
        if is_ws(s[0]) {
            lemma_collapse_ws_from(r, true);
            if !after_ws {
                let t = collapse_ws_from(r, true);
                let out = seq![' '] + t;
                assert forall|i: int| 0 <= i < out.len() - 1 implies !(is_ws(#[trigger] out[i])
                    && is_ws(out[i + 1])) by {
                    if i > 0 {
                        assert(out[i] == t[i - 1]);
                        assert(out[i + 1] == t[i]);
                    } else {
                        assert(out[1] == t[0]);
                    }
                }
            }
        } else {
            lemma_collapse_ws_from(r, false);
            let t = collapse_ws_from(r, false);
            let out = seq![s[0]] + t;
            assert forall|i: int| 0 <= i < out.len() - 1 implies !(is_ws(#[trigger] out[i]) && is_ws(
                out[i + 1],
            )) by {
                if i > 0 {
                    assert(out[i] == t[i - 1]);
                    assert(out[i + 1] == t[i]);
                }
            }
        }
    }
}

proof fn lemma_no_double_ws_subrange(s: Seq<char>, a: int, b: int)
    requires
        0 <= a <= b <= s.len(),
        no_double_ws(s),
    ensures
        no_double_ws(s.subrange(a, b)),
{
    let t = s.subrange(a, b);
    assert forall|i: int| 0 <= i < t.len() - 1 implies !(is_ws(#[trigger] t[i]) && is_ws(
        t[i + 1],
    )) by {
        assert(t[i] == s[a + i]);
        assert(t[i + 1] == s[a + i + 1]);
    }
}

/// The cleaned text neither starts nor ends with whitespace, never holds two
/// whitespace characters in a row, and ends with closing punctuation when it
/// is not empty.
pub proof fn lemma_clean_text_shape(normalized: Seq<char>)
    ensures
        is_trimmed(clean_text(normalized)),
        no_double_ws(clean_text(normalized)),
        clean_text(normalized).len() > 0 ==> is_closing_punct(clean_text(normalized).last()),
{
    let t0 = substitute_all(strip_emoji(normalized), substitutions());
    let t1 = halve_until_single(halve_until_single(halve_until_single(t0, '"'), '\''), '`');
    let c = collapse_ws(t1);
    lemma_collapse_ws_from(t1, false);
    let a = trim_start(c);
    lemma_trim_start_props(c);
    lemma_trim_end_props(a);
    let t = trim(c);
    assert(a =~= c.subrange(c.len() - a.len(), c.len() as int));
    lemma_no_double_ws_subrange(c, c.len() - a.len(), c.len() as int);
    assert(t =~= a.subrange(0, t.len() as int));
    lemma_no_double_ws_subrange(a, 0, t.len() as int);
    lemma_trim_is_trimmed(c);
    if t.len() > 0 && !is_closing_punct(t.last()) {
        let u = t.push('.');
        assert(u[0] == t[0]);
        assert forall|i: int| 0 <= i < u.len() - 1 implies !(is_ws(#[trigger] u[i]) && is_ws(
            u[i + 1],
        )) by {
            if i < t.len() - 1 {
                assert(u[i] == t[i]);
                assert(u[i + 1] == t[i + 1]);
            }
        }
    }
}

} // verus!
