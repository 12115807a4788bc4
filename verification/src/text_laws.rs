//! What the model input can no longer hold once it has been cleaned: no
//! emoji, and none of the symbols that the substitutions replace.

use vstd::prelude::*;
use crate::chars::{
    collapse_ws_from, halve_until_single, has_pair, lemma_halve_pairs_len, lemma_trim_end_props,
    lemma_trim_start_props, occurs_at, replace_all, trim, trim_start,
};
use crate::lang::{is_available_lang, lemma_lang_code_letters};
use crate::text::{
    clean_text, is_closing_punct, is_emoji, preprocessed, strip_emoji, substitute_all,
    substitutions, tagged,
};

verus! {

/// Whether every character of `s` satisfies `ok`.
pub open spec fn all_chars(s: Seq<char>, ok: spec_fn(char) -> bool) -> bool {
    forall|i: int| 0 <= i < s.len() ==> ok(#[trigger] s[i])
}

/// The property of being a character other than `x`.
pub open spec fn other_than(x: char) -> spec_fn(char) -> bool {
    |c: char| c != x
}

pub(crate) proof fn lemma_all_chars_concat(a: Seq<char>, b: Seq<char>, ok: spec_fn(char) -> bool)
    ensures
        all_chars(a + b, ok) <==> all_chars(a, ok) && all_chars(b, ok),
{
    if all_chars(a, ok) && all_chars(b, ok) {
        assert forall|i: int| 0 <= i < (a + b).len() implies ok(#[trigger] (a + b)[i]) by {
            if i < a.len() {
                assert((a + b)[i] == a[i]);
            } else {
                assert((a + b)[i] == b[i - a.len()]);
            }
        }
    }
    if all_chars(a + b, ok) {
        assert forall|i: int| 0 <= i < a.len() implies ok(#[trigger] a[i]) by {
            assert((a + b)[i] == a[i]);
        }
        assert forall|i: int| 0 <= i < b.len() implies ok(#[trigger] b[i]) by {
            assert((a + b)[i + a.len()] == b[i]);
        }
    }
}

pub(crate) proof fn lemma_all_chars_subrange(s: Seq<char>, lo: int, hi: int, ok: spec_fn(char) -> bool)
    requires
        all_chars(s, ok),
        0 <= lo <= hi <= s.len(),
    ensures
        all_chars(s.subrange(lo, hi), ok),
{
    assert forall|i: int| 0 <= i < hi - lo implies ok(#[trigger] s.subrange(lo, hi)[i]) by {
        assert(s.subrange(lo, hi)[i] == s[lo + i]);
    }
}

proof fn lemma_all_chars_weaken(s: Seq<char>, ok: spec_fn(char) -> bool, ok2: spec_fn(char) -> bool)
    requires
        all_chars(s, ok),
        forall|c: char| #[trigger] ok(c) ==> ok2(c),
    ensures
        all_chars(s, ok2),
{
    assert forall|i: int| 0 <= i < s.len() implies ok2(#[trigger] s[i]) by {
        assert(ok(s[i]));
    }
}

/// Replacing keeps a property of the characters that `s` and the
/// replacement both have.
proof fn lemma_replace_all_keeps(
    s: Seq<char>,
    from: Seq<char>,
    to: Seq<char>,
    ok: spec_fn(char) -> bool,
)
    requires
        all_chars(s, ok),
        all_chars(to, ok),
    ensures
        all_chars(replace_all(s, from, to), ok),
    decreases s.len(),
{
    if s.len() > 0 {
        if from.len() > 0 && occurs_at(s, from, 0) {
            let rest = s.skip(from.len() as int);
            lemma_all_chars_subrange(s, from.len() as int, s.len() as int, ok);
            assert(rest =~= s.subrange(from.len() as int, s.len() as int));
            lemma_replace_all_keeps(rest, from, to, ok);
            lemma_all_chars_concat(to, replace_all(rest, from, to), ok);
        } else {
            let rest = s.drop_first();
            lemma_all_chars_subrange(s, 1, s.len() as int, ok);
            assert(rest =~= s.subrange(1, s.len() as int));
            lemma_replace_all_keeps(rest, from, to, ok);
            assert(all_chars(seq![s[0]], ok)) by {
                assert(seq![s[0]][0] == s[0]);
            }
            lemma_all_chars_concat(seq![s[0]], replace_all(rest, from, to), ok);
        }
    }
}

/// Replacing the one-character pattern `x` by a text without `x` leaves no `x`.
proof fn lemma_replace_all_drops(s: Seq<char>, x: char, to: Seq<char>)
    requires
        all_chars(to, other_than(x)),
    ensures
        all_chars(replace_all(s, seq![x], to), other_than(x)),
    decreases s.len(),
{
    let from = seq![x];
    if s.len() > 0 {
        if occurs_at(s, from, 0) {
            let rest = s.skip(1);
            lemma_replace_all_drops(rest, x, to);
            lemma_all_chars_concat(to, replace_all(rest, from, to), other_than(x));
        } else {
            let rest = s.drop_first();
            if s[0] == x {
                assert(s.subrange(0, 1) =~= from);
            }
            lemma_replace_all_drops(rest, x, to);
            assert(all_chars(seq![s[0]], other_than(x))) by {
                assert(seq![s[0]][0] == s[0]);
            }
            lemma_all_chars_concat(seq![s[0]], replace_all(rest, from, to), other_than(x));
        }
    }
}

proof fn lemma_substitute_all_keeps(
    s: Seq<char>,
    table: Seq<(Seq<char>, Seq<char>)>,
    ok: spec_fn(char) -> bool,
)
    requires
        all_chars(s, ok),
        forall|j: int| 0 <= j < table.len() ==> all_chars(#[trigger] table[j].1, ok),
    ensures
        all_chars(substitute_all(s, table), ok),
    decreases table.len(),
{
    if table.len() > 0 {
        lemma_replace_all_keeps(s, table[0].0, table[0].1, ok);
        let rest = table.drop_first();
        assert forall|j: int| 0 <= j < rest.len() implies all_chars(#[trigger] rest[j].1, ok) by {
            assert(rest[j] == table[j + 1]);
        }
        lemma_substitute_all_keeps(replace_all(s, table[0].0, table[0].1), rest, ok);
    }
}

proof fn lemma_substitute_all_drops(
    s: Seq<char>,
    table: Seq<(Seq<char>, Seq<char>)>,
    x: char,
    k: int,
)
    requires
        0 <= k < table.len(),
        table[k].0 == seq![x],
        forall|j: int| 0 <= j < table.len() ==> all_chars(#[trigger] table[j].1, other_than(x)),
    ensures
        all_chars(substitute_all(s, table), other_than(x)),
    decreases table.len(),
{
    let rest = table.drop_first();
    assert forall|j: int| 0 <= j < rest.len() implies all_chars(
        #[trigger] rest[j].1,
        other_than(x),
    ) by {
        assert(rest[j] == table[j + 1]);
    }
    if k == 0 {
        lemma_replace_all_drops(s, x, table[0].1);
        lemma_substitute_all_keeps(replace_all(s, table[0].0, table[0].1), rest, other_than(x));
    } else {
        assert(rest[k - 1] == table[k]);
        lemma_substitute_all_drops(replace_all(s, table[0].0, table[0].1), rest, x, k - 1);
    }
}

/// The characters that the substitutions write: ASCII punctuation, the
/// space and lowercase letters.
pub open spec fn substitution_output() -> spec_fn(char) -> bool {
    |c: char|
        c == '-' || c == ' ' || c == '"' || c == '\'' || c == ',' || c == '.' || c == '!' || c
            == '?' || c == ';' || c == ':' || ('a' <= c && c <= 'z')
}

proof fn lemma_substitution_outputs()
    ensures
        forall|j: int|
            0 <= j < substitutions().len() ==> all_chars(
                #[trigger] substitutions()[j].1,
                substitution_output(),
            ),
{
    let t = substitutions();
    assert forall|j: int| 0 <= j < t.len() implies all_chars(
        #[trigger] t[j].1,
        substitution_output(),
    ) by {
        assert(j == 0 || j == 1 || j == 2 || j == 3 || j == 4 || j == 5 || j == 6 || j == 7 || j
            == 8 || j == 9 || j == 10 || j == 11 || j == 12 || j == 13 || j == 14 || j == 15 || j
            == 16 || j == 17 || j == 18 || j == 19 || j == 20 || j == 21 || j == 22 || j == 23
            || j == 24 || j == 25 || j == 26 || j == 27 || j == 28 || j == 29 || j == 30 || j
            == 31);
        let o = t[j].1;
        assert forall|i: int| 0 <= i < o.len() implies (substitution_output())(#[trigger] o[i]) by {
            assert(i == 0 || i == 1 || i == 2 || i == 3 || i == 4 || i == 5 || i == 6 || i == 7
                || i == 8 || i == 9 || i == 10 || i == 11 || i == 12);
        }
    }
}

proof fn lemma_strip_emoji(s: Seq<char>)
    ensures
        all_chars(strip_emoji(s), |c: char| !is_emoji(c)),
    decreases s.len(),
{
    let ok = |c: char| !is_emoji(c);
    if s.len() > 0 {
        lemma_strip_emoji(s.drop_first());
        if !is_emoji(s[0]) {
            assert(all_chars(seq![s[0]], ok)) by {
                assert(seq![s[0]][0] == s[0]);
            }
            lemma_all_chars_concat(seq![s[0]], strip_emoji(s.drop_first()), ok);
        }
    }
}

proof fn lemma_halve_keeps(s: Seq<char>, c: char, ok: spec_fn(char) -> bool)
    requires
        all_chars(s, ok),
    ensures
        all_chars(halve_until_single(s, c), ok),
    decreases s.len(),
{
    if has_pair(s, c) {
        let i = choose|i: int| 0 <= i < s.len() - 1 && #[trigger] s[i] == c && s[i + 1] == c;
        assert(ok(s[i]));
        assert(all_chars(seq![c], ok)) by {
            assert(seq![c][0] == c);
        }
        lemma_replace_all_keeps(s, seq![c, c], seq![c], ok);
        lemma_halve_pairs_len(s, c);
        lemma_halve_keeps(replace_all(s, seq![c, c], seq![c]), c, ok);
    }
}

proof fn lemma_collapse_ws_keeps(s: Seq<char>, after_ws: bool, ok: spec_fn(char) -> bool)
    requires
        all_chars(s, ok),
        ok(' '),
    ensures
        all_chars(collapse_ws_from(s, after_ws), ok),
    decreases s.len(),
{
    if s.len() > 0 {
        let rest = s.drop_first();
        lemma_all_chars_subrange(s, 1, s.len() as int, ok);
        assert(rest =~= s.subrange(1, s.len() as int));
        lemma_collapse_ws_keeps(rest, true, ok);
        lemma_collapse_ws_keeps(rest, false, ok);
        assert(all_chars(seq![' '], ok)) by {
            assert(seq![' '][0] == ' ');
        }
        assert(all_chars(seq![s[0]], ok)) by {
            assert(seq![s[0]][0] == s[0]);
        }
        lemma_all_chars_concat(seq![' '], collapse_ws_from(rest, true), ok);
        lemma_all_chars_concat(seq![s[0]], collapse_ws_from(rest, false), ok);
    }
}

pub(crate) proof fn lemma_trim_keeps(s: Seq<char>, ok: spec_fn(char) -> bool)
    requires
        all_chars(s, ok),
    ensures
        all_chars(trim(s), ok),
{
    let a = trim_start(s);
    lemma_trim_start_props(s);
    lemma_trim_end_props(a);
    assert(a =~= s.subrange(s.len() - a.len(), s.len() as int));
    lemma_all_chars_subrange(s, s.len() - a.len(), s.len() as int, ok);
    assert(trim(s) =~= a.subrange(0, trim(s).len() as int));
    lemma_all_chars_subrange(a, 0, trim(s).len() as int, ok);
}

/// Every later step of the cleaning keeps a property of the characters that
/// the substituted text, the space and the full stop have.
proof fn lemma_clean_text_keeps(normalized: Seq<char>, ok: spec_fn(char) -> bool)
    requires
        all_chars(substitute_all(strip_emoji(normalized), substitutions()), ok),
        ok(' '),
        ok('.'),
    ensures
        all_chars(clean_text(normalized), ok),
{
    let t0 = substitute_all(strip_emoji(normalized), substitutions());
    lemma_halve_keeps(t0, '"', ok);
    lemma_halve_keeps(halve_until_single(t0, '"'), '\'', ok);
    let t1 = halve_until_single(halve_until_single(halve_until_single(t0, '"'), '\''), '`');
    lemma_halve_keeps(halve_until_single(halve_until_single(t0, '"'), '\''), '`', ok);
    lemma_collapse_ws_keeps(t1, false, ok);
    let t = trim(collapse_ws_from(t1, false));
    lemma_trim_keeps(collapse_ws_from(t1, false), ok);
    if t.len() > 0 && !is_closing_punct(t.last()) {
        assert(all_chars(seq!['.'], ok)) by {
            assert(seq!['.'][0] == '.');
        }
        lemma_all_chars_concat(t, seq!['.'], ok);
        assert(t.push('.') =~= t + seq!['.']);
    }
}

/// The language tags around a text keep a property that the text, the
/// language code and the characters `<`, `>` and `/` have.
proof fn lemma_tagged_keeps(lang: Seq<char>, t: Seq<char>, ok: spec_fn(char) -> bool)
    requires
        all_chars(lang, ok),
        all_chars(t, ok),
        ok('<'),
        ok('>'),
        ok('/'),
    ensures
        all_chars(tagged(lang, t), ok),
{
    assert(all_chars(seq!['<'], ok)) by {
        assert(seq!['<'][0] == '<');
    }
    assert(all_chars(seq!['>'], ok)) by {
        assert(seq!['>'][0] == '>');
    }
    assert(all_chars(seq!['<', '/'], ok)) by {
        assert(seq!['<', '/'][0] == '<');
        assert(seq!['<', '/'][1] == '/');
    }
    lemma_all_chars_concat(seq!['<'], lang, ok);
    lemma_all_chars_concat(seq!['<'] + lang, seq!['>'], ok);
    lemma_all_chars_concat(seq!['<'] + lang + seq!['>'], t, ok);
    lemma_all_chars_concat(seq!['<'] + lang + seq!['>'] + t, seq!['<', '/'], ok);
    lemma_all_chars_concat(seq!['<'] + lang + seq!['>'] + t + seq!['<', '/'], lang, ok);
    lemma_all_chars_concat(
        seq!['<'] + lang + seq!['>'] + t + seq!['<', '/'] + lang,
        seq!['>'],
        ok,
    );
}

/// No emoji reaches the model: for a known language, the preprocessed text
/// holds no character of the blocks U+1F600..U+1F64F, U+1F300..U+1F5FF,
/// U+1F680..U+1F6FF, U+1F700..U+1F77F, U+1F780..U+1F7FF, U+1F800..U+1F8FF,
/// U+1F900..U+1F9FF, U+1FA00..U+1FA6F, U+1FA70..U+1FAFF, U+2600..U+26FF,
/// U+2700..U+27BF and U+1F1E6..U+1F1FF, whatever the input text holds.
pub proof fn lemma_preprocessed_has_no_emoji(text: Seq<char>, lang: Seq<char>)
    requires
        is_available_lang(lang),
    ensures
        forall|i: int|
            0 <= i < preprocessed(text, lang).len() ==> {
                let u = (#[trigger] preprocessed(text, lang)[i]) as u32;
                &&& !(0x1F600 <= u <= 0x1F64F)
                &&& !(0x1F300 <= u <= 0x1F5FF)
                &&& !(0x1F680 <= u <= 0x1F6FF)
                &&& !(0x1F700 <= u <= 0x1F77F)
                &&& !(0x1F780 <= u <= 0x1F7FF)
                &&& !(0x1F800 <= u <= 0x1F8FF)
                &&& !(0x1F900 <= u <= 0x1F9FF)
                &&& !(0x1FA00 <= u <= 0x1FA6F)
                &&& !(0x1FA70 <= u <= 0x1FAFF)
                &&& !(0x2600 <= u <= 0x26FF)
                &&& !(0x2700 <= u <= 0x27BF)
                &&& !(0x1F1E6 <= u <= 0x1F1FF)
            },
{
    let ok = |c: char| !is_emoji(c);
    let n = crate::text::nfkd_chars(text);
    lemma_strip_emoji(n);
    lemma_substitution_outputs();
    assert forall|j: int| 0 <= j < substitutions().len() implies all_chars(
        #[trigger] substitutions()[j].1,
        ok,
    ) by {
        lemma_all_chars_weaken(substitutions()[j].1, substitution_output(), ok);
    }
    lemma_substitute_all_keeps(strip_emoji(n), substitutions(), ok);
    lemma_clean_text_keeps(n, ok);
    lemma_lang_code_letters(lang);
    lemma_tagged_keeps(lang, clean_text(n), ok);
    let p = preprocessed(text, lang);
    assert forall|i: int| 0 <= i < p.len() implies !is_emoji(#[trigger] p[i]) by {
        assert(ok(p[i]));
    }
}

/// The symbols that the substitutions replace by something else: the en
/// dash, the non-breaking hyphen, the em dash, `_`, the curly double and
/// single quotes, the acute accent, the backquote, `[`, `]`, `|`, `/`, `#`,
/// the right and left arrows, the black heart, the white star, the white
/// heart, the copyright sign, the backslash and `@`.
pub open spec fn is_replaced_symbol(c: char) -> bool {
    ||| c == '\u{2013}'
    ||| c == '\u{2011}'
    ||| c == '\u{2014}'
    ||| c == '_'
    ||| c == '\u{201C}'
    ||| c == '\u{201D}'
    ||| c == '\u{2018}'
    ||| c == '\u{2019}'
    ||| c == '\u{00B4}'
    ||| c == '`'
    ||| c == '['
    ||| c == ']'
    ||| c == '|'
    ||| c == '/'
    ||| c == '#'
    ||| c == '\u{2192}'
    ||| c == '\u{2190}'
    ||| c == '\u{2665}'
    ||| c == '\u{2606}'
    ||| c == '\u{2661}'
    ||| c == '\u{00A9}'
    ||| c == '\\'
    ||| c == '@'
}

proof fn lemma_substitution_drops(s: Seq<char>, x: char, k: int)
    requires
        0 <= k < substitutions().len(),
        substitutions()[k].0 == seq![x],
        !(substitution_output())(x),
    ensures
        all_chars(substitute_all(s, substitutions()), other_than(x)),
{
    lemma_substitution_outputs();
    assert forall|j: int| 0 <= j < substitutions().len() implies all_chars(
        #[trigger] substitutions()[j].1,
        other_than(x),
    ) by {
        lemma_all_chars_weaken(substitutions()[j].1, substitution_output(), other_than(x));
    }
    lemma_substitute_all_drops(s, substitutions(), x, k);
}

proof fn lemma_substituted_lacks_replaced(s: Seq<char>)
    ensures
        all_chars(substitute_all(s, substitutions()), |c: char| !is_replaced_symbol(c)),
{
    lemma_substitution_drops(s, '\u{2013}', 0);
    lemma_substitution_drops(s, '\u{2011}', 1);
    lemma_substitution_drops(s, '\u{2014}', 2);
    lemma_substitution_drops(s, '_', 3);
    lemma_substitution_drops(s, '\u{201C}', 4);
    lemma_substitution_drops(s, '\u{201D}', 5);
    lemma_substitution_drops(s, '\u{2018}', 6);
    lemma_substitution_drops(s, '\u{2019}', 7);
    lemma_substitution_drops(s, '\u{00B4}', 8);
    lemma_substitution_drops(s, '`', 9);
    lemma_substitution_drops(s, '[', 10);
    lemma_substitution_drops(s, ']', 11);
    lemma_substitution_drops(s, '|', 12);
    lemma_substitution_drops(s, '/', 13);
    lemma_substitution_drops(s, '#', 14);
    lemma_substitution_drops(s, '\u{2192}', 15);
    lemma_substitution_drops(s, '\u{2190}', 16);
    lemma_substitution_drops(s, '\u{2665}', 17);
    lemma_substitution_drops(s, '\u{2606}', 18);
    lemma_substitution_drops(s, '\u{2661}', 19);
    lemma_substitution_drops(s, '\u{00A9}', 20);
    lemma_substitution_drops(s, '\\', 21);
    lemma_substitution_drops(s, '@', 22);
    let t = substitute_all(s, substitutions());
    assert forall|i: int| 0 <= i < t.len() implies !is_replaced_symbol(#[trigger] t[i]) by {
        assert((other_than('\u{2013}'))(t[i]));
        assert((other_than('\u{2011}'))(t[i]));
        assert((other_than('\u{2014}'))(t[i]));
        assert((other_than('_'))(t[i]));
        assert((other_than('\u{201C}'))(t[i]));
        assert((other_than('\u{201D}'))(t[i]));
        assert((other_than('\u{2018}'))(t[i]));
        assert((other_than('\u{2019}'))(t[i]));
        assert((other_than('\u{00B4}'))(t[i]));
        assert((other_than('`'))(t[i]));
        assert((other_than('['))(t[i]));
        assert((other_than(']'))(t[i]));
        assert((other_than('|'))(t[i]));
        assert((other_than('/'))(t[i]));
        assert((other_than('#'))(t[i]));
        assert((other_than('\u{2192}'))(t[i]));
        assert((other_than('\u{2190}'))(t[i]));
        assert((other_than('\u{2665}'))(t[i]));
        assert((other_than('\u{2606}'))(t[i]));
        assert((other_than('\u{2661}'))(t[i]));
        assert((other_than('\u{00A9}'))(t[i]));
        assert((other_than('\\'))(t[i]));
        assert((other_than('@'))(t[i]));
    }
}

/// Whatever the input, the cleaned text holds none of the symbols that the
/// substitutions replace (see `is_replaced_symbol`).
pub proof fn lemma_clean_text_lacks_replaced(normalized: Seq<char>)
    ensures
        forall|i: int|
            0 <= i < clean_text(normalized).len() ==> !is_replaced_symbol(
                #[trigger] clean_text(normalized)[i],
            ),
{
    let ok = |c: char| !is_replaced_symbol(c);
    lemma_substituted_lacks_replaced(strip_emoji(normalized));
    lemma_clean_text_keeps(normalized, ok);
    let t = clean_text(normalized);
    assert forall|i: int| 0 <= i < t.len() implies !is_replaced_symbol(#[trigger] t[i]) by {
        assert(ok(t[i]));
    }
}

/// For a known language, the preprocessed text holds none of the symbols
/// that the substitutions replace (see `is_replaced_symbol`), but for the
/// `/` of its closing language tag.
pub proof fn lemma_preprocessed_lacks_replaced(text: Seq<char>, lang: Seq<char>)
    requires
        is_available_lang(lang),
    ensures
        forall|i: int|
            0 <= i < preprocessed(text, lang).len() && i != preprocessed(text, lang).len()
                - lang.len() - 2 ==> !is_replaced_symbol(#[trigger] preprocessed(text, lang)[i]),
        preprocessed(text, lang)[preprocessed(text, lang).len() - lang.len() - 2] == '/',
{
    let ok = |c: char| !is_replaced_symbol(c);
    let n = crate::text::nfkd_chars(text);
    let t = clean_text(n);
    lemma_clean_text_lacks_replaced(n);
    assert(all_chars(t, ok));
    lemma_lang_code_letters(lang);
    let a = seq!['<'] + lang + seq!['>'] + t + seq!['<'];
    let b = lang + seq!['>'];
    assert(all_chars(seq!['<'], ok)) by {
        assert(seq!['<'][0] == '<');
    }
    assert(all_chars(seq!['>'], ok)) by {
        assert(seq!['>'][0] == '>');
    }
    lemma_all_chars_concat(seq!['<'], lang, ok);
    lemma_all_chars_concat(seq!['<'] + lang, seq!['>'], ok);
    lemma_all_chars_concat(seq!['<'] + lang + seq!['>'], t, ok);
    lemma_all_chars_concat(seq!['<'] + lang + seq!['>'] + t, seq!['<'], ok);
    lemma_all_chars_concat(lang, seq!['>'], ok);
    let p = preprocessed(text, lang);
    assert(p =~= a + seq!['/'] + b);
    assert forall|i: int| 0 <= i < p.len() && i != p.len() - lang.len() - 2 implies !is_replaced_symbol(
        #[trigger] p[i],
    ) by {
        if i < a.len() {
            assert(p[i] == a[i]);
            assert(ok(a[i]));
        } else {
            assert(p[i] == b[i - a.len() - 1]);
            assert(ok(b[i - a.len() - 1]));
        }
    }
}

} // verus!
