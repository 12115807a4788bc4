//! The languages the speech models accept.

use vstd::prelude::*;
use crate::chars::{chars_eq, str_chars, string_from_chars};

verus! {

/// The language codes the models know, in their fixed order.
pub open spec fn lang_codes() -> Seq<Seq<char>> {
    seq![
        seq!['e', 'n'], seq!['k', 'o'], seq!['j', 'a'], seq!['a', 'r'], seq!['b', 'g'],
        seq!['c', 's'], seq!['d', 'a'], seq!['d', 'e'], seq!['e', 'l'], seq!['e', 's'],
        seq!['e', 't'], seq!['f', 'i'], seq!['f', 'r'], seq!['h', 'i'], seq!['h', 'r'],
        seq!['h', 'u'], seq!['i', 'd'], seq!['i', 't'], seq!['l', 't'], seq!['l', 'v'],
        seq!['n', 'l'], seq!['p', 'l'], seq!['p', 't'], seq!['r', 'o'], seq!['r', 'u'],
        seq!['s', 'k'], seq!['s', 'l'], seq!['s', 'v'], seq!['t', 'r'], seq!['u', 'k'],
        seq!['v', 'i'], seq!['n', 'a'],
    ]
}

/// Whether `lang` is one of the known language codes.
pub open spec fn is_available_lang(lang: Seq<char>) -> bool {
    lang_codes().contains(lang)
}

fn code(a: char, b: char) -> (v: Vec<char>)
    ensures
        v@ == seq![a, b],
{
    let mut v: Vec<char> = Vec::new();
    v.push(a);
    v.push(b);
    assert(v@ =~= seq![a, b]);
    v
}

fn lang_code_list() -> (v: Vec<Vec<char>>)
    ensures
        v@.len() == lang_codes().len(),
        forall|i: int| 0 <= i < v@.len() ==> #[trigger] v@[i]@ == lang_codes()[i],
{
    let v = vec![
        code('e', 'n'), code('k', 'o'), code('j', 'a'), code('a', 'r'), code('b', 'g'),
        code('c', 's'), code('d', 'a'), code('d', 'e'), code('e', 'l'), code('e', 's'),
        code('e', 't'), code('f', 'i'), code('f', 'r'), code('h', 'i'), code('h', 'r'),
        code('h', 'u'), code('i', 'd'), code('i', 't'), code('l', 't'), code('l', 'v'),
        code('n', 'l'), code('p', 'l'), code('p', 't'), code('r', 'o'), code('r', 'u'),
        code('s', 'k'), code('s', 'l'), code('s', 'v'), code('t', 'r'), code('u', 'k'),
        code('v', 'i'), code('n', 'a'),
    ];
    v
}

/// The known language codes, in order.
pub fn available_langs() -> (r: Vec<String>)
    ensures
        r@.len() == lang_codes().len(),
        forall|i: int| 0 <= i < r@.len() ==> #[trigger] r@[i]@ == lang_codes()[i],
{
    let codes = lang_code_list();
    let mut r: Vec<String> = Vec::new();
    let mut i: usize = 0;
    while i < codes.len()
        invariant
            i <= codes@.len(),
            codes@.len() == lang_codes().len(),
            forall|k: int| 0 <= k < codes@.len() ==> #[trigger] codes@[k]@ == lang_codes()[k],
            r@.len() == i,
            forall|k: int| 0 <= k < i ==> #[trigger] r@[k]@ == lang_codes()[k],
        decreases codes.len() - i,
    {
        r.push(string_from_chars(&codes[i]));
        i = i + 1;
    }
    r
}

/// Whether `lang` is one of the known language codes.
pub fn is_valid_lang(lang: &str) -> (b: bool)
    ensures
        b == is_available_lang(lang@),
{
    let l = str_chars(lang);
    let codes = lang_code_list();
    let mut i: usize = 0;
    while i < codes.len()
        invariant
            i <= codes@.len(),
            l@ == lang@,
            codes@.len() == lang_codes().len(),
            forall|k: int| 0 <= k < codes@.len() ==> #[trigger] codes@[k]@ == lang_codes()[k],
            forall|k: int| 0 <= k < i ==> lang_codes()[k] != lang@,
        decreases codes.len() - i,
    {
        if chars_eq(&codes[i], &l) {
            assert(lang_codes()[i as int] == lang@);
            return true;
        }
        i = i + 1;
    }
    false
}


/// The known languages are exactly these 32 codes: "en", "ko", "ja", "ar",
/// "bg", "cs", "da", "de", "el", "es", "et", "fi", "fr", "hi", "hr", "hu",
/// "id", "it", "lt", "lv", "nl", "pl", "pt", "ro", "ru", "sk", "sl", "sv",
/// "tr", "uk", "vi" and "na".
pub proof fn lemma_known_languages(l: Seq<char>)
    ensures
        is_available_lang(l) <==> {
        ||| l == "en"@
        ||| l == "ko"@
        ||| l == "ja"@
        ||| l == "ar"@
        ||| l == "bg"@
        ||| l == "cs"@
        ||| l == "da"@
        ||| l == "de"@
        ||| l == "el"@
        ||| l == "es"@
        ||| l == "et"@
        ||| l == "fi"@
        ||| l == "fr"@
        ||| l == "hi"@
        ||| l == "hr"@
        ||| l == "hu"@
        ||| l == "id"@
        ||| l == "it"@
        ||| l == "lt"@
        ||| l == "lv"@
        ||| l == "nl"@
        ||| l == "pl"@
        ||| l == "pt"@
        ||| l == "ro"@
        ||| l == "ru"@
        ||| l == "sk"@
        ||| l == "sl"@
        ||| l == "sv"@
        ||| l == "tr"@
        ||| l == "uk"@
        ||| l == "vi"@
        ||| l == "na"@
        },
{
    reveal_strlit("en");
    reveal_strlit("ko");
    reveal_strlit("ja");
    reveal_strlit("ar");
    reveal_strlit("bg");
    reveal_strlit("cs");
    reveal_strlit("da");
    reveal_strlit("de");
    reveal_strlit("el");
    reveal_strlit("es");
    reveal_strlit("et");
    reveal_strlit("fi");
    reveal_strlit("fr");
    reveal_strlit("hi");
    reveal_strlit("hr");
    reveal_strlit("hu");
    reveal_strlit("id");
    reveal_strlit("it");
    reveal_strlit("lt");
    reveal_strlit("lv");
    reveal_strlit("nl");
    reveal_strlit("pl");
    reveal_strlit("pt");
    reveal_strlit("ro");
    reveal_strlit("ru");
    reveal_strlit("sk");
    reveal_strlit("sl");
    reveal_strlit("sv");
    reveal_strlit("tr");
    reveal_strlit("uk");
    reveal_strlit("vi");
    reveal_strlit("na");
    assert(lang_codes()[0] =~= "en"@);
    assert(lang_codes()[1] =~= "ko"@);
    assert(lang_codes()[2] =~= "ja"@);
    assert(lang_codes()[3] =~= "ar"@);
    assert(lang_codes()[4] =~= "bg"@);
    assert(lang_codes()[5] =~= "cs"@);
    assert(lang_codes()[6] =~= "da"@);
    assert(lang_codes()[7] =~= "de"@);
    assert(lang_codes()[8] =~= "el"@);
    assert(lang_codes()[9] =~= "es"@);
    assert(lang_codes()[10] =~= "et"@);
    assert(lang_codes()[11] =~= "fi"@);
    assert(lang_codes()[12] =~= "fr"@);
    assert(lang_codes()[13] =~= "hi"@);
    assert(lang_codes()[14] =~= "hr"@);
    assert(lang_codes()[15] =~= "hu"@);
    assert(lang_codes()[16] =~= "id"@);
    assert(lang_codes()[17] =~= "it"@);
    assert(lang_codes()[18] =~= "lt"@);
    assert(lang_codes()[19] =~= "lv"@);
    assert(lang_codes()[20] =~= "nl"@);
    assert(lang_codes()[21] =~= "pl"@);
    assert(lang_codes()[22] =~= "pt"@);
    assert(lang_codes()[23] =~= "ro"@);
    assert(lang_codes()[24] =~= "ru"@);
    assert(lang_codes()[25] =~= "sk"@);
    assert(lang_codes()[26] =~= "sl"@);
    assert(lang_codes()[27] =~= "sv"@);
    assert(lang_codes()[28] =~= "tr"@);
    assert(lang_codes()[29] =~= "uk"@);
    assert(lang_codes()[30] =~= "vi"@);
    assert(lang_codes()[31] =~= "na"@);
    if is_available_lang(l) {
        let k = choose|k: int| 0 <= k < lang_codes().len() && lang_codes()[k] == l;
        assert(0 <= k < 32);
    }
}

/// Every known language code is two lowercase ASCII letters.
pub proof fn lemma_lang_code_letters(l: Seq<char>)
    requires
        is_available_lang(l),
    ensures
        l.len() == 2,
        forall|i: int| 0 <= i < l.len() ==> 'a' <= #[trigger] l[i] <= 'z',
{
    let k = choose|k: int| 0 <= k < lang_codes().len() && lang_codes()[k] == l;
    assert(k == 0 || k == 1 || k == 2 || k == 3 || k == 4 || k == 5 || k == 6 || k == 7 || k == 8
        || k == 9 || k == 10 || k == 11 || k == 12 || k == 13 || k == 14 || k == 15 || k == 16
        || k == 17 || k == 18 || k == 19 || k == 20 || k == 21 || k == 22 || k == 23 || k == 24
        || k == 25 || k == 26 || k == 27 || k == 28 || k == 29 || k == 30 || k == 31);
}

} // verus!
