//! Character-level building blocks: Unicode whitespace, UTF-8 byte length,
//! trimming, literal replacement and run collapsing, all over `Seq<char>`.

use vstd::prelude::*;
use vstd::utf8::{char_is_scalar, encode_scalar, encode_utf8};

verus! {

/// Unicode `White_Space`, the set that `char::is_whitespace`, `str::trim`
/// and the regex class `\s` all use.
pub open spec fn is_ws(c: char) -> bool {
    let u = c as u32;
    ||| 0x09 <= u <= 0x0D
    ||| u == 0x20
    ||| u == 0x85
    ||| u == 0xA0
    ||| u == 0x1680
    ||| 0x2000 <= u <= 0x200A
    ||| u == 0x2028
    ||| u == 0x2029
    ||| u == 0x202F
    ||| u == 0x205F
    ||| u == 0x3000
}

/// Whether `c` is Unicode whitespace.
pub fn is_whitespace(c: char) -> (b: bool)
    ensures
        b == is_ws(c),
{
    let u = c as u32;
    (0x09 <= u && u <= 0x0D) || u == 0x20 || u == 0x85 || u == 0xA0 || u == 0x1680 || (0x2000
        <= u && u <= 0x200A) || u == 0x2028 || u == 0x2029 || u == 0x202F || u == 0x205F || u
        == 0x3000
}

/// Number of bytes of the UTF-8 encoding of `s` (what `str::len` returns).
pub open spec fn byte_len(s: Seq<char>) -> nat {
    encode_utf8(s).len()
}

/// Bytes taken by one character in UTF-8.
pub open spec fn char_width(c: char) -> nat {
    let u = c as u32;
    if u <= 0x7F {
        1
    } else if u <= 0x7FF {
        2
    } else if u <= 0xFFFF {
        3
    } else {
        4
    }
}

/// The byte length of a concatenation is the sum of the byte lengths.
pub proof fn lemma_byte_len_concat(a: Seq<char>, b: Seq<char>)
    ensures
        byte_len(a + b) == byte_len(a) + byte_len(b),
    decreases a.len(),
{
    if a.len() == 0 {
        assert(a + b =~= b);
    } else {
        assert((a + b).drop_first() =~= a.drop_first() + b);
        assert((a + b)[0] == a[0]);
        lemma_byte_len_concat(a.drop_first(), b);
    }
}

/// One character takes `char_width` bytes.
pub proof fn lemma_byte_len_single(c: char)
    ensures
        byte_len(seq![c]) == char_width(c),
{
    char_is_scalar(c);
    assert(seq![c].drop_first() =~= Seq::<char>::empty());
    assert(encode_utf8(Seq::<char>::empty()) =~= Seq::<u8>::empty());
    assert(encode_utf8(seq![c]) == encode_scalar(c as u32) + encode_utf8(seq![c].drop_first()));
}

/// Appending a character adds its width.
pub proof fn lemma_byte_len_push(s: Seq<char>, c: char)
    ensures
        byte_len(s.push(c)) == byte_len(s) + char_width(c),
{
    assert(s.push(c) =~= s + seq![c]);
    lemma_byte_len_concat(s, seq![c]);
    lemma_byte_len_single(c);
}

/// A piece of a sequence takes no more bytes than the whole.
pub proof fn lemma_byte_len_subrange(s: Seq<char>, i: int, j: int)
    requires
        0 <= i <= j <= s.len(),
    ensures
        byte_len(s.subrange(i, j)) <= byte_len(s),
{
    assert(s =~= s.subrange(0, i) + s.subrange(i, j) + s.subrange(j, s.len() as int));
    lemma_byte_len_concat(s.subrange(0, i), s.subrange(i, j));
    lemma_byte_len_concat(s.subrange(0, i) + s.subrange(i, j), s.subrange(j, s.len() as int));
}

/// Bytes that `c` takes in UTF-8.
pub fn char_byte_width(c: char) -> (w: usize)
    ensures
        w == char_width(c),
        w == byte_len(seq![c]),
{
    proof {
        lemma_byte_len_single(c);
    }
    let u = c as u32;
    if u <= 0x7F {
        1
    } else if u <= 0x7FF {
        2
    } else if u <= 0xFFFF {
        3
    } else {
        4
    }
}

/// UTF-8 byte length of `s`, at most four bytes per character.
pub fn byte_count(s: &Vec<char>) -> (n: u128)
    ensures
        n == byte_len(s@),
        n <= 4 * s@.len(),
        n <= 4 * usize::MAX,
{
    let mut n: u128 = 0;
    let mut i: usize = 0;
    assert(s@.take(0) =~= Seq::<char>::empty());
    assert(encode_utf8(Seq::<char>::empty()) =~= Seq::<u8>::empty());
    while i < s.len()
        invariant
            i <= s@.len(),
            n == byte_len(s@.take(i as int)),
            n <= 4 * i,
        decreases s.len() - i,
    {
        proof {
            assert(s@.take(i + 1) =~= s@.take(i as int).push(s@[i as int]));
            lemma_byte_len_push(s@.take(i as int), s@[i as int]);
        }
        let w = char_byte_width(s[i]);
        n = n + w as u128;
        i = i + 1;
    }
    assert(s@.take(i as int) =~= s@);
    n
}

/// UTF-8 byte length of `s[lo..hi]`.
pub fn range_byte_len(s: &Vec<char>, lo: usize, hi: usize) -> (n: usize)
    requires
        lo <= hi <= s@.len(),
        byte_len(s@.subrange(lo as int, hi as int)) <= usize::MAX,
    ensures
        n == byte_len(s@.subrange(lo as int, hi as int)),
{
    let mut n: usize = 0;
    let mut i: usize = lo;
    while i < hi
        invariant
            lo <= i <= hi <= s@.len(),
            byte_len(s@.subrange(lo as int, hi as int)) <= usize::MAX,
            n == byte_len(s@.subrange(lo as int, i as int)),
        decreases hi - i,
    {
        proof {
            assert(s@.subrange(lo as int, i + 1) =~= s@.subrange(lo as int, i as int).push(s@[i as int]));
            lemma_byte_len_push(s@.subrange(lo as int, i as int), s@[i as int]);
            assert(s@.subrange(lo as int, hi as int).subrange(0, i + 1 - lo) =~= s@.subrange(lo as int, i + 1));
            lemma_byte_len_subrange(s@.subrange(lo as int, hi as int), 0, i + 1 - lo);
        }
        let w = char_byte_width(s[i]);
        n = n + w;
        i = i + 1;
    }
    n
}

/// `s` without its leading whitespace.
pub open spec fn trim_start(s: Seq<char>) -> Seq<char>
    decreases s.len(),
{
    if s.len() > 0 && is_ws(s[0]) {
        trim_start(s.drop_first())
    } else {
        s
    }
}

/// `s` without its trailing whitespace.
pub open spec fn trim_end(s: Seq<char>) -> Seq<char>
    decreases s.len(),
{
    if s.len() > 0 && is_ws(s.last()) {
        trim_end(s.drop_last())
    } else {
        s
    }
}

/// `s` without leading and trailing whitespace (what `str::trim` returns).
pub open spec fn trim(s: Seq<char>) -> Seq<char> {
    trim_end(trim_start(s))
}

/// Whether `s` holds a whitespace character.
pub open spec fn has_ws(s: Seq<char>) -> bool {
    exists|i: int| 0 <= i < s.len() && is_ws(#[trigger] s[i])
}

/// Whether `s` neither starts nor ends with whitespace.
pub open spec fn is_trimmed(s: Seq<char>) -> bool {
    s.len() > 0 ==> !is_ws(s[0]) && !is_ws(s.last())
}

/// `trim_start(s)` is a suffix of `s` that does not start with whitespace.
pub proof fn lemma_trim_start_props(s: Seq<char>)
    ensures
        trim_start(s).len() <= s.len(),
        trim_start(s) == s.skip(s.len() - trim_start(s).len()),
        trim_start(s).len() > 0 ==> !is_ws(trim_start(s)[0]),
    decreases s.len(),
{
    if s.len() > 0 && is_ws(s[0]) {
        lemma_trim_start_props(s.drop_first());
        assert(s.drop_first().skip(s.drop_first().len() - trim_start(s).len()) =~= s.skip(
            s.len() - trim_start(s).len(),
        ));
    } else {
        assert(s.skip(0) =~= s);
    }
}

/// `trim_end(s)` is a prefix of `s` that does not end with whitespace.
pub proof fn lemma_trim_end_props(s: Seq<char>)
    ensures
        trim_end(s).len() <= s.len(),
        trim_end(s) == s.take(trim_end(s).len() as int),
        trim_end(s).len() > 0 ==> !is_ws(trim_end(s).last()),
    decreases s.len(),
{
    if s.len() > 0 && is_ws(s.last()) {
        lemma_trim_end_props(s.drop_last());
        assert(s.drop_last().take(trim_end(s).len() as int) =~= s.take(
            trim_end(s).len() as int,
        ));
    } else {
        assert(s.take(s.len() as int) =~= s);
    }
}

/// The trimmed form neither starts nor ends with whitespace.
pub proof fn lemma_trim_is_trimmed(s: Seq<char>)
    ensures
        is_trimmed(trim(s)),
{
    let a = trim_start(s);
    lemma_trim_start_props(s);
    lemma_trim_end_props(a);
    let b = trim_end(a);
    if b.len() > 0 {
        assert(b[0] == a[0]);
    }
}

/// Trimming what is already trimmed changes nothing.
pub proof fn lemma_trim_trimmed(s: Seq<char>)
    requires
        is_trimmed(s),
    ensures
        trim(s) == s,
{
    assert(trim_start(s) == s);
    assert(trim_end(s) == s);
}

/// Dropping `k` leading whitespace characters, up to a non-whitespace one, trims the start.
pub proof fn lemma_trim_start(s: Seq<char>, k: int)
    requires
        0 <= k <= s.len(),
        forall|i: int| 0 <= i < k ==> is_ws(#[trigger] s[i]),
        k == s.len() || !is_ws(s[k]),
    ensures
        trim_start(s) == s.skip(k),
    decreases k,
{
    if k == 0 {
        assert(s.skip(0) =~= s);
    } else {
        assert forall|i: int| 0 <= i < k - 1 implies is_ws(#[trigger] s.drop_first()[i]) by {
            assert(s.drop_first()[i] == s[i + 1]);
        }
        lemma_trim_start(s.drop_first(), k - 1);
        assert(s.drop_first().skip(k - 1) =~= s.skip(k));
    }
}

/// Cutting trailing whitespace after position `k`, just past a non-whitespace one, trims the end.
pub proof fn lemma_trim_end(s: Seq<char>, k: int)
    requires
        0 <= k <= s.len(),
        forall|i: int| k <= i < s.len() ==> is_ws(#[trigger] s[i]),
        k == 0 || !is_ws(s[k - 1]),
    ensures
        trim_end(s) == s.take(k),
    decreases s.len() - k,
{
    if k == s.len() {
        assert(s.take(k) =~= s);
    } else {
        assert forall|i: int| k <= i < s.drop_last().len() implies is_ws(
            #[trigger] s.drop_last()[i],
        ) by {
            assert(s.drop_last()[i] == s[i]);
        }
        lemma_trim_end(s.drop_last(), k);
        assert(s.drop_last().take(k) =~= s.take(k));
    }
}

/// The trimmed form of `s[lo..hi]` is `s[a..b]`, with `lo <= a <= b <= hi`.
pub fn trim_bounds(s: &Vec<char>, lo: usize, hi: usize) -> (r: (usize, usize))
    requires
        lo <= hi <= s@.len(),
    ensures
        lo <= r.0 <= r.1 <= hi,
        s@.subrange(r.0 as int, r.1 as int) == trim(s@.subrange(lo as int, hi as int)),
{
    let ghost t = s@.subrange(lo as int, hi as int);
    let mut a = lo;
    while a < hi && is_whitespace(s[a])
        invariant
            lo <= a <= hi <= s@.len(),
            forall|i: int| lo <= i < a ==> is_ws(#[trigger] s@[i]),
        decreases hi - a,
    {
        a = a + 1;
    }
    proof {
        assert forall|i: int| 0 <= i < a - lo implies is_ws(#[trigger] t[i]) by {
            assert(t[i] == s@[lo + i]);
        }
        lemma_trim_start(t, a - lo);
    }
    let mut b = hi;
    while b > a && is_whitespace(s[b - 1])
        invariant
            lo <= a <= b <= hi <= s@.len(),
            forall|i: int| b <= i < hi ==> is_ws(#[trigger] s@[i]),
        decreases b - a,
    {
        b = b - 1;
    }
    proof {
        let u = t.skip(a - lo);
        assert(u =~= s@.subrange(a as int, hi as int));
        assert forall|i: int| b - a <= i < u.len() implies is_ws(#[trigger] u[i]) by {
            assert(u[i] == s@[a + i]);
        }
        lemma_trim_end(u, b - a);
        assert(u.take(b - a) =~= s@.subrange(a as int, b as int));
    }
    (a, b)
}

/// Copy of `s[lo..hi]`.
pub fn copy_range(s: &Vec<char>, lo: usize, hi: usize) -> (r: Vec<char>)
    requires
        lo <= hi <= s@.len(),
    ensures
        r@ == s@.subrange(lo as int, hi as int),
{
    let mut r: Vec<char> = Vec::new();
    let mut i = lo;
    while i < hi
        invariant
            lo <= i <= hi <= s@.len(),
            r@ == s@.subrange(lo as int, i as int),
        decreases hi - i,
    {
        r.push(s[i]);
        i = i + 1;
    }
    r
}

/// Copy of `s` without leading and trailing whitespace.
pub fn trimmed(s: &Vec<char>) -> (r: Vec<char>)
    ensures
        r@ == trim(s@),
{
    let (a, b) = trim_bounds(s, 0, s.len());
    assert(s@.subrange(0, s@.len() as int) =~= s@);
    copy_range(s, a, b)
}

/// Appends `src` to `dst`.
pub fn append_chars(dst: &mut Vec<char>, src: &Vec<char>)
    ensures
        final(dst)@ == old(dst)@ + src@,
{
    let mut i: usize = 0;
    while i < src.len()
        invariant
            i <= src@.len(),
            dst@ == old(dst)@ + src@.subrange(0, i as int),
        decreases src.len() - i,
    {
        dst.push(src[i]);
        i = i + 1;
    }
    assert(src@.subrange(0, src@.len() as int) =~= src@);
}


/// Whether `pat` occurs in `s` at position `i`.
pub open spec fn occurs_at(s: Seq<char>, pat: Seq<char>, i: int) -> bool {
    0 <= i && i + pat.len() <= s.len() && s.subrange(i, i + pat.len()) == pat
}

/// Every non-overlapping occurrence of `from`, scanned from the left, replaced
/// by `to` (what `str::replace` returns for a non-empty pattern).
pub open spec fn replace_all(s: Seq<char>, from: Seq<char>, to: Seq<char>) -> Seq<char>
    decreases s.len(),
{
    if s.len() == 0 {
        s
    } else if from.len() > 0 && occurs_at(s, from, 0) {
        to + replace_all(s.skip(from.len() as int), from, to)
    } else {
        seq![s[0]] + replace_all(s.drop_first(), from, to)
    }
}

/// Whether `pat` occurs in `s` at position `i`.
pub fn matches_at(s: &Vec<char>, i: usize, pat: &Vec<char>) -> (b: bool)
    requires
        i <= s@.len(),
    ensures
        b == occurs_at(s@, pat@, i as int),
{
    if pat.len() > s.len() - i {
        return false;
    }
    let mut k: usize = 0;
    while k < pat.len()
        invariant
            i + pat@.len() <= s@.len(),
            s@.len() == s.len(),
            k <= pat@.len(),
            forall|j: int| 0 <= j < k ==> s@[i + j] == pat@[j],
        decreases pat.len() - k,
    {
        if s[i + k] != pat[k] {
            assert(s@.subrange(i as int, i + pat@.len())[k as int] != pat@[k as int]);
            return false;
        }
        k = k + 1;
    }
    assert(s@.subrange(i as int, i + pat@.len()) =~= pat@);
    true
}

/// `s` with every occurrence of `from` replaced by `to`, left to right.
pub fn replace_chars(s: &Vec<char>, from: &Vec<char>, to: &Vec<char>) -> (r: Vec<char>)
    requires
        from@.len() > 0,
    ensures
        r@ == replace_all(s@, from@, to@),
{
    let mut r: Vec<char> = Vec::new();
    let mut i: usize = 0;
    assert(s@.skip(0) =~= s@);
    while i < s.len()
        invariant
            i <= s@.len(),
            from@.len() > 0,
            replace_all(s@, from@, to@) == r@ + replace_all(s@.skip(i as int), from@, to@),
        decreases s.len() - i,
    {
        let ghost rest = s@.skip(i as int);
        if matches_at(s, i, from) {
            proof {
                assert(rest.subrange(0, from@.len() as int) =~= s@.subrange(
                    i as int,
                    i + from@.len(),
                ));
                assert(rest.skip(from@.len() as int) =~= s@.skip(i + from@.len()));
            }
            let ghost r0 = r@;
            append_chars(&mut r, to);
            i = i + from.len();
            assert(r0 + (to@ + replace_all(s@.skip(i as int), from@, to@)) =~= r@
                + replace_all(s@.skip(i as int), from@, to@));
        } else {
            proof {
                if i + from@.len() <= s@.len() {
                    assert(rest.subrange(0, from@.len() as int) =~= s@.subrange(
                        i as int,
                        i + from@.len(),
                    ));
                }
                assert(rest.drop_first() =~= s@.skip(i + 1));
            }
            let ghost r0 = r@;
            r.push(s[i]);
            i = i + 1;
            assert(r0 + (seq![s@[i - 1]] + replace_all(s@.skip(i as int), from@, to@)) =~= r@
                + replace_all(s@.skip(i as int), from@, to@));
        }
    }
    assert(s@.skip(i as int) =~= Seq::<char>::empty());
    r
}


/// The characters of `s`.
pub fn str_chars(s: &str) -> (v: Vec<char>)
    ensures
        v@ == s@,
{
    broadcast use vstd::string::axiom_spec_iter;

    let mut v: Vec<char> = Vec::new();
    for c in it: s.chars()
        invariant
            v@ == it.seq().take(it.index()),
            it.seq() == s@,
    {
        v.push(c);
    }
    v
}


/// Trusted: std's `FromIterator<char>` for `String`, which collects the
/// characters in order; the result holds exactly `v`'s characters.
#[verifier::external_body]
pub(crate) fn string_from_chars(v: &Vec<char>) -> (s: String)
    ensures
        s@ == v@,
{
    v.iter().collect()
}

/// Whether `a` and `b` hold the same characters.
pub fn chars_eq(a: &Vec<char>, b: &Vec<char>) -> (r: bool)
    ensures
        r == (a@ == b@),
{
    if a.len() != b.len() {
        return false;
    }
    let r = matches_at(a, 0, b);
    assert(r ==> a@.subrange(0, b@.len() as int) =~= a@);
    assert(a@ == b@ ==> a@.subrange(0, b@.len() as int) =~= b@);
    r
}


/// `s` with every run of consecutive `c` characters shortened to a single `c`;
/// `after_c` says whether the text just before `s` ended with `c`.
pub open spec fn collapse_runs_from(s: Seq<char>, c: char, after_c: bool) -> Seq<char>
    decreases s.len(),
{
    if s.len() == 0 {
        s
    } else if s[0] == c {
        if after_c {
            collapse_runs_from(s.drop_first(), c, true)
        } else {
            seq![c] + collapse_runs_from(s.drop_first(), c, true)
        }
    } else {
        seq![s[0]] + collapse_runs_from(s.drop_first(), c, false)
    }
}

/// `s` with every run of consecutive `c` characters shortened to a single `c`:
/// what replacing the doubled `c` by a single one, until none is left, produces.
pub open spec fn collapse_runs(s: Seq<char>, c: char) -> Seq<char> {
    collapse_runs_from(s, c, false)
}

/// Whether `c` occurs twice in a row in `s`.
pub open spec fn has_pair(s: Seq<char>, c: char) -> bool {
    exists|i: int| 0 <= i < s.len() - 1 && #[trigger] s[i] == c && s[i + 1] == c
}

/// Replacing a doubled `c` by a single one never lengthens `s`, and
/// shortens it when `c` occurs twice in a row.
pub proof fn lemma_halve_pairs_len(s: Seq<char>, c: char)
    ensures
        replace_all(s, seq![c, c], seq![c]).len() <= s.len(),
        has_pair(s, c) ==> replace_all(s, seq![c, c], seq![c]).len() < s.len(),
    decreases s.len(),
{
    let p = seq![c, c];
    if s.len() > 0 {
        if occurs_at(s, p, 0) {
            lemma_halve_pairs_len(s.skip(2), c);
        } else {
            lemma_halve_pairs_len(s.drop_first(), c);
            if has_pair(s, c) {
                let i = choose|i: int| 0 <= i < s.len() - 1 && #[trigger] s[i] == c && s[i + 1] == c;
                if i == 0 {
                    assert(s.subrange(0, 2) =~= p);
                }
                assert(s.drop_first()[i - 1] == c && s.drop_first()[i] == c);
            }
        }
    }
}

/// `s` after replacing a doubled `c` by a single one, again and again, until
/// no doubled `c` is left.
pub open spec fn halve_until_single(s: Seq<char>, c: char) -> Seq<char>
    decreases s.len(),
{
    if has_pair(s, c) {
        proof {
            lemma_halve_pairs_len(s, c);
        }
        halve_until_single(replace_all(s, seq![c, c], seq![c]), c)
    } else {
        s
    }
}

proof fn lemma_collapse_no_pair(s: Seq<char>, c: char, after_c: bool)
    requires
        !has_pair(s, c),
        after_c ==> s.len() == 0 || s[0] != c,
    ensures
        collapse_runs_from(s, c, after_c) == s,
    decreases s.len(),
{
    if s.len() > 0 {
        let r = s.drop_first();
        assert(!has_pair(r, c)) by {
            if has_pair(r, c) {
                let i = choose|i: int| 0 <= i < r.len() - 1 && #[trigger] r[i] == c && r[i + 1] == c;
                assert(s[i + 1] == c && s[i + 2] == c);
            }
        }
        if s[0] == c {
            if r.len() > 0 {
                assert(r[0] != c) by {
                    if r[0] == c {
                        assert(s[0] == c && s[1] == c);
                    }
                }
            }
            lemma_collapse_no_pair(r, c, true);
        } else {
            lemma_collapse_no_pair(r, c, false);
        }
        assert(seq![s[0]] + r =~= s);
    }
}

proof fn lemma_collapse_halved(s: Seq<char>, c: char, after_c: bool)
    ensures
        collapse_runs_from(replace_all(s, seq![c, c], seq![c]), c, after_c) == collapse_runs_from(
            s,
            c,
            after_c,
        ),
    decreases s.len(),
{
    let p = seq![c, c];
    if s.len() > 0 {
        if occurs_at(s, p, 0) {
            lemma_collapse_halved(s.skip(2), c, true);
            let rest = replace_all(s.skip(2), p, seq![c]);
            assert(replace_all(s, p, seq![c]) == seq![c] + rest);
            let lhs = seq![c] + rest;
            assert(lhs[0] == c);
            assert(lhs.drop_first() =~= rest);
            assert(collapse_runs_from(lhs, c, after_c) == if after_c {
                collapse_runs_from(rest, c, true)
            } else {
                seq![c] + collapse_runs_from(rest, c, true)
            });
            assert(s.subrange(0, 2) =~= p);
            assert(s[0] == c && s[1] == c);
            let s1 = s.drop_first();
            assert(s1[0] == c);
            assert(s1.drop_first() =~= s.skip(2));
            assert(collapse_runs_from(s1, c, true) == collapse_runs_from(s.skip(2), c, true));
            assert(collapse_runs_from(s, c, after_c) == if after_c {
                collapse_runs_from(s1, c, true)
            } else {
                seq![c] + collapse_runs_from(s1, c, true)
            });
        } else {
            lemma_collapse_halved(s.drop_first(), c, s[0] == c);
            let rest = replace_all(s.drop_first(), p, seq![c]);
            assert(replace_all(s, p, seq![c]) == seq![s[0]] + rest);
            let lhs = seq![s[0]] + rest;
            assert(lhs[0] == s[0]);
            assert(lhs.drop_first() =~= rest);
        }
    }
}

/// Replacing a doubled `c` by a single one until none is left gives the
/// same text as shortening each run of `c` to one `c`.
pub proof fn lemma_halving_collapses_runs(s: Seq<char>, c: char)
    ensures
        halve_until_single(s, c) == collapse_runs(s, c),
    decreases s.len(),
{
    if has_pair(s, c) {
        lemma_halve_pairs_len(s, c);
        lemma_halving_collapses_runs(replace_all(s, seq![c, c], seq![c]), c);
        lemma_collapse_halved(s, c, false);
    } else {
        lemma_collapse_no_pair(s, c, false);
    }
}

/// Shortens every run of `c` in `s` to a single `c`.
pub fn collapse_char_runs(s: &Vec<char>, c: char) -> (r: Vec<char>)
    ensures
        r@ == collapse_runs(s@, c),
{
    let mut r: Vec<char> = Vec::new();
    let mut after_c = false;
    let mut i: usize = 0;
    assert(s@.skip(0) =~= s@);
    while i < s.len()
        invariant
            i <= s@.len(),
            collapse_runs(s@, c) == r@ + collapse_runs_from(s@.skip(i as int), c, after_c),
        decreases s.len() - i,
    {
        assert(s@.skip(i as int).drop_first() =~= s@.skip(i + 1));
        let ghost r0 = r@;
        let ghost rest = s@.skip(i as int);
        if s[i] == c {
            if !after_c {
                r.push(c);
                assert(r0 + (seq![c] + collapse_runs_from(rest.drop_first(), c, true)) =~= r@
                    + collapse_runs_from(rest.drop_first(), c, true));
            }
            after_c = true;
        } else {
            r.push(s[i]);
            assert(r0 + (seq![s@[i as int]] + collapse_runs_from(rest.drop_first(), c, false))
                =~= r@ + collapse_runs_from(rest.drop_first(), c, false));
            after_c = false;
        }
        i = i + 1;
    }
    assert(s@.skip(i as int) =~= Seq::<char>::empty());
    r
}

/// `s` with every run of whitespace replaced by one space; `after_ws` says
/// whether the text just before `s` ended in such a run.
pub open spec fn collapse_ws_from(s: Seq<char>, after_ws: bool) -> Seq<char>
    decreases s.len(),
{
    if s.len() == 0 {
        s
    } else if is_ws(s[0]) {
        if after_ws {
            collapse_ws_from(s.drop_first(), true)
        } else {
            seq![' '] + collapse_ws_from(s.drop_first(), true)
        }
    } else {
        seq![s[0]] + collapse_ws_from(s.drop_first(), false)
    }
}

/// `s` with every run of whitespace replaced by one space (what replacing
/// each match of the pattern `\s+` by a space produces).
pub open spec fn collapse_ws(s: Seq<char>) -> Seq<char> {
    collapse_ws_from(s, false)
}

/// Replaces every run of whitespace in `s` by one space.
pub fn collapse_whitespace(s: &Vec<char>) -> (r: Vec<char>)
    ensures
        r@ == collapse_ws(s@),
{
    let mut r: Vec<char> = Vec::new();
    let mut after_ws = false;
    let mut i: usize = 0;
    assert(s@.skip(0) =~= s@);
    while i < s.len()
        invariant
            i <= s@.len(),
            collapse_ws(s@) == r@ + collapse_ws_from(s@.skip(i as int), after_ws),
        decreases s.len() - i,
    {
        assert(s@.skip(i as int).drop_first() =~= s@.skip(i + 1));
        let ghost r0 = r@;
        let ghost rest = s@.skip(i as int);
        if is_whitespace(s[i]) {
            if !after_ws {
                r.push(' ');
                assert(r0 + (seq![' '] + collapse_ws_from(rest.drop_first(), true)) =~= r@
                    + collapse_ws_from(rest.drop_first(), true));
            }
            after_ws = true;
        } else {
            r.push(s[i]);
            assert(r0 + (seq![s@[i as int]] + collapse_ws_from(rest.drop_first(), false)) =~= r@
                + collapse_ws_from(rest.drop_first(), false));
            after_ws = false;
        }
        i = i + 1;
    }
    assert(s@.skip(i as int) =~= Seq::<char>::empty());
    r
}

} // verus!
