//! Splitting a long text into chunks the models can read at once: by
//! paragraph, then by sentence, then by comma, then by word.

use vstd::prelude::*;
use crate::chars::{append_chars, byte_count, byte_len, copy_range, is_whitespace, is_ws, trim, trimmed};

verus! {

/// The characters of each of `v`.
pub open spec fn views(v: Seq<Vec<char>>) -> Seq<Seq<char>> {
    v.map_values(|x: Vec<char>| x@)
}

proof fn lemma_views_push(v: Seq<Vec<char>>, x: Vec<char>)
    ensures
        views(v.push(x)) == views(v).push(x@),
{
    assert(views(v.push(x)) =~= views(v).push(x@));
}

/// The pieces of `s` between occurrences of `c` (what `str::split(c)` yields).
pub open spec fn split_char(s: Seq<char>, c: char) -> Seq<Seq<char>>
    decreases s.len(),
{
    if s.len() == 0 {
        seq![Seq::<char>::empty()]
    } else {
        let r = split_char(s.drop_last(), c);
        if s.last() == c {
            r.push(Seq::<char>::empty())
        } else {
            r.update(r.len() - 1, r.last().push(s.last()))
        }
    }
}

proof fn lemma_split_char_nonempty(s: Seq<char>, c: char)
    ensures
        split_char(s, c).len() >= 1,
    decreases s.len(),
{
    if s.len() > 0 {
        lemma_split_char_nonempty(s.drop_last(), c);
    }
}

/// The pieces of `s` between occurrences of `c`.
pub fn split_on_char(s: &Vec<char>, c: char) -> (r: Vec<Vec<char>>)
    ensures
        views(r@) == split_char(s@, c),
{
    let mut pieces: Vec<Vec<char>> = Vec::new();
    let mut cur: Vec<char> = Vec::new();
    let mut i: usize = 0;
    assert(s@.take(0) =~= Seq::<char>::empty());
    while i < s.len()
        invariant
            i <= s@.len(),
            split_char(s@.take(i as int), c) == views(pieces@).push(cur@),
        decreases s.len() - i,
    {
        assert(s@.take(i + 1).drop_last() =~= s@.take(i as int));
        proof {
            lemma_split_char_nonempty(s@.take(i as int), c);
        }
        if s[i] == c {
            let done = cur;
            proof {
                lemma_views_push(pieces@, done);
            }
            pieces.push(done);
            cur = Vec::new();
            assert(split_char(s@.take(i + 1), c) =~= views(pieces@).push(cur@));
        } else {
            let ghost before = cur@;
            cur.push(s[i]);
            assert(split_char(s@.take(i + 1), c) =~= views(pieces@).push(cur@));
        }
        i = i + 1;
    }
    assert(s@.take(i as int) =~= s@);
    proof {
        lemma_views_push(pieces@, cur);
    }
    pieces.push(cur);
    pieces
}

/// The pieces of `s` between whitespace characters.
pub open spec fn split_ws(s: Seq<char>) -> Seq<Seq<char>>
    decreases s.len(),
{
    if s.len() == 0 {
        seq![Seq::<char>::empty()]
    } else {
        let r = split_ws(s.drop_last());
        if is_ws(s.last()) {
            r.push(Seq::<char>::empty())
        } else {
            r.update(r.len() - 1, r.last().push(s.last()))
        }
    }
}

proof fn lemma_split_ws_nonempty(s: Seq<char>)
    ensures
        split_ws(s).len() >= 1,
    decreases s.len(),
{
    if s.len() > 0 {
        lemma_split_ws_nonempty(s.drop_last());
    }
}

/// The non-empty ones of `ps`, in order.
pub open spec fn non_empty(ps: Seq<Seq<char>>) -> Seq<Seq<char>>
    decreases ps.len(),
{
    if ps.len() == 0 {
        ps
    } else if ps.last().len() == 0 {
        non_empty(ps.drop_last())
    } else {
        non_empty(ps.drop_last()).push(ps.last())
    }
}

/// The words of `s`: its maximal runs of non-whitespace characters (what
/// `str::split_whitespace` yields).
pub open spec fn words(s: Seq<char>) -> Seq<Seq<char>> {
    non_empty(split_ws(s))
}

/// The words of `s`.
pub fn split_words(s: &Vec<char>) -> (r: Vec<Vec<char>>)
    ensures
        views(r@) == words(s@),
{
    let mut pieces: Vec<Vec<char>> = Vec::new();
    let mut cur: Vec<char> = Vec::new();
    let mut i: usize = 0;
    assert(s@.take(0) =~= Seq::<char>::empty());
    assert(non_empty(seq![Seq::<char>::empty()].drop_last()) =~= Seq::<Seq<char>>::empty());
    while i < s.len()
        invariant
            i <= s@.len(),
            split_ws(s@.take(i as int)).last() == cur@,
            split_ws(s@.take(i as int)).len() >= 1,
            non_empty(split_ws(s@.take(i as int)).drop_last()) == views(pieces@),
        decreases s.len() - i,
    {
        assert(s@.take(i + 1).drop_last() =~= s@.take(i as int));
        let ghost prev = split_ws(s@.take(i as int));
        if is_whitespace(s[i]) {
            if cur.len() > 0 {
                let done = cur;
                proof {
                    lemma_views_push(pieces@, done);
                }
                pieces.push(done);
            }
            assert(split_ws(s@.take(i + 1)).drop_last() =~= prev);
            assert(prev =~= prev.drop_last().push(prev.last()));
            cur = Vec::new();
        } else {
            cur.push(s[i]);
            assert(split_ws(s@.take(i + 1)).drop_last() =~= prev.drop_last());
        }
        i = i + 1;
    }
    assert(s@.take(i as int) =~= s@);
    let ghost all = split_ws(s@);
    assert(all =~= all.drop_last().push(all.last()));
    if cur.len() > 0 {
        proof {
            lemma_views_push(pieces@, cur);
        }
        pieces.push(cur);
    }
    pieces
}


/// Position of the last newline in the leading whitespace of `r`, or -1.
pub open spec fn last_nl(r: Seq<char>) -> int
    decreases r.len(),
{
    if r.len() == 0 || !is_ws(r[0]) {
        -1
    } else {
        let k = last_nl(r.drop_first());
        if k >= 0 {
            k + 1
        } else if r[0] == '\n' {
            0
        } else {
            -1
        }
    }
}

/// The last newline of the leading whitespace, if any, lies inside `r`.
pub proof fn lemma_last_nl_bound(r: Seq<char>)
    ensures
        -1 <= last_nl(r) < r.len(),
    decreases r.len(),
{
    if r.len() > 0 && is_ws(r[0]) {
        lemma_last_nl_bound(r.drop_first());
    }
}

proof fn lemma_last_nl(r: Seq<char>, w: int, k: int)
    requires
        0 <= w <= r.len(),
        forall|q: int| 0 <= q < w ==> is_ws(#[trigger] r[q]),
        w == r.len() || !is_ws(r[w]),
        -1 <= k < w,
        k >= 0 ==> r[k] == '\n',
        forall|q: int| k < q < w ==> #[trigger] r[q] != '\n',
    ensures
        last_nl(r) == k,
    decreases w,
{
    if w > 0 {
        let r1 = r.drop_first();
        let k1 = if k >= 1 {
            k - 1
        } else {
            -1
        };
        assert forall|q: int| 0 <= q < w - 1 implies is_ws(#[trigger] r1[q]) by {
            assert(r1[q] == r[q + 1]);
        }
        assert forall|q: int| k1 < q < w - 1 implies #[trigger] r1[q] != '\n' by {
            assert(r1[q] == r[q + 1]);
        }
        lemma_last_nl(r1, w - 1, k1);
    }
}

/// Length of the paragraph break at the start of `s`: a newline, then the
/// following whitespace up to and including its last newline (what the
/// pattern `\n\s*\n` matches there), or 0 when there is none.
pub open spec fn break_len(s: Seq<char>) -> int {
    if s.len() > 0 && s[0] == '\n' && last_nl(s.drop_first()) >= 0 {
        last_nl(s.drop_first()) + 2
    } else {
        0
    }
}

/// The pieces of `s` between paragraph breaks, scanning from `i` with the
/// current piece starting at `start`.
pub open spec fn paras_from(s: Seq<char>, start: int, i: int) -> Seq<Seq<char>>
    decreases s.len() - i,
{
    if i >= s.len() {
        seq![s.subrange(start, s.len() as int)]
    } else if i < 0 {
        seq![]
    } else if break_len(s.skip(i)) > 0 {
        proof {
            lemma_last_nl_bound(s.skip(i).drop_first());
        }
        let e = i + break_len(s.skip(i));
        seq![s.subrange(start, i)] + paras_from(s, e, e)
    } else {
        paras_from(s, start, i + 1)
    }
}

/// The pieces of `s` between paragraph breaks (what splitting on the
/// pattern `\n\s*\n` yields).
pub open spec fn paragraphs(s: Seq<char>) -> Seq<Seq<char>> {
    paras_from(s, 0, 0)
}

fn break_at(s: &Vec<char>, i: usize) -> (b: usize)
    requires
        i < s.len(),
    ensures
        b == break_len(s@.skip(i as int)),
        i + b <= s@.len(),
{
    let ghost r = s@.skip(i as int).drop_first();
    proof {
        lemma_last_nl_bound(r);
    }
    if s[i] != '\n' {
        return 0;
    }
    let mut j = i + 1;
    let mut found = false;
    let mut k: usize = 0;
    while j < s.len() && is_whitespace(s[j])
        invariant
            i < j <= s@.len(),
            r == s@.subrange(i + 1, s@.len() as int),
            forall|q: int| i < q < j ==> is_ws(#[trigger] s@[q]),
            found ==> i < k < j && s@[k as int] == '\n',
            forall|q: int| (if found { k as int } else { i as int }) < q < j ==> #[trigger] s@[q]
                != '\n',
        decreases s.len() - j,
    {
        if s[j] == '\n' {
            found = true;
            k = j;
        }
        j = j + 1;
    }
    let ghost kk: int = if found { k - (i + 1) } else { -1 };
    proof {
        assert(r =~= s@.subrange(i + 1, s@.len() as int));
        assert forall|q: int| 0 <= q < j - (i + 1) implies is_ws(#[trigger] r[q]) by {
            assert(r[q] == s@[q + i + 1]);
        }
        if j < s@.len() {
            assert(r[j - (i + 1)] == s@[j as int]);
        }
        if found {
            assert(r[kk] == s@[k as int]);
        }
        assert forall|q: int| kk < q < j - (i + 1) implies #[trigger] r[q] != '\n' by {
            assert(r[q] == s@[q + i + 1]);
        }
        lemma_last_nl(r, j - (i + 1), kk);
        assert(s@.skip(i as int)[0] == s@[i as int]);
    }
    if found {
        k - i + 1
    } else {
        0
    }
}

/// The pieces of `s` between paragraph breaks.
pub fn split_paragraphs(s: &Vec<char>) -> (r: Vec<Vec<char>>)
    ensures
        views(r@) == paragraphs(s@),
{
    let mut pieces: Vec<Vec<char>> = Vec::new();
    let mut start: usize = 0;
    let mut i: usize = 0;
    while i < s.len()
        invariant
            start <= i <= s@.len(),
            paragraphs(s@) == views(pieces@) + paras_from(s@, start as int, i as int),
        decreases s.len() - i,
    {
        let b = break_at(s, i);
        let ghost s0 = start as int;
        let ghost i0 = i as int;
        if b > 0 {
            let piece = copy_range(s, start, i);
            let ghost v0 = views(pieces@);
            proof {
                lemma_views_push(pieces@, piece);
            }
            pieces.push(piece);
            i = i + b;
            start = i;
            assert(paras_from(s@, s0, i0) == seq![s@.subrange(s0, i0)] + paras_from(
                s@,
                i as int,
                i as int,
            ));
            assert(v0 + paras_from(s@, s0, i0) =~= views(pieces@) + paras_from(
                s@,
                start as int,
                i as int,
            ));
        } else {
            i = i + 1;
        }
    }
    let last = copy_range(s, start, s.len());
    proof {
        lemma_views_push(pieces@, last);
    }
    pieces.push(last);
    assert(views(pieces@) =~= paragraphs(s@));
    pieces
}


/// Marks that can end a sentence.
pub open spec fn is_sentence_mark(c: char) -> bool {
    c == '.' || c == '!' || c == '?'
}

/// Number of whitespace characters at the start of `r`.
pub open spec fn ws_prefix_len(r: Seq<char>) -> int
    decreases r.len(),
{
    if r.len() > 0 && is_ws(r[0]) {
        1 + ws_prefix_len(r.drop_first())
    } else {
        0
    }
}

/// The whitespace at the start of `r` lies inside `r`.
pub proof fn lemma_ws_prefix_len(r: Seq<char>)
    ensures
        0 <= ws_prefix_len(r) <= r.len(),
        forall|q: int| 0 <= q < ws_prefix_len(r) ==> is_ws(#[trigger] r[q]),
        ws_prefix_len(r) == r.len() || !is_ws(r[ws_prefix_len(r)]),
    decreases r.len(),
{
    if r.len() > 0 && is_ws(r[0]) {
        lemma_ws_prefix_len(r.drop_first());
        assert forall|q: int| 0 <= q < ws_prefix_len(r) implies is_ws(#[trigger] r[q]) by {
            if q > 0 {
                assert(r[q] == r.drop_first()[q - 1]);
            }
        }
        if ws_prefix_len(r) < r.len() {
            assert(r[ws_prefix_len(r)] == r.drop_first()[ws_prefix_len(r.drop_first())]);
        }
    }
}

/// Where the sentence break at position `i` ends: past a mark followed by
/// whitespace and all of that whitespace (what the pattern `([.!?])\s+`
/// matches there), or `i` itself when there is no break at `i`.
pub open spec fn sentence_break_end(s: Seq<char>, i: int) -> int {
    if 0 <= i && i + 1 < s.len() && is_sentence_mark(s[i]) && is_ws(s[i + 1]) {
        i + 1 + ws_prefix_len(s.skip(i + 1))
    } else {
        i
    }
}

/// Abbreviations whose final dot does not end a sentence.
pub open spec fn abbreviations() -> Seq<Seq<char>> {
    seq![
        seq!['D', 'r', '.'],
        seq!['M', 'r', '.'],
        seq!['M', 'r', 's', '.'],
        seq!['M', 's', '.'],
        seq!['P', 'r', 'o', 'f', '.'],
        seq!['S', 'r', '.'],
        seq!['J', 'r', '.'],
        seq!['S', 't', '.'],
        seq!['A', 'v', 'e', '.'],
        seq!['R', 'd', '.'],
        seq!['B', 'l', 'v', 'd', '.'],
        seq!['D', 'e', 'p', 't', '.'],
        seq!['I', 'n', 'c', '.'],
        seq!['L', 't', 'd', '.'],
        seq!['C', 'o', '.'],
        seq!['C', 'o', 'r', 'p', '.'],
        seq!['e', 't', 'c', '.'],
        seq!['v', 's', '.'],
        seq!['i', '.', 'e', '.'],
        seq!['e', '.', 'g', '.'],
        seq!['P', 'h', '.', 'D', '.'],
    ]
}

/// Whether `x` ends with `a`.
pub open spec fn ends_with(x: Seq<char>, a: Seq<char>) -> bool {
    a.len() <= x.len() && x.subrange(x.len() - a.len(), x.len() as int) == a
}

/// Whether `x` ends with one of the abbreviations.
pub open spec fn ends_with_abbreviation(x: Seq<char>) -> bool {
    exists|k: int| 0 <= k < abbreviations().len() && ends_with(x, #[trigger] abbreviations()[k])
}

/// The sentences of `s`, scanning from `i`, the current sentence starting at
/// `last`. A break whose text since `last`, trimmed and followed by the mark,
/// ends with an abbreviation does not end the sentence.
pub open spec fn sentences_from(s: Seq<char>, i: int, last: int) -> Seq<Seq<char>>
    decreases s.len() - i,
{
    if i >= s.len() || i < 0 {
        if 0 <= last < s.len() {
            seq![s.subrange(last, s.len() as int)]
        } else {
            seq![]
        }
    } else {
        let e = sentence_break_end(s, i);
        if e > i {
            proof {
                lemma_ws_prefix_len(s.skip(i + 1));
            }
            if ends_with_abbreviation(trim(s.subrange(last, i)).push(s[i])) {
                sentences_from(s, e, last)
            } else {
                seq![s.subrange(last, e)] + sentences_from(s, e, e)
            }
        } else {
            sentences_from(s, i + 1, last)
        }
    }
}

/// The sentences of `s`, each with the whitespace after its final mark, or
/// `s` alone when that gives nothing.
pub open spec fn split_sentences(s: Seq<char>) -> Seq<Seq<char>> {
    let r = sentences_from(s, 0, 0);
    if r.len() == 0 {
        seq![s]
    } else {
        r
    }
}

fn abbreviation_list() -> (v: Vec<Vec<char>>)
    ensures
        v@.len() == abbreviations().len(),
        forall|k: int| 0 <= k < v@.len() ==> #[trigger] v@[k]@ == abbreviations()[k],
{
    let v = vec![
        vec!['D', 'r', '.'],
        vec!['M', 'r', '.'],
        vec!['M', 'r', 's', '.'],
        vec!['M', 's', '.'],
        vec!['P', 'r', 'o', 'f', '.'],
        vec!['S', 'r', '.'],
        vec!['J', 'r', '.'],
        vec!['S', 't', '.'],
        vec!['A', 'v', 'e', '.'],
        vec!['R', 'd', '.'],
        vec!['B', 'l', 'v', 'd', '.'],
        vec!['D', 'e', 'p', 't', '.'],
        vec!['I', 'n', 'c', '.'],
        vec!['L', 't', 'd', '.'],
        vec!['C', 'o', '.'],
        vec!['C', 'o', 'r', 'p', '.'],
        vec!['e', 't', 'c', '.'],
        vec!['v', 's', '.'],
        vec!['i', '.', 'e', '.'],
        vec!['e', '.', 'g', '.'],
        vec!['P', 'h', '.', 'D', '.'],
    ];
    assert forall|k: int| 0 <= k < v@.len() implies #[trigger] v@[k]@ == abbreviations()[k] by {
        assert(v@[k]@ =~= abbreviations()[k]);
    }
    v
}

fn is_abbreviated(x: &Vec<char>) -> (b: bool)
    ensures
        b == ends_with_abbreviation(x@),
{
    let list = abbreviation_list();
    let mut k: usize = 0;
    while k < list.len()
        invariant
            k <= list@.len(),
            list@.len() == abbreviations().len(),
            forall|q: int| 0 <= q < list@.len() ==> #[trigger] list@[q]@ == abbreviations()[q],
            forall|q: int| 0 <= q < k ==> !ends_with(x@, #[trigger] abbreviations()[q]),
        decreases list.len() - k,
    {
        let a = &list[k];
        if a.len() <= x.len() && crate::chars::matches_at(x, x.len() - a.len(), a) {
            assert(ends_with(x@, abbreviations()[k as int]));
            return true;
        }
        k = k + 1;
    }
    false
}

fn break_end(s: &Vec<char>, i: usize) -> (e: usize)
    requires
        i < s.len(),
    ensures
        e == sentence_break_end(s@, i as int),
        i <= e <= s@.len(),
{
    if i + 1 < s.len() && (s[i] == '.' || s[i] == '!' || s[i] == '?') && is_whitespace(s[i + 1]) {
        let mut j = i + 1;
        while j < s.len() && is_whitespace(s[j])
            invariant
                i < j <= s@.len(),
                forall|q: int| i < q < j ==> is_ws(#[trigger] s@[q]),
            decreases s.len() - j,
        {
            j = j + 1;
        }
        proof {
            let r = s@.skip(i + 1);
            lemma_ws_prefix_len(r);
            let w = ws_prefix_len(r);
            let m = j - (i + 1);
            if w < m {
                assert(r[w] == s@[i + 1 + w]);
            }
            if m < w {
                assert(r[m] == s@[j as int]);
            }
        }
        j
    } else {
        i
    }
}

/// The sentences of `s`.
pub fn sentences_of(s: &Vec<char>) -> (r: Vec<Vec<char>>)
    ensures
        views(r@) == split_sentences(s@),
{
    let mut out: Vec<Vec<char>> = Vec::new();
    let mut i: usize = 0;
    let mut last: usize = 0;
    while i < s.len()
        invariant
            last <= i <= s@.len(),
            sentences_from(s@, 0, 0) == views(out@) + sentences_from(s@, i as int, last as int),
        decreases s.len() - i,
    {
        let e = break_end(s, i);
        if e > i {
            let (a, b) = crate::chars::trim_bounds(s, last, i);
            let mut combined = copy_range(s, a, b);
            combined.push(s[i]);
            if is_abbreviated(&combined) {
                i = e;
            } else {
                let piece = copy_range(s, last, e);
                let ghost v0 = views(out@);
                proof {
                    lemma_views_push(out@, piece);
                }
                out.push(piece);
                let ghost l0 = last as int;
                let ghost i0 = i as int;
                i = e;
                last = e;
                assert(v0 + sentences_from(s@, i0, l0) =~= views(out@) + sentences_from(
                    s@,
                    i as int,
                    last as int,
                ));
            }
        } else {
            i = i + 1;
        }
    }
    if last < s.len() {
        let piece = copy_range(s, last, s.len());
        proof {
            lemma_views_push(out@, piece);
        }
        out.push(piece);
        assert(sentences_from(s@, 0, 0) =~= views(out@));
    } else {
        assert(sentences_from(s@, 0, 0) =~= views(out@));
    }
    if out.len() == 0 {
        let whole = copy_range(s, 0, s.len());
        assert(s@.subrange(0, s@.len() as int) =~= s@);
        let mut r: Vec<Vec<char>> = Vec::new();
        proof {
            lemma_views_push(r@, whole);
        }
        r.push(whole);
        assert(views(r@) =~= seq![s@]);
        r
    } else {
        out
    }
}


/// Chunker state: the chunks emitted so far and the chunk being built.
pub type ChunkState = (Seq<Seq<char>>, Seq<char>);

/// `a`, then `sep` and `b`; just `b` when `a` is empty.
pub open spec fn join(a: Seq<char>, sep: Seq<char>, b: Seq<char>) -> Seq<char> {
    if a.len() > 0 {
        a + sep + b
    } else {
        b
    }
}

/// Emits the chunk being built when adding `incoming` bytes and a separator
/// byte would pass `max` bytes.
pub open spec fn flush_if_full(st: ChunkState, incoming: nat, max: nat) -> ChunkState {
    if byte_len(st.1) + incoming + 1 > max && st.1.len() > 0 {
        (st.0.push(trim(st.1)), Seq::<char>::empty())
    } else {
        st
    }
}

/// Adds word `w`, space separated.
pub open spec fn word_step(st: ChunkState, w: Seq<char>, max: nat) -> ChunkState {
    let f = flush_if_full(st, byte_len(w), max);
    (f.0, join(f.1, seq![' '], w))
}

/// State after adding each word of `ws`, from nothing.
pub open spec fn fold_words(ws: Seq<Seq<char>>, max: nat) -> ChunkState
    decreases ws.len(),
{
    if ws.len() == 0 {
        (Seq::<Seq<char>>::empty(), Seq::<char>::empty())
    } else {
        word_step(fold_words(ws.drop_last(), max), ws.last(), max)
    }
}

/// The chunks of a piece too long for one chunk, made of whole words.
pub open spec fn word_chunks(p: Seq<char>, max: nat) -> Seq<Seq<char>> {
    let f = fold_words(words(p), max);
    if f.1.len() > 0 {
        f.0.push(trim(f.1))
    } else {
        f.0
    }
}

/// Adds the comma-separated piece `raw` of a long sentence.
pub open spec fn part_step(st: ChunkState, raw: Seq<char>, max: nat) -> ChunkState {
    let p = trim(raw);
    if p.len() == 0 {
        st
    } else if byte_len(p) > max {
        (st.0 + word_chunks(p, max), st.1)
    } else {
        let f = flush_if_full(st, byte_len(p), max);
        (f.0, join(f.1, seq![',', ' '], p))
    }
}

/// State after adding each piece of `ps`, from `init`.
pub open spec fn fold_parts(ps: Seq<Seq<char>>, max: nat, init: ChunkState) -> ChunkState
    decreases ps.len(),
{
    if ps.len() == 0 {
        init
    } else {
        part_step(fold_parts(ps.drop_last(), max, init), ps.last(), max)
    }
}

/// Adds sentence `raw`; a sentence too long for one chunk goes by its commas.
pub open spec fn sentence_step(st: ChunkState, raw: Seq<char>, max: nat) -> ChunkState {
    let s = trim(raw);
    if s.len() == 0 {
        st
    } else if byte_len(s) > max {
        let st1 = if st.1.len() > 0 {
            (st.0.push(trim(st.1)), Seq::<char>::empty())
        } else {
            st
        };
        fold_parts(split_char(s, ','), max, st1)
    } else {
        let f = flush_if_full(st, byte_len(s), max);
        (f.0, join(f.1, seq![' '], s))
    }
}

/// State after adding each sentence of `ss`, from nothing.
pub open spec fn fold_sentences(ss: Seq<Seq<char>>, max: nat) -> ChunkState
    decreases ss.len(),
{
    if ss.len() == 0 {
        (Seq::<Seq<char>>::empty(), Seq::<char>::empty())
    } else {
        sentence_step(fold_sentences(ss.drop_last(), max), ss.last(), max)
    }
}

/// The chunks of trimmed paragraph `p`: none when it is empty, itself when it
/// fits in `max` bytes, else built sentence by sentence.
pub open spec fn para_chunks(p: Seq<char>, max: nat) -> Seq<Seq<char>> {
    if p.len() == 0 {
        Seq::<Seq<char>>::empty()
    } else if byte_len(p) <= max {
        seq![p]
    } else {
        let f = fold_sentences(split_sentences(p), max);
        if f.1.len() > 0 {
            f.0.push(trim(f.1))
        } else {
            f.0
        }
    }
}

/// The chunks of each paragraph of `ps`, trimmed, in order.
pub open spec fn chunks_of_paras(ps: Seq<Seq<char>>, max: nat) -> Seq<Seq<char>>
    decreases ps.len(),
{
    if ps.len() == 0 {
        Seq::<Seq<char>>::empty()
    } else {
        chunks_of_paras(ps.drop_last(), max) + para_chunks(trim(ps.last()), max)
    }
}

/// The chunks of `text` for at most `max` bytes each: the chunks of its
/// paragraphs, or a single empty chunk when there are none.
pub open spec fn chunked(text: Seq<char>, max: nat) -> Seq<Seq<char>> {
    let t = trim(text);
    if t.len() == 0 {
        seq![Seq::<char>::empty()]
    } else {
        let c = chunks_of_paras(paragraphs(t), max);
        if c.len() == 0 {
            seq![Seq::<char>::empty()]
        } else {
            c
        }
    }
}

fn flush_if_full_exec(out: &mut Vec<Vec<char>>, cur: &mut Vec<char>, incoming: u128, max: usize)
    requires
        incoming <= 4 * usize::MAX,
    ensures
        (views(final(out)@), final(cur)@) == flush_if_full(
            (views(old(out)@), old(cur)@),
            incoming as nat,
            max as nat,
        ),
{
    let cl = byte_count(cur);
    if cl + incoming + 1 > max as u128 && cur.len() > 0 {
        let t = trimmed(cur);
        proof {
            lemma_views_push(out@, t);
        }
        out.push(t);
        *cur = Vec::new();
    }
}

fn join_exec(cur: &mut Vec<char>, comma: bool, item: &Vec<char>)
    ensures
        final(cur)@ == join(
            old(cur)@,
            if comma {
                seq![',', ' ']
            } else {
                seq![' ']
            },
            item@,
        ),
{
    if cur.len() > 0 {
        if comma {
            cur.push(',');
        }
        cur.push(' ');
    }
    append_chars(cur, item);
    proof {
        if old(cur)@.len() > 0 {
            if comma {
                assert(final(cur)@ =~= old(cur)@ + seq![',', ' '] + item@);
            } else {
                assert(final(cur)@ =~= old(cur)@ + seq![' '] + item@);
            }
        } else {
            assert(final(cur)@ =~= item@);
        }
    }
}

/// The chunks of a piece too long for one chunk, made of whole words.
pub fn chunk_words(p: &Vec<char>, max: usize) -> (r: Vec<Vec<char>>)
    ensures
        views(r@) == word_chunks(p@, max as nat),
{
    let ws = split_words(p);
    let ghost wv = words(p@);
    let mut out: Vec<Vec<char>> = Vec::new();
    let mut cur: Vec<char> = Vec::new();
    let mut i: usize = 0;
    assert(wv.take(0) =~= Seq::<Seq<char>>::empty());
    while i < ws.len()
        invariant
            i <= ws@.len(),
            views(ws@) == wv,
            (views(out@), cur@) == fold_words(wv.take(i as int), max as nat),
        decreases ws.len() - i,
    {
        assert(wv.take(i + 1).drop_last() =~= wv.take(i as int));
        assert(wv[i as int] == ws@[i as int]@);
        let wl = byte_count(&ws[i]);
        flush_if_full_exec(&mut out, &mut cur, wl, max);
        join_exec(&mut cur, false, &ws[i]);
        i = i + 1;
    }
    assert(wv.take(i as int) =~= wv);
    if cur.len() > 0 {
        let t = trimmed(&cur);
        proof {
            lemma_views_push(out@, t);
        }
        out.push(t);
    }
    out
}

fn append_all(out: &mut Vec<Vec<char>>, more: Vec<Vec<char>>)
    ensures
        views(final(out)@) == views(old(out)@) + views(more@),
{
    let mut i: usize = 0;
    while i < more.len()
        invariant
            i <= more@.len(),
            views(out@) == views(old(out)@) + views(more@).take(i as int),
        decreases more.len() - i,
    {
        let x = copy_range(&more[i], 0, more[i].len());
        assert(more@[i as int]@.subrange(0, more@[i as int]@.len() as int) =~= more@[i as int]@);
        proof {
            lemma_views_push(out@, x);
        }
        out.push(x);
        i = i + 1;
        assert(views(out@) =~= views(old(out)@) + views(more@).take(i as int));
    }
    assert(views(more@).take(i as int) =~= views(more@));
}

fn part_step_exec(out: &mut Vec<Vec<char>>, cur: &mut Vec<char>, raw: &Vec<char>, max: usize)
    ensures
        (views(final(out)@), final(cur)@) == part_step(
            (views(old(out)@), old(cur)@),
            raw@,
            max as nat,
        ),
{
    let p = trimmed(raw);
    if p.len() == 0 {
        return;
    }
    let pl = byte_count(&p);
    if pl > max as u128 {
        let wc = chunk_words(&p, max);
        append_all(out, wc);
    } else {
        flush_if_full_exec(out, cur, pl, max);
        join_exec(cur, true, &p);
    }
}

fn sentence_step_exec(
    out: &mut Vec<Vec<char>>,
    cur: &mut Vec<char>,
    raw: &Vec<char>,
    max: usize,
)
    ensures
        (views(final(out)@), final(cur)@) == sentence_step(
            (views(old(out)@), old(cur)@),
            raw@,
            max as nat,
        ),
{
    let s = trimmed(raw);
    if s.len() == 0 {
        return;
    }
    let sl = byte_count(&s);
    if sl > max as u128 {
        if cur.len() > 0 {
            let t = trimmed(cur);
            proof {
                lemma_views_push(out@, t);
            }
            out.push(t);
            *cur = Vec::new();
        }
        let ghost init: ChunkState = (views(out@), cur@);
        let parts = split_on_char(&s, ',');
        let ghost pv = split_char(s@, ',');
        let mut i: usize = 0;
        assert(pv.take(0) =~= Seq::<Seq<char>>::empty());
        while i < parts.len()
            invariant
                i <= parts@.len(),
                views(parts@) == pv,
                (views(out@), cur@) == fold_parts(pv.take(i as int), max as nat, init),
            decreases parts.len() - i,
        {
            assert(pv.take(i + 1).drop_last() =~= pv.take(i as int));
            assert(pv[i as int] == parts@[i as int]@);
            part_step_exec(out, cur, &parts[i], max);
            i = i + 1;
        }
        assert(pv.take(i as int) =~= pv);
    } else {
        flush_if_full_exec(out, cur, sl, max);
        join_exec(cur, false, &s);
    }
}

/// The chunks of trimmed paragraph `p` for at most `max` bytes each.
pub fn chunk_paragraph(p: &Vec<char>, max: usize) -> (r: Vec<Vec<char>>)
    ensures
        views(r@) == para_chunks(p@, max as nat),
{
    let mut out: Vec<Vec<char>> = Vec::new();
    if p.len() == 0 {
        assert(views(out@) =~= Seq::<Seq<char>>::empty());
        return out;
    }
    if byte_count(p) <= max as u128 {
        let x = copy_range(p, 0, p.len());
        assert(p@.subrange(0, p@.len() as int) =~= p@);
        proof {
            lemma_views_push(out@, x);
        }
        out.push(x);
        assert(views(out@) =~= seq![p@]);
        return out;
    }
    let ss = sentences_of(p);
    let ghost sv = split_sentences(p@);
    let mut cur: Vec<char> = Vec::new();
    let mut i: usize = 0;
    assert(sv.take(0) =~= Seq::<Seq<char>>::empty());
    assert(views(out@) =~= Seq::<Seq<char>>::empty());
    while i < ss.len()
        invariant
            i <= ss@.len(),
            views(ss@) == sv,
            (views(out@), cur@) == fold_sentences(sv.take(i as int), max as nat),
        decreases ss.len() - i,
    {
        assert(sv.take(i + 1).drop_last() =~= sv.take(i as int));
        assert(sv[i as int] == ss@[i as int]@);
        sentence_step_exec(&mut out, &mut cur, &ss[i], max);
        i = i + 1;
    }
    assert(sv.take(i as int) =~= sv);
    if cur.len() > 0 {
        let t = trimmed(&cur);
        proof {
            lemma_views_push(out@, t);
        }
        out.push(t);
    }
    out
}


/// Chunk size, in bytes, when none is given.
pub const MAX_CHUNK_LENGTH: usize = 300;

/// The chunk size in bytes: `max_len`, or 300 when it is absent.
pub open spec fn chunk_limit(max_len: Option<usize>) -> nat {
    match max_len {
        Some(m) => m as nat,
        None => MAX_CHUNK_LENGTH as nat,
    }
}

/// The characters of each of `v`.
pub open spec fn string_views(v: Seq<String>) -> Seq<Seq<char>> {
    v.map_values(|x: String| x@)
}

fn to_strings(v: &Vec<Vec<char>>) -> (r: Vec<String>)
    ensures
        string_views(r@) == views(v@),
{
    let mut r: Vec<String> = Vec::new();
    let mut i: usize = 0;
    while i < v.len()
        invariant
            i <= v@.len(),
            string_views(r@) == views(v@).take(i as int),
        decreases v.len() - i,
    {
        let x = crate::chars::string_from_chars(&v[i]);
        let ghost r0 = r@;
        r.push(x);
        assert(string_views(r@) =~= string_views(r0).push(x@));
        assert(views(v@).take(i + 1) =~= views(v@).take(i as int).push(v@[i as int]@));
        i = i + 1;
    }
    assert(views(v@).take(i as int) =~= views(v@));
    r
}

/// Splits `text` into chunks of at most `max_len` bytes (300 when absent),
/// paragraph by paragraph, then sentence by sentence, then by commas, then
/// by words; gives a single empty chunk when there is nothing to read.
pub fn chunk_text(text: &str, max_len: Option<usize>) -> (r: Vec<String>)
    ensures
        string_views(r@) == chunked(text@, chunk_limit(max_len)),
{
    let max = match max_len {
        Some(m) => m,
        None => MAX_CHUNK_LENGTH,
    };
    let chars = crate::chars::str_chars(text);
    let t = trimmed(&chars);
    if t.len() == 0 {
        let mut r: Vec<String> = Vec::new();
        r.push(String::new());
        assert(string_views(r@) =~= seq![Seq::<char>::empty()]);
        return r;
    }
    let paras = split_paragraphs(&t);
    let ghost pv = paragraphs(t@);
    let mut chunks: Vec<Vec<char>> = Vec::new();
    let mut i: usize = 0;
    assert(pv.take(0) =~= Seq::<Seq<char>>::empty());
    assert(views(chunks@) =~= Seq::<Seq<char>>::empty());
    while i < paras.len()
        invariant
            i <= paras@.len(),
            views(paras@) == pv,
            max as nat == chunk_limit(max_len),
            views(chunks@) == chunks_of_paras(pv.take(i as int), max as nat),
        decreases paras.len() - i,
    {
        assert(pv.take(i + 1).drop_last() =~= pv.take(i as int));
        assert(pv[i as int] == paras@[i as int]@);
        let p = trimmed(&paras[i]);
        let pc = chunk_paragraph(&p, max);
        append_all(&mut chunks, pc);
        i = i + 1;
    }
    assert(pv.take(i as int) =~= pv);
    if chunks.len() == 0 {
        let mut r: Vec<String> = Vec::new();
        r.push(String::new());
        assert(string_views(r@) =~= seq![Seq::<char>::empty()]);
        return r;
    }
    to_strings(&chunks)
}

} // verus!
