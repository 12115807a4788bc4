//! What every chunk that `chunk_text` makes satisfies.

use vstd::prelude::*;
use crate::chars::{
    byte_len, has_ws, is_trimmed, is_ws, lemma_byte_len_concat, lemma_byte_len_single,
    lemma_trim_is_trimmed, lemma_trim_trimmed, trim,
};
use crate::chunk::{
    chunk_limit, chunked, chunks_of_paras, fold_parts, fold_sentences, fold_words, flush_if_full,
    join, non_empty, para_chunks, part_step, sentence_step, split_ws, word_chunks,
    words, ChunkState, sentence_break_end, sentences_from, split_sentences, lemma_ws_prefix_len,
    split_char,
};
use crate::text_laws::{all_chars, lemma_all_chars_concat, lemma_all_chars_subrange, lemma_trim_keeps};

verus! {

/// A chunk as the chunker emits it: not empty, trimmed, and at most one byte
/// over the limit unless it is a single word.
pub open spec fn chunk_ok(c: Seq<char>, max: nat) -> bool {
    &&& c.len() > 0
    &&& is_trimmed(c)
    &&& (byte_len(c) <= max + 1 || !has_ws(c))
}

/// Every chunk of `cs` is as the chunker emits it.
pub open spec fn all_ok(cs: Seq<Seq<char>>, max: nat) -> bool {
    forall|i: int| 0 <= i < cs.len() ==> chunk_ok(#[trigger] cs[i], max)
}

spec fn state_ok(st: ChunkState, max: nat) -> bool {
    all_ok(st.0, max) && is_trimmed(st.1) && byte_len(st.1) <= max + 1
}

spec fn word_state_ok(st: ChunkState, max: nat) -> bool {
    all_ok(st.0, max) && is_trimmed(st.1) && (byte_len(st.1) <= max || !has_ws(st.1))
}

proof fn lemma_all_ok_push(cs: Seq<Seq<char>>, c: Seq<char>, max: nat)
    requires
        all_ok(cs, max),
        chunk_ok(c, max),
    ensures
        all_ok(cs.push(c), max),
{
    assert forall|i: int| 0 <= i < cs.push(c).len() implies chunk_ok(#[trigger] cs.push(c)[i], max) by {
        if i < cs.len() {
            assert(cs.push(c)[i] == cs[i]);
        }
    }
}

proof fn lemma_all_ok_concat(a: Seq<Seq<char>>, b: Seq<Seq<char>>, max: nat)
    requires
        all_ok(a, max),
        all_ok(b, max),
    ensures
        all_ok(a + b, max),
{
    assert forall|i: int| 0 <= i < (a + b).len() implies chunk_ok(#[trigger] (a + b)[i], max) by {
        if i < a.len() {
            assert((a + b)[i] == a[i]);
        } else {
            assert((a + b)[i] == b[i - a.len()]);
        }
    }
}

proof fn lemma_join_props(a: Seq<char>, sep: Seq<char>, b: Seq<char>)
    requires
        is_trimmed(a),
        is_trimmed(b),
        b.len() > 0,
    ensures
        is_trimmed(join(a, sep, b)),
        join(a, sep, b).len() > 0,
        a.len() > 0 ==> byte_len(join(a, sep, b)) == byte_len(a) + byte_len(sep) + byte_len(b),
        a.len() == 0 ==> join(a, sep, b) == b,
{
    if a.len() > 0 {
        let j = a + sep + b;
        assert(j[0] == a[0]);
        assert(j.last() == b.last());
        lemma_byte_len_concat(a, sep);
        lemma_byte_len_concat(a + sep, b);
    }
}

proof fn lemma_sep_lens()
    ensures
        byte_len(seq![' ']) == 1,
        byte_len(seq![',', ' ']) == 2,
{
    lemma_byte_len_single(' ');
    lemma_byte_len_single(',');
    assert(seq![',', ' '] =~= seq![','] + seq![' ']);
    lemma_byte_len_concat(seq![','], seq![' ']);
}

proof fn lemma_flush(st: ChunkState, incoming: nat, max: nat)
    requires
        all_ok(st.0, max),
        is_trimmed(st.1),
        byte_len(st.1) <= max + 1 || !has_ws(st.1),
    ensures
        all_ok(flush_if_full(st, incoming, max).0, max),
        is_trimmed(flush_if_full(st, incoming, max).1),
        flush_if_full(st, incoming, max).1.len() > 0 ==> flush_if_full(st, incoming, max).1 == st.1
            && byte_len(st.1) + incoming + 1 <= max,
{
    if byte_len(st.1) + incoming + 1 > max && st.1.len() > 0 {
        lemma_trim_trimmed(st.1);
        lemma_all_ok_push(st.0, st.1, max);
    }
}

proof fn lemma_split_ws_no_ws(s: Seq<char>)
    ensures
        forall|i: int| 0 <= i < split_ws(s).len() ==> !has_ws(#[trigger] split_ws(s)[i]),
        split_ws(s).len() >= 1,
    decreases s.len(),
{
    if s.len() > 0 {
        lemma_split_ws_no_ws(s.drop_last());
        let r = split_ws(s.drop_last());
        if !is_ws(s.last()) {
            let l = r.last().push(s.last());
            assert(!has_ws(r.last()));
            assert forall|k: int| 0 <= k < l.len() implies !is_ws(#[trigger] l[k]) by {
                if k < r.last().len() {
                    assert(l[k] == r.last()[k]);
                }
            }
            assert forall|i: int| 0 <= i < split_ws(s).len() implies !has_ws(
                #[trigger] split_ws(s)[i],
            ) by {
                if i < r.len() - 1 {
                    assert(split_ws(s)[i] == r[i]);
                }
            }
        } else {
            assert forall|i: int| 0 <= i < split_ws(s).len() implies !has_ws(
                #[trigger] split_ws(s)[i],
            ) by {
                if i < r.len() {
                    assert(split_ws(s)[i] == r[i]);
                }
            }
        }
    }
}

proof fn lemma_non_empty_props(ps: Seq<Seq<char>>)
    requires
        forall|i: int| 0 <= i < ps.len() ==> !has_ws(#[trigger] ps[i]),
    ensures
        forall|i: int|
            0 <= i < non_empty(ps).len() ==> !has_ws(#[trigger] non_empty(ps)[i])
                && non_empty(ps)[i].len() > 0,
    decreases ps.len(),
{
    if ps.len() > 0 {
        assert forall|i: int| 0 <= i < ps.drop_last().len() implies !has_ws(
            #[trigger] ps.drop_last()[i],
        ) by {
            assert(ps.drop_last()[i] == ps[i]);
        }
        lemma_non_empty_props(ps.drop_last());
        let r = non_empty(ps.drop_last());
        if ps.last().len() > 0 {
            assert forall|i: int| 0 <= i < non_empty(ps).len() implies !has_ws(
                #[trigger] non_empty(ps)[i],
            ) && non_empty(ps)[i].len() > 0 by {
                if i < r.len() {
                    assert(non_empty(ps)[i] == r[i]);
                }
            }
        }
    }
}

proof fn lemma_words(s: Seq<char>)
    ensures
        forall|i: int|
            0 <= i < words(s).len() ==> !has_ws(#[trigger] words(s)[i]) && words(s)[i].len() > 0,
{
    lemma_split_ws_no_ws(s);
    lemma_non_empty_props(split_ws(s));
}

proof fn lemma_no_ws_trimmed(w: Seq<char>)
    requires
        !has_ws(w),
    ensures
        is_trimmed(w),
{
    if w.len() > 0 {
        assert(!is_ws(w[0]));
        assert(!is_ws(w[w.len() - 1]));
    }
}

proof fn lemma_fold_words(ws: Seq<Seq<char>>, max: nat)
    requires
        forall|i: int| 0 <= i < ws.len() ==> !has_ws(#[trigger] ws[i]) && ws[i].len() > 0,
    ensures
        word_state_ok(fold_words(ws, max), max),
    decreases ws.len(),
{
    if ws.len() == 0 {
        assert(word_state_ok(fold_words(ws, max), max));
    } else {
        assert forall|i: int| 0 <= i < ws.drop_last().len() implies !has_ws(
            #[trigger] ws.drop_last()[i],
        ) && ws.drop_last()[i].len() > 0 by {
            assert(ws.drop_last()[i] == ws[i]);
        }
        lemma_fold_words(ws.drop_last(), max);
        let st = fold_words(ws.drop_last(), max);
        let w = ws.last();
        assert(!has_ws(w) && w.len() > 0);
        lemma_no_ws_trimmed(w);
        lemma_flush(st, byte_len(w), max);
        let f = flush_if_full(st, byte_len(w), max);
        lemma_join_props(f.1, seq![' '], w);
        lemma_sep_lens();
    }
}

proof fn lemma_word_chunks(p: Seq<char>, max: nat)
    ensures
        all_ok(word_chunks(p, max), max),
{
    lemma_words(p);
    lemma_fold_words(words(p), max);
    let f = fold_words(words(p), max);
    if f.1.len() > 0 {
        lemma_trim_trimmed(f.1);
        lemma_all_ok_push(f.0, f.1, max);
    }
}

proof fn lemma_part_step(st: ChunkState, raw: Seq<char>, max: nat)
    requires
        state_ok(st, max),
    ensures
        state_ok(part_step(st, raw, max), max),
{
    let p = trim(raw);
    lemma_trim_is_trimmed(raw);
    if p.len() == 0 {
    } else if byte_len(p) > max {
        lemma_word_chunks(p, max);
        lemma_all_ok_concat(st.0, word_chunks(p, max), max);
    } else {
        lemma_flush(st, byte_len(p), max);
        let f = flush_if_full(st, byte_len(p), max);
        lemma_join_props(f.1, seq![',', ' '], p);
        lemma_sep_lens();
    }
}

proof fn lemma_fold_parts(ps: Seq<Seq<char>>, max: nat, init: ChunkState)
    requires
        state_ok(init, max),
    ensures
        state_ok(fold_parts(ps, max, init), max),
    decreases ps.len(),
{
    if ps.len() > 0 {
        lemma_fold_parts(ps.drop_last(), max, init);
        lemma_part_step(fold_parts(ps.drop_last(), max, init), ps.last(), max);
    }
}

proof fn lemma_sentence_step(st: ChunkState, raw: Seq<char>, max: nat)
    requires
        state_ok(st, max),
    ensures
        state_ok(sentence_step(st, raw, max), max),
{
    let s = trim(raw);
    lemma_trim_is_trimmed(raw);
    if s.len() == 0 {
    } else if byte_len(s) > max {
        let st1 = if st.1.len() > 0 {
            lemma_trim_trimmed(st.1);
            lemma_all_ok_push(st.0, st.1, max);
            (st.0.push(trim(st.1)), Seq::<char>::empty())
        } else {
            st
        };
        assert(state_ok(st1, max));
        lemma_fold_parts(crate::chunk::split_char(s, ','), max, st1);
    } else {
        lemma_flush(st, byte_len(s), max);
        let f = flush_if_full(st, byte_len(s), max);
        lemma_join_props(f.1, seq![' '], s);
        lemma_sep_lens();
    }
}

proof fn lemma_fold_sentences(ss: Seq<Seq<char>>, max: nat)
    ensures
        state_ok(fold_sentences(ss, max), max),
    decreases ss.len(),
{
    if ss.len() == 0 {
        assert(state_ok(fold_sentences(ss, max), max));
    } else {
        lemma_fold_sentences(ss.drop_last(), max);
        lemma_sentence_step(fold_sentences(ss.drop_last(), max), ss.last(), max);
    }
}

proof fn lemma_para_chunks(p: Seq<char>, max: nat)
    requires
        is_trimmed(p),
    ensures
        all_ok(para_chunks(p, max), max),
{
    if p.len() == 0 {
    } else if byte_len(p) <= max {
        assert(all_ok(seq![p], max)) by {
            assert(seq![p][0] == p);
        }
    } else {
        let ss = crate::chunk::split_sentences(p);
        lemma_fold_sentences(ss, max);
        let f = fold_sentences(ss, max);
        if f.1.len() > 0 {
            lemma_trim_trimmed(f.1);
            lemma_all_ok_push(f.0, f.1, max);
        }
    }
}

proof fn lemma_chunks_of_paras(ps: Seq<Seq<char>>, max: nat)
    ensures
        all_ok(chunks_of_paras(ps, max), max),
    decreases ps.len(),
{
    if ps.len() > 0 {
        lemma_chunks_of_paras(ps.drop_last(), max);
        lemma_trim_is_trimmed(ps.last());
        lemma_para_chunks(trim(ps.last()), max);
        lemma_all_ok_concat(
            chunks_of_paras(ps.drop_last(), max),
            para_chunks(trim(ps.last()), max),
            max,
        );
    }
}

/// `chunk_text` always gives at least one chunk; it gives the single empty
/// chunk, or chunks that are all non-empty, carry no leading or trailing
/// whitespace, and take at most one byte more than the limit unless the
/// chunk is one word longer than the limit.
pub proof fn lemma_chunk_text_bounds(text: Seq<char>, max_len: Option<usize>)
    ensures
        chunked(text, chunk_limit(max_len)).len() >= 1,
        chunked(text, chunk_limit(max_len)) == seq![Seq::<char>::empty()] || all_ok(
            chunked(text, chunk_limit(max_len)),
            chunk_limit(max_len),
        ),
{
    let t = trim(text);
    if t.len() > 0 {
        lemma_chunks_of_paras(crate::chunk::paragraphs(t), chunk_limit(max_len));
    }
}


/// The pieces of `ps` one after the other.
pub open spec fn concat_all(ps: Seq<Seq<char>>) -> Seq<char>
    decreases ps.len(),
{
    if ps.len() == 0 {
        Seq::<char>::empty()
    } else {
        ps[0] + concat_all(ps.drop_first())
    }
}

proof fn lemma_concat_cons(x: Seq<char>, rest: Seq<Seq<char>>)
    ensures
        concat_all(seq![x] + rest) == x + concat_all(rest),
{
    assert((seq![x] + rest).drop_first() =~= rest);
    assert((seq![x] + rest)[0] == x);
}

proof fn lemma_sentences_from_cover(s: Seq<char>, i: int, last: int)
    requires
        0 <= last <= i <= s.len(),
    ensures
        concat_all(sentences_from(s, i, last)) == s.skip(last),
    decreases s.len() - i,
{
    if i >= s.len() {
        if last < s.len() {
            lemma_concat_cons(s.subrange(last, s.len() as int), Seq::<Seq<char>>::empty());
            assert(s.subrange(last, s.len() as int) + Seq::<char>::empty() =~= s.skip(last));
        } else {
            assert(s.skip(last) =~= Seq::<char>::empty());
        }
    } else {
        let e = sentence_break_end(s, i);
        if e > i {
            lemma_ws_prefix_len(s.skip(i + 1));
            if crate::chunk::ends_with_abbreviation(trim(s.subrange(last, i)).push(s[i])) {
                lemma_sentences_from_cover(s, e, last);
            } else {
                lemma_sentences_from_cover(s, e, e);
                lemma_concat_cons(s.subrange(last, e), sentences_from(s, e, e));
                assert(s.subrange(last, e) + s.skip(e) =~= s.skip(last));
            }
        } else {
            lemma_sentences_from_cover(s, i + 1, last);
        }
    }
}

/// The sentences of a paragraph, one after the other, give the paragraph
/// back: splitting loses and adds nothing.
pub proof fn lemma_sentences_cover(p: Seq<char>)
    ensures
        concat_all(split_sentences(p)) == p,
{
    lemma_sentences_from_cover(p, 0, 0);
    assert(p.skip(0) =~= p);
    if sentences_from(p, 0, 0).len() == 0 {
        lemma_concat_cons(p, Seq::<Seq<char>>::empty());
        assert(p + Seq::<char>::empty() =~= p);
    }
}

/// Whether every character of every piece of `ps` satisfies `ok`.
pub open spec fn pieces_ok(ps: Seq<Seq<char>>, ok: spec_fn(char) -> bool) -> bool {
    forall|j: int| 0 <= j < ps.len() ==> all_chars(#[trigger] ps[j], ok)
}

proof fn lemma_all_chars_single(c: char, ok: spec_fn(char) -> bool)
    requires
        ok(c),
    ensures
        all_chars(seq![c], ok),
{
    assert(seq![c][0] == c);
}

proof fn lemma_pieces_push(ps: Seq<Seq<char>>, x: Seq<char>, ok: spec_fn(char) -> bool)
    requires
        pieces_ok(ps, ok),
        all_chars(x, ok),
    ensures
        pieces_ok(ps.push(x), ok),
{
    assert forall|j: int| 0 <= j < ps.push(x).len() implies all_chars(#[trigger] ps.push(x)[j], ok) by {
        if j < ps.len() {
            assert(ps.push(x)[j] == ps[j]);
        }
    }
}

proof fn lemma_pieces_update_last(ps: Seq<Seq<char>>, c: char, ok: spec_fn(char) -> bool)
    requires
        ps.len() >= 1,
        pieces_ok(ps, ok),
        ok(c),
    ensures
        pieces_ok(ps.update(ps.len() - 1, ps.last().push(c)), ok),
{
    let l = ps.last().push(c);
    assert(all_chars(ps.last(), ok));
    assert forall|k: int| 0 <= k < l.len() implies ok(#[trigger] l[k]) by {
        if k < ps.last().len() {
            assert(l[k] == ps.last()[k]);
        }
    }
    let u = ps.update(ps.len() - 1, l);
    assert forall|j: int| 0 <= j < u.len() implies all_chars(#[trigger] u[j], ok) by {
        if j < ps.len() - 1 {
            assert(u[j] == ps[j]);
        }
    }
}

proof fn lemma_split_char_content(s: Seq<char>, c: char, ok: spec_fn(char) -> bool)
    requires
        all_chars(s, ok),
    ensures
        pieces_ok(split_char(s, c), ok),
        split_char(s, c).len() >= 1,
    decreases s.len(),
{
    if s.len() > 0 {
        let d = s.drop_last();
        lemma_all_chars_subrange(s, 0, s.len() - 1, ok);
        assert(d =~= s.subrange(0, s.len() - 1));
        lemma_split_char_content(d, c, ok);
        assert(ok(s[s.len() - 1]));
        if s.last() == c {
            lemma_pieces_push(split_char(d, c), Seq::<char>::empty(), ok);
        } else {
            lemma_pieces_update_last(split_char(d, c), s.last(), ok);
        }
    }
}

proof fn lemma_split_ws_content(s: Seq<char>, ok: spec_fn(char) -> bool)
    requires
        all_chars(s, ok),
    ensures
        pieces_ok(split_ws(s), ok),
        split_ws(s).len() >= 1,
    decreases s.len(),
{
    if s.len() > 0 {
        let d = s.drop_last();
        lemma_all_chars_subrange(s, 0, s.len() - 1, ok);
        assert(d =~= s.subrange(0, s.len() - 1));
        lemma_split_ws_content(d, ok);
        assert(ok(s[s.len() - 1]));
        if is_ws(s.last()) {
            lemma_pieces_push(split_ws(d), Seq::<char>::empty(), ok);
        } else {
            lemma_pieces_update_last(split_ws(d), s.last(), ok);
        }
    }
}

proof fn lemma_non_empty_content(ps: Seq<Seq<char>>, ok: spec_fn(char) -> bool)
    requires
        pieces_ok(ps, ok),
    ensures
        pieces_ok(non_empty(ps), ok),
    decreases ps.len(),
{
    if ps.len() > 0 {
        assert forall|j: int| 0 <= j < ps.drop_last().len() implies all_chars(
            #[trigger] ps.drop_last()[j],
            ok,
        ) by {
            assert(ps.drop_last()[j] == ps[j]);
        }
        lemma_non_empty_content(ps.drop_last(), ok);
        if ps.last().len() > 0 {
            assert(all_chars(ps[ps.len() - 1], ok));
            lemma_pieces_push(non_empty(ps.drop_last()), ps.last(), ok);
        }
    }
}

proof fn lemma_flush_content(st: ChunkState, incoming: nat, max: nat, ok: spec_fn(char) -> bool)
    requires
        pieces_ok(st.0, ok),
        all_chars(st.1, ok),
    ensures
        pieces_ok(flush_if_full(st, incoming, max).0, ok),
        all_chars(flush_if_full(st, incoming, max).1, ok),
        flush_if_full(st, incoming, max).0.len() >= st.0.len(),
        forall|j: int|
            0 <= j < st.0.len() ==> #[trigger] flush_if_full(st, incoming, max).0[j] == st.0[j],
{
    if byte_len(st.1) + incoming + 1 > max && st.1.len() > 0 {
        lemma_trim_keeps(st.1, ok);
        lemma_pieces_push(st.0, trim(st.1), ok);
        assert forall|j: int| 0 <= j < st.0.len() implies #[trigger] st.0.push(trim(st.1))[j]
            == st.0[j] by {}
    }
}

proof fn lemma_join_content(a: Seq<char>, sep: Seq<char>, b: Seq<char>, ok: spec_fn(char) -> bool)
    requires
        all_chars(a, ok),
        all_chars(sep, ok),
        all_chars(b, ok),
    ensures
        all_chars(join(a, sep, b), ok),
{
    lemma_all_chars_concat(a, sep, ok);
    lemma_all_chars_concat(a + sep, b, ok);
}

proof fn lemma_fold_words_content(ws: Seq<Seq<char>>, max: nat, ok: spec_fn(char) -> bool)
    requires
        pieces_ok(ws, ok),
        ok(' '),
    ensures
        pieces_ok(fold_words(ws, max).0, ok),
        all_chars(fold_words(ws, max).1, ok),
    decreases ws.len(),
{
    if ws.len() > 0 {
        assert forall|j: int| 0 <= j < ws.drop_last().len() implies all_chars(
            #[trigger] ws.drop_last()[j],
            ok,
        ) by {
            assert(ws.drop_last()[j] == ws[j]);
        }
        lemma_fold_words_content(ws.drop_last(), max, ok);
        let st = fold_words(ws.drop_last(), max);
        let w = ws.last();
        assert(all_chars(ws[ws.len() - 1], ok));
        lemma_flush_content(st, byte_len(w), max, ok);
        lemma_all_chars_single(' ', ok);
        lemma_join_content(flush_if_full(st, byte_len(w), max).1, seq![' '], w, ok);
    }
}

proof fn lemma_word_chunks_content(p: Seq<char>, max: nat, ok: spec_fn(char) -> bool)
    requires
        all_chars(p, ok),
        ok(' '),
    ensures
        pieces_ok(word_chunks(p, max), ok),
{
    lemma_split_ws_content(p, ok);
    lemma_non_empty_content(split_ws(p), ok);
    lemma_fold_words_content(words(p), max, ok);
    let f = fold_words(words(p), max);
    if f.1.len() > 0 {
        lemma_trim_keeps(f.1, ok);
        lemma_pieces_push(f.0, trim(f.1), ok);
    }
}

/// What a step of the chunker leaves of the state `st` it started from: the
/// chunks of `st` come first, unchanged, and every chunk after them, as well
/// as the text left pending, holds only characters that satisfy `ok`.
pub open spec fn extends_with(r: ChunkState, st: ChunkState, ok: spec_fn(char) -> bool) -> bool {
    &&& r.0.len() >= st.0.len()
    &&& forall|j: int| 0 <= j < st.0.len() ==> #[trigger] r.0[j] == st.0[j]
    &&& forall|j: int| st.0.len() <= j < r.0.len() ==> all_chars(#[trigger] r.0[j], ok)
    &&& all_chars(r.1, ok)
}

proof fn lemma_extends_trans(a: ChunkState, b: ChunkState, c: ChunkState, ok: spec_fn(char) -> bool)
    requires
        extends_with(b, a, ok),
        extends_with(c, b, ok),
    ensures
        extends_with(c, a, ok),
{
    assert forall|j: int| a.0.len() <= j < c.0.len() implies all_chars(#[trigger] c.0[j], ok) by {
        if j < b.0.len() {
            assert(c.0[j] == b.0[j]);
        }
    }
    assert forall|j: int| 0 <= j < a.0.len() implies #[trigger] c.0[j] == a.0[j] by {
        assert(c.0[j] == b.0[j]);
    }
}

proof fn lemma_part_step_content(st: ChunkState, raw: Seq<char>, max: nat, ok: spec_fn(char) -> bool)
    requires
        all_chars(raw, ok),
        all_chars(st.1, ok),
        ok(','),
        ok(' '),
    ensures
        extends_with(part_step(st, raw, max), st, ok),
{
    let p = trim(raw);
    lemma_trim_keeps(raw, ok);
    let r = part_step(st, raw, max);
    if p.len() == 0 {
    } else if byte_len(p) > max {
        lemma_word_chunks_content(p, max, ok);
        let w = word_chunks(p, max);
        assert forall|j: int| st.0.len() <= j < r.0.len() implies all_chars(#[trigger] r.0[j], ok) by {
            assert(r.0[j] == w[j - st.0.len()]);
        }
        assert forall|j: int| 0 <= j < st.0.len() implies #[trigger] r.0[j] == st.0[j] by {}
    } else {
        let f = flush_if_full(st, byte_len(p), max);
        if byte_len(st.1) + byte_len(p) + 1 > max && st.1.len() > 0 {
            lemma_trim_keeps(st.1, ok);
            assert(f.0 == st.0.push(trim(st.1)));
            assert forall|j: int| 0 <= j < st.0.len() implies #[trigger] r.0[j] == st.0[j] by {}
        }
        assert(all_chars(seq![',', ' '], ok)) by {
            assert(seq![',', ' '][0] == ',');
            assert(seq![',', ' '][1] == ' ');
        }
        lemma_join_content(f.1, seq![',', ' '], p, ok);
    }
}

proof fn lemma_fold_parts_content(
    ps: Seq<Seq<char>>,
    max: nat,
    init: ChunkState,
    ok: spec_fn(char) -> bool,
)
    requires
        pieces_ok(ps, ok),
        all_chars(init.1, ok),
        ok(','),
        ok(' '),
    ensures
        extends_with(fold_parts(ps, max, init), init, ok),
    decreases ps.len(),
{
    if ps.len() > 0 {
        assert forall|j: int| 0 <= j < ps.drop_last().len() implies all_chars(
            #[trigger] ps.drop_last()[j],
            ok,
        ) by {
            assert(ps.drop_last()[j] == ps[j]);
        }
        lemma_fold_parts_content(ps.drop_last(), max, init, ok);
        let mid = fold_parts(ps.drop_last(), max, init);
        assert(all_chars(ps[ps.len() - 1], ok));
        lemma_part_step_content(mid, ps.last(), max, ok);
        lemma_extends_trans(init, mid, fold_parts(ps, max, init), ok);
    }
}

/// A sentence too long for one chunk starts a new chunk: the chunks made so
/// far stay as they are, the text pending from the earlier sentences is
/// emitted, trimmed, as a chunk of its own, and every chunk after it, as well
/// as the text left pending, holds only characters of that sentence, besides
/// the `,` and ` ` that go between its pieces and its words.
pub proof fn lemma_long_sentence_starts_new_chunk(st: ChunkState, raw: Seq<char>, max: nat)
    requires
        byte_len(trim(raw)) > max,
    ensures
        ({
            let r = sentence_step(st, raw, max);
            let s = trim(raw);
            let k: int = if st.1.len() > 0 {
                st.0.len() + 1int
            } else {
                st.0.len() as int
            };
            &&& r.0.len() >= k
            &&& r.0.take(st.0.len() as int) == st.0
            &&& st.1.len() > 0 ==> r.0[st.0.len() as int] == trim(st.1)
            &&& forall|j: int, i: int|
                k <= j < r.0.len() && 0 <= i < r.0[j].len() ==> s.contains(#[trigger] r.0[j][i])
                    || r.0[j][i] == ',' || r.0[j][i] == ' '
            &&& forall|i: int|
                0 <= i < r.1.len() ==> s.contains(#[trigger] r.1[i]) || r.1[i] == ',' || r.1[i]
                    == ' '
        }),
{
    let s = trim(raw);
    let ok = |c: char| s.contains(c) || c == ',' || c == ' ';
    let r = sentence_step(st, raw, max);
    assert(byte_len(s) > 0);
    assert(s.len() > 0);
    assert(all_chars(s, ok)) by {
        assert forall|i: int| 0 <= i < s.len() implies ok(#[trigger] s[i]) by {
            assert(s.contains(s[i]));
        }
    }
    lemma_split_char_content(s, ',', ok);
    let st1: ChunkState = if st.1.len() > 0 {
        (st.0.push(trim(st.1)), Seq::<char>::empty())
    } else {
        st
    };
    let k = st1.0.len();
    if st.1.len() == 0 {
        assert(all_chars(st.1, ok));
    }
    lemma_fold_parts_content(split_char(s, ','), max, st1, ok);
    assert(r == fold_parts(split_char(s, ','), max, st1));
    assert(r.0.take(st.0.len() as int) =~= st.0) by {
        assert forall|j: int| 0 <= j < st.0.len() implies r.0[j] == st.0[j] by {
            assert(r.0[j] == st1.0[j]);
        }
    }
    if st.1.len() > 0 {
        assert(r.0[st.0.len() as int] == st1.0[st.0.len() as int]);
    }
    assert forall|j: int, i: int|
        k <= j < r.0.len() && 0 <= i < r.0[j].len() implies s.contains(#[trigger] r.0[j][i])
            || r.0[j][i] == ',' || r.0[j][i] == ' ' by {
        assert(all_chars(r.0[j], ok));
        assert(ok(r.0[j][i]));
    }
    assert forall|i: int| 0 <= i < r.1.len() implies s.contains(#[trigger] r.1[i]) || r.1[i] == ','
        || r.1[i] == ' ' by {
        assert(ok(r.1[i]));
    }
}

} // verus!
