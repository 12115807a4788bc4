//! Turning texts into the index rows and padding masks that the text
//! encoder reads.

use vstd::prelude::*;
use crate::chars::str_chars;
use crate::error::TtsError;
use crate::lang::is_available_lang;
use crate::text::{preprocess_text, preprocessed};

verus! {

/// The largest of `s`, or 0 when it is empty.
pub open spec fn seq_max(s: Seq<usize>) -> nat
    decreases s.len(),
{
    if s.len() == 0 {
        0
    } else {
        let m = seq_max(s.drop_last());
        if s.last() > m {
            s.last() as nat
        } else {
            m
        }
    }
}

proof fn lemma_seq_max_bound(s: Seq<usize>, i: int)
    requires
        0 <= i < s.len(),
    ensures
        s[i] <= seq_max(s),
    decreases s.len(),
{
    if i < s.len() - 1 {
        lemma_seq_max_bound(s.drop_last(), i);
    }
}

/// The largest of `s` is one of its elements, when it has any.
proof fn lemma_seq_max_attained(s: Seq<usize>)
    ensures
        s.len() == 0 ==> seq_max(s) == 0,
        s.len() > 0 ==> exists|i: int| 0 <= i < s.len() && #[trigger] s[i] == seq_max(s),
    decreases s.len(),
{
    if s.len() > 0 {
        lemma_seq_max_attained(s.drop_last());
        if !(s.last() > seq_max(s.drop_last())) && s.len() > 1 {
            let i = choose|i: int|
                0 <= i < s.drop_last().len() && #[trigger] s.drop_last()[i] == seq_max(s.drop_last());
            assert(s[i] == s.drop_last()[i]);
        } else {
            assert(s[s.len() - 1] == seq_max(s));
        }
    }
}

/// The largest of `s`, or 0 when it is empty.
pub fn max_of(s: &[usize]) -> (m: usize)
    ensures
        m == seq_max(s@),
{
    let mut m: usize = 0;
    let mut i: usize = 0;
    while i < s.len()
        invariant
            i <= s@.len(),
            m == seq_max(s@.take(i as int)),
        decreases s.len() - i,
    {
        assert(s@.take(i + 1).drop_last() =~= s@.take(i as int));
        if s[i] > m {
            m = s[i];
        }
        i = i + 1;
    }
    assert(s@.take(i as int) =~= s@);
    m
}

/// `m` is the padding mask for rows of the given lengths, `width` wide: one
/// row per length, each of shape `1 x width`, holding 1 before the length
/// and 0 from it on.
pub open spec fn is_mask(m: Seq<Vec<Vec<u8>>>, lengths: Seq<usize>, width: nat) -> bool {
    &&& m.len() == lengths.len()
    &&& forall|i: int|
        0 <= i < m.len() ==> {
            &&& (#[trigger] m[i])@.len() == 1
            &&& m[i]@[0]@.len() == width
            &&& forall|j: int| 0 <= j < width ==> m[i]@[0]@[j] == (if j < lengths[i] {
                1u8
            } else {
                0u8
            })
        }
}

fn mask_row(len: usize, width: usize) -> (r: Vec<u8>)
    ensures
        r@.len() == width,
        forall|j: int| 0 <= j < width ==> r@[j] == (if j < len {
            1u8
        } else {
            0u8
        }),
{
    let mut r: Vec<u8> = Vec::new();
    let mut j: usize = 0;
    while j < width
        invariant
            j <= width,
            r@.len() == j,
            forall|k: int| 0 <= k < j ==> r@[k] == (if k < len {
                1u8
            } else {
                0u8
            }),
        decreases width - j,
    {
        if j < len {
            r.push(1u8);
        } else {
            r.push(0u8);
        }
        j = j + 1;
    }
    r
}

/// Padding mask for rows of the given lengths, as wide as `max_len` or, when
/// it is absent, as the longest row; 1 marks a position inside the row.
pub fn length_to_mask(lengths: &[usize], max_len: Option<usize>) -> (m: Vec<Vec<Vec<u8>>>)
    ensures
        is_mask(
            m@,
            lengths@,
            match max_len {
                Some(w) => w as nat,
                None => seq_max(lengths@),
            },
        ),
{
    let width = match max_len {
        Some(w) => w,
        None => max_of(lengths),
    };
    let mut m: Vec<Vec<Vec<u8>>> = Vec::new();
    let mut i: usize = 0;
    while i < lengths.len()
        invariant
            i <= lengths@.len(),
            width == (match max_len {
                Some(w) => w as nat,
                None => seq_max(lengths@),
            }),
            is_mask(m@, lengths@.take(i as int), width as nat),
        decreases lengths.len() - i,
    {
        let row = mask_row(lengths[i], width);
        let mut plane: Vec<Vec<u8>> = Vec::new();
        plane.push(row);
        m.push(plane);
        i = i + 1;
        assert forall|k: int| 0 <= k < m@.len() implies {
            &&& (#[trigger] m@[k])@.len() == 1
            &&& m@[k]@[0]@.len() == width
            &&& forall|j: int| 0 <= j < width ==> m@[k]@[0]@[j] == (if j < lengths@.take(
                i as int,
            )[k] {
                1u8
            } else {
                0u8
            })
        } by {
            if k < i - 1 {
                assert(lengths@.take(i as int)[k] == lengths@.take(i - 1)[k]);
            }
        }
    }
    assert(lengths@.take(i as int) =~= lengths@);
    m
}

/// Padding mask for texts of the given lengths, as wide as the longest.
pub fn get_text_mask(text_ids_lengths: &[usize]) -> (m: Vec<Vec<Vec<u8>>>)
    ensures
        is_mask(m@, text_ids_lengths@, seq_max(text_ids_lengths@)),
{
    let max_len = max_of(text_ids_lengths);
    length_to_mask(text_ids_lengths, Some(max_len))
}


/// Declares `serde_json::Error` so that it can stand in signatures.
#[verifier::external_type_specification]
#[verifier::external_body]
pub struct ExJsonError(serde_json::Error);

/// Name for what `serde_json` makes of `bytes` read as a JSON array of
/// integers: the integers, or nothing when the bytes are not such an array.
pub uninterp spec fn json_i64_array(bytes: Seq<u8>) -> Option<Seq<i64>>;

/// Trusted: `serde_json::from_slice::<Vec<i64>>`. The contract names its
/// result: `Ok` exactly when `json_i64_array` of the bytes is a value, and
/// then that value.
#[verifier::external_body]
fn parse_i64_array(bytes: &[u8]) -> (r: Result<Vec<i64>, serde_json::Error>)
    ensures
        match r {
            Ok(v) => json_i64_array(bytes@) == Some(v@),
            Err(_) => json_i64_array(bytes@) is None,
        },
{
    serde_json::from_slice(bytes)
}

/// Trusted: `Display` of `serde_json::Error`, the parser's message. Nothing
/// is stated of the text.
#[verifier::external_body]
fn json_error_message(e: &serde_json::Error) -> String {
    e.to_string()
}

/// Maps characters to the model's token indices through a table indexed by
/// code point.
pub struct UnicodeProcessor {
    indexer: Vec<i64>,
}

impl View for UnicodeProcessor {
    type V = Seq<i64>;

    /// The index table.
    closed spec fn view(&self) -> Seq<i64> {
        self.indexer@
    }
}

/// Token index of `c`: the table entry at its code point, or -1 past the table.
pub open spec fn token_of(indexer: Seq<i64>, c: char) -> i64 {
    let v = c as u32 as int;
    if v < indexer.len() {
        indexer[v]
    } else {
        -1i64
    }
}

/// The first position below `n` whose language is not known, if any.
pub open spec fn first_bad_lang(langs: Seq<String>, n: int) -> Option<int>
    decreases n,
{
    if n <= 0 {
        None
    } else {
        match first_bad_lang(langs, n - 1) {
            Some(k) => Some(k),
            None => if !is_available_lang(langs[n - 1]@) {
                Some(n - 1)
            } else {
                None
            },
        }
    }
}

proof fn lemma_first_bad_lang(langs: Seq<String>, n: int)
    requires
        0 <= n,
    ensures
        first_bad_lang(langs, n) is None <==> forall|k: int|
            0 <= k < n ==> is_available_lang(#[trigger] langs[k]@),
        first_bad_lang(langs, n) matches Some(k) ==> 0 <= k < n && !is_available_lang(langs[k]@),
    decreases n,
{
    if n > 0 {
        lemma_first_bad_lang(langs, n - 1);
    }
}

/// The pairs that `call` reads: texts and languages up to the shorter list.
pub open spec fn batch_len(texts: Seq<String>, langs: Seq<String>) -> int {
    if texts.len() < langs.len() {
        texts.len() as int
    } else {
        langs.len() as int
    }
}

/// Length in characters of each preprocessed text of the batch.
pub open spec fn batch_lengths(texts: Seq<String>, langs: Seq<String>) -> Seq<usize> {
    Seq::new(
        batch_len(texts, langs) as nat,
        |i: int| preprocessed(texts[i]@, langs[i]@).len() as usize,
    )
}

impl UnicodeProcessor {
    /// A processor whose table is the JSON array of integers in `indexer_json`.
    pub fn new(indexer_json: &[u8]) -> (r: Result<UnicodeProcessor, TtsError>)
        ensures
            r is Ok <==> json_i64_array(indexer_json@) is Some,
            r matches Ok(p) ==> json_i64_array(indexer_json@) == Some(p@),
            r matches Err(e) ==> e is IndexerJson,
    {
        match parse_i64_array(indexer_json) {
            Ok(indexer) => Ok(UnicodeProcessor { indexer }),
            Err(e) => Err(TtsError::IndexerJson(json_error_message(&e))),
        }
    }

    /// Token rows and their padding mask for the pairs of `text_list` and
    /// `lang_list` (up to the shorter list). Each text is preprocessed; row
    /// `i` holds the token of each character of the preprocessed text, padded
    /// with 0 to the longest; the mask marks the characters. Fails with the
    /// first unknown language.
    pub fn call(&self, text_list: &[String], lang_list: &[String]) -> (r: Result<
        (Vec<Vec<i64>>, Vec<Vec<Vec<u8>>>),
        TtsError,
    >)
        ensures
            r is Ok <==> first_bad_lang(lang_list@, batch_len(text_list@, lang_list@)) is None,
            r matches Err(e) ==> ({
                let k = first_bad_lang(lang_list@, batch_len(text_list@, lang_list@))->0;
                e matches TtsError::InvalidLanguage(l) && l@ == lang_list@[k]@
            }),
            r matches Ok((ids, mask)) ==> ({
                let lengths = batch_lengths(text_list@, lang_list@);
                let width = seq_max(lengths);
                &&& ids@.len() == lengths.len()
                &&& forall|i: int|
                    0 <= i < ids@.len() ==> {
                        let t = preprocessed(text_list@[i]@, lang_list@[i]@);
                        &&& (#[trigger] ids@[i])@.len() == width
                        &&& forall|j: int|
                            0 <= j < width ==> ids@[i]@[j] == (if j < t.len() {
                                token_of(self@, t[j])
                            } else {
                                0i64
                            })
                    }
                &&& is_mask(mask@, lengths, width)
            }),
            r matches Ok((ids, mask)) ==> ({
                let n = batch_len(text_list@, lang_list@);
                let width = mask@[0]@[0]@.len();
                &&& mask@.len() == n
                &&& ids@.len() == n
                &&& forall|i: int|
                    0 <= i < n ==> {
                        let t = preprocessed(text_list@[i]@, lang_list@[i]@);
                        &&& (#[trigger] mask@[i])@.len() == 1
                        &&& mask@[i]@[0]@.len() == width
                        &&& ids@[i]@.len() == width
                        &&& t.len() <= width
                        &&& forall|j: int|
                            0 <= j < width ==> (mask@[i]@[0]@[j] == 1u8 <==> j < t.len())
                    }
                &&& n > 0 ==> exists|i: int|
                    0 <= i < n && (#[trigger] preprocessed(text_list@[i]@, lang_list@[i]@)).len()
                        == width
            }),
    {
        let n = if text_list.len() < lang_list.len() {
            text_list.len()
        } else {
            lang_list.len()
        };
        let mut processed: Vec<Vec<char>> = Vec::new();
        let mut lengths: Vec<usize> = Vec::new();
        let mut i: usize = 0;
        while i < n
            invariant
                i <= n,
                n == batch_len(text_list@, lang_list@),
                first_bad_lang(lang_list@, i as int) is None,
                processed@.len() == i,
                lengths@.len() == i,
                forall|k: int|
                    0 <= k < i ==> (#[trigger] processed@[k])@ == preprocessed(
                        text_list@[k]@,
                        lang_list@[k]@,
                    ),
                forall|k: int| 0 <= k < i ==> #[trigger] lengths@[k] == processed@[k]@.len(),
            decreases n - i,
        {
            match preprocess_text(text_list[i].as_str(), lang_list[i].as_str()) {
                Ok(t) => {
                    let c = str_chars(t.as_str());
                    lengths.push(c.len());
                    processed.push(c);
                },
                Err(e) => {
                    proof {
                        assert(first_bad_lang(lang_list@, i + 1) == Some(i as int));
                        lemma_first_bad_lang(lang_list@, n as int);
                        assert(first_bad_lang(lang_list@, n as int) == Some(i as int)) by {
                            lemma_first_bad_lang_stable(lang_list@, i + 1, n as int);
                        }
                    }
                    return Err(e);
                },
            }
            i = i + 1;
        }
        let width = max_of(lengths.as_slice());
        assert(lengths@ =~= batch_lengths(text_list@, lang_list@));
        let mut ids: Vec<Vec<i64>> = Vec::new();
        let mut k: usize = 0;
        while k < n
            invariant
                k <= n,
                n == processed@.len(),
                n == batch_len(text_list@, lang_list@),
                lengths@ == batch_lengths(text_list@, lang_list@),
                forall|q: int| 0 <= q < n ==> #[trigger] lengths@[q] == processed@[q]@.len(),
                width == seq_max(lengths@),
                forall|q: int|
                    0 <= q < n ==> (#[trigger] processed@[q])@ == preprocessed(
                        text_list@[q]@,
                        lang_list@[q]@,
                    ),
                ids@.len() == k,
                forall|q: int|
                    0 <= q < k ==> {
                        let t = preprocessed(text_list@[q]@, lang_list@[q]@);
                        &&& (#[trigger] ids@[q])@.len() == width
                        &&& forall|j: int|
                            0 <= j < width ==> ids@[q]@[j] == (if j < t.len() {
                                token_of(self@, t[j])
                            } else {
                                0i64
                            })
                    },
            decreases n - k,
        {
            proof {
                lemma_seq_max_bound(lengths@, k as int);
            }
            let row = self.row_of(&processed[k], width);
            ids.push(row);
            k = k + 1;
        }
        let mask = get_text_mask(lengths.as_slice());
        proof {
            lemma_first_bad_lang(lang_list@, n as int);
            lemma_seq_max_attained(lengths@);
            assert forall|i: int| 0 <= i < n implies (#[trigger] preprocessed(
                text_list@[i]@,
                lang_list@[i]@,
            )).len() == lengths@[i] by {
                assert(processed@[i]@ == preprocessed(text_list@[i]@, lang_list@[i]@));
            }
            assert forall|i: int| 0 <= i < n implies lengths@[i] <= width by {
                lemma_seq_max_bound(lengths@, i);
            }
        }
        Ok((ids, mask))
    }

    fn row_of(&self, t: &Vec<char>, width: usize) -> (row: Vec<i64>)
        requires
            t@.len() <= width,
        ensures
            row@.len() == width,
            forall|j: int|
                0 <= j < width ==> row@[j] == (if j < t@.len() {
                    token_of(self@, t@[j])
                } else {
                    0i64
                }),
    {
        let mut row: Vec<i64> = Vec::new();
        let mut j: usize = 0;
        while j < width
            invariant
                j <= width,
                t@.len() <= width,
                row@.len() == j,
                forall|q: int|
                    0 <= q < j ==> row@[q] == (if q < t@.len() {
                        token_of(self@, t@[q])
                    } else {
                        0i64
                    }),
            decreases width - j,
        {
            if j < t.len() {
                let v = t[j] as u32 as usize;
                if v < self.indexer.len() {
                    row.push(self.indexer[v]);
                } else {
                    row.push(-1);
                }
            } else {
                row.push(0);
            }
            j = j + 1;
        }
        row
    }
}

proof fn lemma_first_bad_lang_stable(langs: Seq<String>, m: int, n: int)
    requires
        0 <= m <= n,
        first_bad_lang(langs, m) is Some,
    ensures
        first_bad_lang(langs, n) == first_bad_lang(langs, m),
    decreases n - m,
{
    if n > m {
        lemma_first_bad_lang_stable(langs, m, n - 1);
    }
}

} // verus!
