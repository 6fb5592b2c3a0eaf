//! The integer half of inference: which input-matrix rows a document adds
//! up, in the order fastText adds them.
use vstd::prelude::*;
use vstd::string::*;
use vstd::utf8::*;

use crate::dict::{last_index_of, lemma_last_index_of_sound};
use crate::model::Model;
use crate::tokenize::{
    eos, fasttext_hash, get_subword_hashes, is_eos_bytes, is_separator, lemma_newlines_as_spaces,
    lemma_tokens_bounded, lemma_tokens_concat, lemma_tokens_ignore_separator_kind,
    lemma_tokens_of_word, same_but_separators, spec_hash, spec_subword_ids, spec_tokens,
    str_bytes, tokens,
};

verus! {

/// The prefix `__label__` that marks a label.
pub open spec fn label_prefix() -> Seq<u8> {
    seq![95u8, 95u8, 108u8, 97u8, 98u8, 101u8, 108u8, 95u8, 95u8]
}

/// Whether `t` begins with `__label__`.
pub open spec fn has_label_prefix(t: Seq<u8>) -> bool {
    t.len() >= 9 && t.subrange(0, 9) == label_prefix()
}

/// A token that counts as a label: a label of the model, or a token that is
/// not a word of the model and begins with `__label__`.
pub open spec fn is_label_token(m: Model, t: Seq<u8>) -> bool {
    last_index_of(m.label_bytes(), t) is Some || (last_index_of(m.word_bytes(), t) is None
        && has_label_prefix(t))
}

/// The index of the first `</s>` at or after `i` (the length if none).
pub open spec fn eos_index_from(ts: Seq<Seq<u8>>, i: int) -> int
    decreases ts.len() - i,
{
    if i >= ts.len() {
        ts.len() as int
    } else if ts[i] == eos() {
        i
    } else {
        eos_index_from(ts, i + 1)
    }
}

/// The tokens of a document: its tokens followed by `</s>`, cut after the
/// first `</s>` (so a `</s>` in the text ends the document there).
pub open spec fn doc_tokens(text: Seq<u8>) -> Seq<Seq<u8>> {
    let ts = spec_tokens(text).push(eos());
    ts.take(eos_index_from(ts, 0) + 1)
}

/// The rows of the buckets that have a row in the input matrix, in order.
pub open spec fn bucket_rows(m: Model, bs: Seq<usize>) -> Seq<usize>
    decreases bs.len(),
{
    if bs.len() == 0 {
        Seq::empty()
    } else {
        bucket_rows(m, bs.drop_last()) + match m.spec_bucket_id(bs.last() as int) {
            Some(id) => seq![id],
            None => Seq::empty(),
        }
    }
}

/// The rows one token adds: none for a label; otherwise its word row (if it
/// is a word of the model) followed by the rows of its subwords.
pub open spec fn token_rows(m: Model, t: Seq<u8>) -> Seq<usize> {
    if is_label_token(m, t) {
        Seq::empty()
    } else {
        (match last_index_of(m.word_bytes(), t) {
            Some(i) => seq![i as usize],
            None => Seq::empty(),
        }) + bucket_rows(
            m,
            spec_subword_ids(t, m.args.minn as nat, m.args.maxn as nat, m.args.bucket as nat),
        )
    }
}

/// The rows of a token sequence, token by token.
pub open spec fn tokens_rows(m: Model, ts: Seq<Seq<u8>>) -> Seq<usize>
    decreases ts.len(),
{
    if ts.len() == 0 {
        Seq::empty()
    } else {
        tokens_rows(m, ts.drop_last()) + token_rows(m, ts.last())
    }
}

/// The hashes of the tokens that are not labels, as `i32`, in order.
pub open spec fn word_hashes(m: Model, ts: Seq<Seq<u8>>) -> Seq<i32>
    decreases ts.len(),
{
    if ts.len() == 0 {
        Seq::empty()
    } else if is_label_token(m, ts.last()) {
        word_hashes(m, ts.drop_last())
    } else {
        word_hashes(m, ts.drop_last()).push(spec_hash(ts.last()) as i32)
    }
}

/// `h * 116049371 + x` modulo 2^64.
pub open spec fn ngram_step(h: u64, x: u64) -> u64 {
    ((h as nat * 116049371 + x as nat) % 0x1_0000_0000_0000_0000) as u64
}

/// The hash of the word n-gram `wh[i..=j]`: the sign-extended hashes folded
/// with `ngram_step`.
pub open spec fn ngram_hash(wh: Seq<i32>, i: int, j: int) -> u64
    decreases j - i,
{
    if j <= i {
        wh[i] as u64
    } else {
        ngram_step(ngram_hash(wh, i, j - 1), wh[j] as u64)
    }
}

/// One bucket's row, if it has one.
pub open spec fn bucket_row(m: Model, b: int) -> Seq<usize> {
    match m.spec_bucket_id(b) {
        Some(id) => seq![id],
        None => Seq::empty(),
    }
}

/// The rows of the n-grams `wh[i..=j]` for `i < j < e`.
pub open spec fn ngram_rows(m: Model, wh: Seq<i32>, i: int, e: int) -> Seq<usize>
    decreases e - i,
{
    if e <= i + 1 {
        Seq::empty()
    } else {
        ngram_rows(m, wh, i, e - 1) + bucket_row(
            m,
            (ngram_hash(wh, i, e - 1) as nat % m.args.bucket as nat) as int,
        )
    }
}

/// The end of the n-grams that start at `i`: `wordNgrams` words at most.
pub open spec fn ngram_end(m: Model, wh: Seq<i32>, i: int) -> int {
    if wh.len() < i + m.args.word_ngrams {
        wh.len() as int
    } else {
        i + m.args.word_ngrams
    }
}

/// The rows of all word n-grams that start before `u`.
pub open spec fn all_ngram_rows(m: Model, wh: Seq<i32>, u: nat) -> Seq<usize>
    decreases u,
{
    if u == 0 {
        Seq::empty()
    } else {
        let i = (u - 1) as int;
        all_ngram_rows(m, wh, (u - 1) as nat) + ngram_rows(m, wh, i, ngram_end(m, wh, i))
    }
}

/// The input-matrix rows a document adds up, in order: each token's word and
/// subword rows in token order, then (for `wordNgrams > 1` and a non-zero
/// bucket count) the rows of its word n-grams.
pub open spec fn spec_features(m: Model, text: Seq<u8>) -> Seq<usize> {
    let ts = doc_tokens(text);
    let wh = word_hashes(m, ts);
    tokens_rows(m, ts) + if m.args.word_ngrams > 1 && m.args.bucket > 0 {
        all_ngram_rows(m, wh, wh.len())
    } else {
        Seq::empty()
    }
}

fn is_label_prefixed(t: &[u8]) -> (r: bool)
    ensures
        r == has_label_prefix(t@),
{
    if t.len() < 9 {
        return false;
    }
    let r = t[0] == 95 && t[1] == 95 && t[2] == 108 && t[3] == 97 && t[4] == 98 && t[5] == 101
        && t[6] == 108 && t[7] == 95 && t[8] == 95;
    proof {
        if r {
            assert(t@.subrange(0, 9) =~= label_prefix());
        } else {
            let p = t@.subrange(0, 9);
            assert(p != label_prefix()) by {
                assert(!(p[0] == 95 && p[1] == 95 && p[2] == 108 && p[3] == 97 && p[4] == 98 && p[5]
                    == 101 && p[6] == 108 && p[7] == 95 && p[8] == 95));
            }
        }
    }
    r
}

/// The token `</s>`.
fn eos_token() -> (s: &'static str)
    ensures
        s.spec_bytes() == eos(),
{
    let s = "</s>";
    proof {
        reveal_strlit("</s>");
        assert(is_ascii_chars(s@));
        is_ascii_chars_encode_utf8(s@);
        assert(s.spec_bytes() =~= eos());
    }
    s
}

fn add_token_rows(model: &Model, tok: &str, rows: &mut Vec<usize>, wh: &mut Vec<i32>)
    requires
        model.wf(),
        tok.spec_bytes().len() + 3 <= usize::MAX,
    ensures
        final(rows)@ == old(rows)@ + token_rows(*model, tok.spec_bytes()),
        final(wh)@ == if is_label_token(*model, tok.spec_bytes()) {
            old(wh)@
        } else {
            old(wh)@.push(spec_hash(tok.spec_bytes()) as i32)
        },
{
    let tb = tok.as_bytes();
    let wid = model.word_id(tb);
    let is_label = model.label_id(tb).is_some() || (wid.is_none() && is_label_prefixed(tb));
    if is_label {
        proof {
            assert(rows@ =~= old(rows)@ + token_rows(*model, tok.spec_bytes()));
        }
        return;
    }
    wh.push(fasttext_hash(tb) as i32);
    let ghost base = rows@;
    match wid {
        Some(id) => rows.push(id),
        None => {},
    }
    let ghost mid = rows@;
    let subs = get_subword_hashes(tok, model.args.minn, model.args.maxn, model.args.bucket);
    let mut k: usize = 0;
    proof {
        assert(subs@.take(0) =~= Seq::<usize>::empty());
        assert(rows@ =~= mid + bucket_rows(*model, subs@.take(0)));
    }
    while k < subs.len()
        invariant
            k <= subs@.len(),
            rows@ == mid + bucket_rows(*model, subs@.take(k as int)),
        decreases subs.len() - k,
    {
        proof {
            assert(subs@.take(k + 1).drop_last() =~= subs@.take(k as int));
        }
        match model.bucket_id(subs[k]) {
            Some(id) => rows.push(id),
            None => {},
        }
        proof {
            assert(rows@ =~= mid + bucket_rows(*model, subs@.take(k + 1)));
        }
        k = k + 1;
    }
    proof {
        assert(subs@.take(subs@.len() as int) =~= subs@);
        assert(rows@ =~= base + token_rows(*model, tok.spec_bytes()));
    }
}

proof fn lemma_ngram_step(h: u64, x: u64)
    ensures
        vstd::wrapping::u64_specs::wrapping_add(
            vstd::wrapping::u64_specs::wrapping_mul(h, 116049371),
            x,
        ) == ngram_step(h, x),
{
    let m: int = 0x1_0000_0000_0000_0000;
    let a = (h as nat * 116049371nat) % (m as nat);
    vstd::arithmetic::div_mod::lemma_add_mod_noop(h as int * 116049371, x as int, m);
    vstd::arithmetic::div_mod::lemma_small_mod(x as nat, m as nat);
    if a + x >= m {
        vstd::arithmetic::div_mod::lemma_mod_sub_multiples_vanish((a + x) as int, m);
        vstd::arithmetic::div_mod::lemma_small_mod((a + x - m) as nat, m as nat);
    } else {
        vstd::arithmetic::div_mod::lemma_small_mod((a + x) as nat, m as nat);
    }
}

fn add_ngram_rows(model: &Model, wh: &Vec<i32>, rows: &mut Vec<usize>)
    requires
        model.args.word_ngrams > 1,
        model.args.bucket > 0,
    ensures
        final(rows)@ == old(rows)@ + all_ngram_rows(*model, wh@, wh@.len()),
{
    let n = wh.len();
    let wn = model.args.word_ngrams as usize;
    let bucket = model.args.bucket as u64;
    let mut i: usize = 0;
    proof {
        assert(rows@ =~= old(rows)@ + all_ngram_rows(*model, wh@, 0));
    }
    while i < n
        invariant
            n == wh@.len(),
            wn == model.args.word_ngrams,
            wn > 1,
            bucket == model.args.bucket,
            bucket > 0,
            i <= n,
            rows@ == old(rows)@ + all_ngram_rows(*model, wh@, i as nat),
        decreases n - i,
    {
        let ghost base = rows@;
        let end = if n - i < wn {
            n
        } else {
            i + wn
        };
        proof {
            assert(end == ngram_end(*model, wh@, i as int));
        }
        let mut h: u64 = wh[i] as u64;
        let mut j: usize = i + 1;
        proof {
            assert(rows@ =~= base + ngram_rows(*model, wh@, i as int, j as int));
        }
        while j < end
            invariant
                n == wh@.len(),
                bucket == model.args.bucket,
                bucket > 0,
                i < n,
                i + 1 <= j <= end || (j == i + 1 && end <= j),
                end <= n,
                h == ngram_hash(wh@, i as int, j - 1),
                rows@ == base + ngram_rows(*model, wh@, i as int, j as int),
            decreases end - j,
        {
            let x = wh[j] as u64;
            proof {
                lemma_ngram_step(h, x);
            }
            h = h.wrapping_mul(116049371).wrapping_add(x);
            proof {
                assert(h == ngram_hash(wh@, i as int, j as int));
            }
            match model.bucket_id((h % bucket) as usize) {
                Some(id) => rows.push(id),
                None => {},
            }
            proof {
                assert(rows@ =~= base + ngram_rows(*model, wh@, i as int, j + 1));
            }
            j = j + 1;
        }
        proof {
            if end > i + 1 {
                assert(j == end);
            } else {
                assert(ngram_rows(*model, wh@, i as int, end as int) =~= Seq::<usize>::empty());
                assert(ngram_rows(*model, wh@, i as int, j as int) =~= Seq::<usize>::empty());
            }
            assert(rows@ =~= old(rows)@ + all_ngram_rows(*model, wh@, (i + 1) as nat));
        }
        i = i + 1;
    }
}

proof fn lemma_eos_index_bounded(ts: Seq<Seq<u8>>, i: int)
    requires
        ts.len() > 0,
        ts.last() == eos(),
        0 <= i < ts.len(),
    ensures
        i <= eos_index_from(ts, i) < ts.len(),
        ts[eos_index_from(ts, i)] == eos(),
    decreases ts.len() - i,
{
    if ts[i] != eos() {
        lemma_eos_index_bounded(ts, i + 1);
    }
}

/// The input-matrix rows that a document adds up (see `spec_features`).
pub fn document_features(text: &str, model: &Model) -> (rows: Vec<usize>)
    requires
        model.wf(),
        text.spec_bytes().len() + 3 <= usize::MAX,
    ensures
        rows@ == spec_features(*model, text.spec_bytes()),
{
    let toks = tokens(text);
    let ghost ts = spec_tokens(text.spec_bytes()).push(eos());
    proof {
        lemma_tokens_bounded(text.spec_bytes());
        lemma_eos_index_bounded(ts, 0);
    }
    let mut rows: Vec<usize> = Vec::new();
    let mut wh: Vec<i32> = Vec::new();
    let mut i: usize = 0;
    let mut done = false;
    proof {
        assert(ts.take(0) =~= Seq::<Seq<u8>>::empty());
    }
    while i < toks.len() && !done
        invariant
            model.wf(),
            ts == str_bytes(toks@).push(eos()),
            ts.len() == toks@.len() + 1,
            forall|j: int|
                0 <= j < str_bytes(toks@).len() ==> (#[trigger] str_bytes(toks@)[j]).len()
                    <= text.spec_bytes().len(),
            text.spec_bytes().len() + 3 <= usize::MAX,
            i <= toks@.len(),
            0 <= eos_index_from(ts, 0) < ts.len(),
            done ==> i >= 1 && eos_index_from(ts, 0) == i - 1,
            !done ==> i <= eos_index_from(ts, 0),
            rows@ == tokens_rows(*model, ts.take(i as int)),
            wh@ == word_hashes(*model, ts.take(i as int)),
        decreases toks@.len() - i,
    {
        let tok: &str = toks[i];
        proof {
            assert(str_bytes(toks@)[i as int] == toks@[i as int].spec_bytes());
            assert(tok.spec_bytes() == ts[i as int]);
            assert(ts.take(i + 1).drop_last() =~= ts.take(i as int));
            assert(ts.take(i + 1).last() == ts[i as int]);
        }
        add_token_rows(model, tok, &mut rows, &mut wh);
        if is_eos_bytes(tok.as_bytes()) {
            done = true;
            proof {
                lemma_eos_first(ts, i as int);
            }
        } else {
            proof {
                lemma_eos_skip(ts, i as int);
            }
        }
        i = i + 1;
    }
    let ghost mut cut = i as int;
    if !done {
        let tok = eos_token();
        proof {
            assert(i == toks@.len());
            assert(tok.spec_bytes() == ts[i as int]);
            assert(ts.take(i + 1).drop_last() =~= ts.take(i as int));
            assert(ts.take(i + 1).last() == ts[i as int]);
            lemma_eos_first(ts, i as int);
        }
        add_token_rows(model, tok, &mut rows, &mut wh);
        proof {
            cut = i + 1;
        }
    }
    proof {
        assert(ts.take(cut) == doc_tokens(text.spec_bytes()));
    }
    if model.args.word_ngrams > 1 && model.args.bucket > 0 {
        add_ngram_rows(model, &wh, &mut rows);
    }
    rows
}

proof fn lemma_eos_first(ts: Seq<Seq<u8>>, i: int)
    requires
        0 <= i < ts.len(),
        ts[i] == eos(),
        i <= eos_index_from(ts, 0),
    ensures
        eos_index_from(ts, 0) == i,
{
    lemma_eos_from_monotone(ts, 0, i);
}

proof fn lemma_eos_from_monotone(ts: Seq<Seq<u8>>, j: int, i: int)
    requires
        0 <= j <= i < ts.len(),
        ts[i] == eos(),
    ensures
        eos_index_from(ts, j) <= i,
    decreases i - j,
{
    if j < i && ts[j] != eos() {
        lemma_eos_from_monotone(ts, j + 1, i);
    }
}

proof fn lemma_eos_skip(ts: Seq<Seq<u8>>, i: int)
    requires
        0 <= i < ts.len(),
        ts[i] != eos(),
        i <= eos_index_from(ts, 0),
    ensures
        i + 1 <= eos_index_from(ts, 0),
{
    if eos_index_from(ts, 0) == i {
        lemma_eos_hit(ts, 0, i);
    }
}

proof fn lemma_eos_from_ge(ts: Seq<Seq<u8>>, k: int)
    requires
        0 <= k <= ts.len(),
    ensures
        eos_index_from(ts, k) >= k,
    decreases ts.len() - k,
{
    if k < ts.len() && ts[k] != eos() {
        lemma_eos_from_ge(ts, k + 1);
    }
}

proof fn lemma_eos_hit(ts: Seq<Seq<u8>>, j: int, i: int)
    requires
        0 <= j <= i < ts.len(),
        eos_index_from(ts, j) == i,
    ensures
        ts[i] == eos(),
    decreases i - j,
{
    if ts[j] != eos() {
        lemma_eos_from_ge(ts, j + 1);
        assert(j + 1 <= i);
        lemma_eos_hit(ts, j + 1, i);
    }
}

/// A row the accumulator can read: a word row, or a row that lies wholly in
/// the input matrix.
pub open spec fn row_in_model(m: Model, r: usize) -> bool {
    r < m.num_words || (r + 1) * m.args.dim <= m.win@.len()
}

pub open spec fn rows_in_model(m: Model, rs: Seq<usize>) -> bool {
    forall|k: int| 0 <= k < rs.len() ==> row_in_model(m, #[trigger] rs[k])
}

proof fn lemma_rows_concat(m: Model, a: Seq<usize>, b: Seq<usize>)
    requires
        rows_in_model(m, a),
        rows_in_model(m, b),
    ensures
        rows_in_model(m, a + b),
{
    assert forall|k: int| 0 <= k < (a + b).len() implies row_in_model(m, #[trigger] (a + b)[k]) by {
        if k < a.len() {
            assert((a + b)[k] == a[k]);
        } else {
            assert((a + b)[k] == b[k - a.len()]);
        }
    }
}

proof fn lemma_bucket_row_in_model(m: Model, b: int)
    ensures
        rows_in_model(m, bucket_row(m, b)),
{
    match m.spec_bucket_id(b) {
        Some(id) => {
            assert(bucket_row(m, b)[0] == id);
        },
        None => {},
    }
}

proof fn lemma_bucket_rows_in_model(m: Model, bs: Seq<usize>)
    ensures
        rows_in_model(m, bucket_rows(m, bs)),
    decreases bs.len(),
{
    if bs.len() > 0 {
        lemma_bucket_rows_in_model(m, bs.drop_last());
        lemma_rows_concat(m, bucket_rows(m, bs.drop_last()), bucket_row(m, bs.last() as int));
    }
}

proof fn lemma_tokens_rows_in_model(m: Model, ts: Seq<Seq<u8>>)
    requires
        m.wf(),
    ensures
        rows_in_model(m, tokens_rows(m, ts)),
    decreases ts.len(),
{
    if ts.len() > 0 {
        lemma_tokens_rows_in_model(m, ts.drop_last());
        let t = ts.last();
        lemma_last_index_of_sound(m.word_bytes(), t);
        lemma_bucket_rows_in_model(
            m,
            spec_subword_ids(t, m.args.minn as nat, m.args.maxn as nat, m.args.bucket as nat),
        );
        let w = match last_index_of(m.word_bytes(), t) {
            Some(i) => seq![i as usize],
            None => Seq::<usize>::empty(),
        };
        assert(rows_in_model(m, w));
        lemma_rows_concat(
            m,
            w,
            bucket_rows(
                m,
                spec_subword_ids(t, m.args.minn as nat, m.args.maxn as nat, m.args.bucket as nat),
            ),
        );
        lemma_rows_concat(m, tokens_rows(m, ts.drop_last()), token_rows(m, t));
    }
}

proof fn lemma_ngram_rows_in_model(m: Model, wh: Seq<i32>, i: int, e: int)
    ensures
        rows_in_model(m, ngram_rows(m, wh, i, e)),
    decreases e - i,
{
    if e > i + 1 {
        lemma_ngram_rows_in_model(m, wh, i, e - 1);
        lemma_bucket_row_in_model(m, (ngram_hash(wh, i, e - 1) as nat % m.args.bucket as nat) as int);
        lemma_rows_concat(
            m,
            ngram_rows(m, wh, i, e - 1),
            bucket_row(m, (ngram_hash(wh, i, e - 1) as nat % m.args.bucket as nat) as int),
        );
    }
}

proof fn lemma_all_ngram_rows_in_model(m: Model, wh: Seq<i32>, u: nat)
    ensures
        rows_in_model(m, all_ngram_rows(m, wh, u)),
    decreases u,
{
    if u > 0 {
        let i = (u - 1) as int;
        lemma_all_ngram_rows_in_model(m, wh, (u - 1) as nat);
        lemma_ngram_rows_in_model(m, wh, i, ngram_end(m, wh, i));
        lemma_rows_concat(
            m,
            all_ngram_rows(m, wh, (u - 1) as nat),
            ngram_rows(m, wh, i, ngram_end(m, wh, i)),
        );
    }
}

/// Law: every row a document adds up is a word row or a row that lies
/// wholly inside the input matrix.
pub proof fn lemma_features_in_model(m: Model, text: Seq<u8>)
    requires
        m.wf(),
    ensures
        rows_in_model(m, spec_features(m, text)),
{
    let ts = doc_tokens(text);
    let wh = word_hashes(m, ts);
    lemma_tokens_rows_in_model(m, ts);
    lemma_all_ngram_rows_in_model(m, wh, wh.len());
    assert(rows_in_model(m, Seq::<usize>::empty()));
    lemma_rows_concat(
        m,
        tokens_rows(m, ts),
        if m.args.word_ngrams > 1 && m.args.bucket > 0 {
            all_ngram_rows(m, wh, wh.len())
        } else {
            Seq::empty()
        },
    );
}

/// Law: a document's tokens end with the one `</s>` they hold; when the text
/// has no `</s>` token they are its tokens followed by `</s>`.
pub proof fn lemma_doc_tokens_end_with_eos(text: Seq<u8>)
    ensures
        doc_tokens(text).len() >= 1,
        doc_tokens(text).last() == eos(),
        forall|j: int| 0 <= j < doc_tokens(text).len() - 1 ==> #[trigger] doc_tokens(text)[j] != eos(),
        (forall|j: int|
            0 <= j < spec_tokens(text).len() ==> #[trigger] spec_tokens(text)[j] != eos())
            ==> doc_tokens(text) == spec_tokens(text).push(eos()),
{
    let ts = spec_tokens(text).push(eos());
    lemma_eos_index_bounded(ts, 0);
    let k = eos_index_from(ts, 0);
    lemma_eos_before(ts, 0, k);
    if forall|j: int| 0 <= j < spec_tokens(text).len() ==> #[trigger] spec_tokens(text)[j] != eos() {
        if k < ts.len() - 1 {
            assert(ts[k] == spec_tokens(text)[k]);
        }
        assert(ts.take(k + 1) =~= ts);
    }
}

proof fn lemma_eos_before(ts: Seq<Seq<u8>>, j: int, k: int)
    requires
        0 <= j <= k < ts.len(),
        eos_index_from(ts, j) == k,
    ensures
        forall|x: int| j <= x < k ==> ts[x] != eos(),
    decreases k - j,
{
    if j < k {
        lemma_eos_before(ts, j + 1, k);
    }
}

/// Law: a document's rows depend only on its tokens, so texts that differ
/// only in which separators they use add up the same rows.
pub proof fn lemma_features_ignore_separator_kind(m: Model, s: Seq<u8>, t: Seq<u8>)
    requires
        same_but_separators(s, t),
    ensures
        spec_features(m, s) == spec_features(m, t),
{
    lemma_tokens_ignore_separator_kind(s, t);
}

/// Law: a text is scored as one document; replacing its newlines by spaces
/// changes none of the rows it adds up.
pub proof fn lemma_features_newlines_as_spaces(m: Model, s: Seq<u8>)
    ensures
        spec_features(m, s.map_values(|b: u8| if b == 10 { 32u8 } else { b })) == spec_features(
            m,
            s,
        ),
{
    lemma_newlines_as_spaces(s);
}

/// Law: a label token adds no row and no word hash: labels take no part in
/// the words, subwords or word n-grams of a document.
pub proof fn lemma_labels_add_nothing(m: Model, ts: Seq<Seq<u8>>, t: Seq<u8>)
    requires
        is_label_token(m, t),
    ensures
        token_rows(m, t) == Seq::<usize>::empty(),
        tokens_rows(m, ts.push(t)) == tokens_rows(m, ts),
        word_hashes(m, ts.push(t)) == word_hashes(m, ts),
{
    assert(ts.push(t).drop_last() =~= ts);
    assert(tokens_rows(m, ts) + Seq::<usize>::empty() =~= tokens_rows(m, ts));
}

/// Two token sequences that agree up to the first `</s>` of the first one
/// have their first `</s>` at the same place.
proof fn lemma_eos_agree(a: Seq<Seq<u8>>, b: Seq<Seq<u8>>, n: int, j: int)
    requires
        0 <= j <= eos_index_from(a, j) < n,
        n <= a.len(),
        n <= b.len(),
        forall|k: int| 0 <= k < n ==> a[k] == b[k],
    ensures
        eos_index_from(b, j) == eos_index_from(a, j),
    decreases n - j,
{
    assert(a[j] == b[j]);
    if a[j] != eos() {
        lemma_eos_from_ge(a, j + 1);
        lemma_eos_agree(a, b, n, j + 1);
    }
}

proof fn lemma_eos_offset(p: Seq<Seq<u8>>, q: Seq<Seq<u8>>, i: int)
    requires
        0 <= i <= q.len(),
    ensures
        eos_index_from(p + q, p.len() + i) == p.len() + eos_index_from(q, i),
    decreases q.len() - i,
{
    if i < q.len() {
        assert((p + q)[p.len() + i] == q[i]);
        if q[i] != eos() {
            lemma_eos_offset(p, q, i + 1);
        }
    }
}

proof fn lemma_eos_after_prefix(p: Seq<Seq<u8>>, q: Seq<Seq<u8>>, j: int)
    requires
        0 <= j <= p.len(),
        forall|k: int| j <= k < p.len() ==> p[k] != eos(),
    ensures
        eos_index_from(p + q, j) == p.len() + eos_index_from(q, 0),
    decreases p.len() - j,
{
    if j == p.len() {
        lemma_eos_offset(p, q, 0);
    } else {
        assert((p + q)[j] == p[j]);
        lemma_eos_after_prefix(p, q, j + 1);
    }
}

/// `</s>` holds no separator byte.
proof fn lemma_eos_is_word()
    ensures
        eos().len() > 0,
        forall|k: int| 0 <= k < eos().len() ==> !is_separator(#[trigger] eos()[k]),
{
}

/// Law: an explicit `</s>` token ends the document; whatever follows it adds
/// no row.
pub proof fn lemma_features_stop_at_eos(m: Model, t1: Seq<u8>, c1: u8, c2: u8, t2: Seq<u8>)
    requires
        is_separator(c1),
        is_separator(c2),
    ensures
        spec_features(m, t1.push(c1) + eos().push(c2) + t2) == spec_features(m, t1),
{
    let text = t1.push(c1) + eos().push(c2) + t2;
    assert(text =~= t1.push(c1) + (eos().push(c2) + t2));
    lemma_tokens_concat(t1, c1, eos().push(c2) + t2);
    lemma_tokens_concat(eos(), c2, t2);
    lemma_eos_is_word();
    lemma_tokens_of_word(eos());
    let a = spec_tokens(t1);
    let ts0 = a.push(eos());
    let ts1 = spec_tokens(text).push(eos());
    assert(ts1 =~= (a + (seq![eos()] + spec_tokens(t2))).push(eos()));
    lemma_eos_index_bounded(ts0, 0);
    let k = eos_index_from(ts0, 0);
    assert forall|x: int| 0 <= x < a.len() + 1 implies ts0[x] == ts1[x] by {
        if x < a.len() {
            assert(ts1[x] == a[x]);
        } else {
            assert(ts1[x] == eos());
        }
    }
    lemma_eos_agree(ts0, ts1, a.len() + 1int, 0);
    assert(ts1.take(k + 1) =~= ts0.take(k + 1));
}

/// A label token inserted into a token sequence changes neither its rows nor
/// its word hashes.
proof fn lemma_label_inserted(m: Model, x: Seq<Seq<u8>>, t: Seq<u8>, y: Seq<Seq<u8>>)
    requires
        is_label_token(m, t),
    ensures
        tokens_rows(m, x.push(t) + y) == tokens_rows(m, x + y),
        word_hashes(m, x.push(t) + y) == word_hashes(m, x + y),
    decreases y.len(),
{
    if y.len() == 0 {
        assert(x.push(t) + y =~= x.push(t));
        assert(x + y =~= x);
        lemma_labels_add_nothing(m, x, t);
    } else {
        lemma_label_inserted(m, x, t, y.drop_last());
        assert((x.push(t) + y).drop_last() =~= x.push(t) + y.drop_last());
        assert((x + y).drop_last() =~= x + y.drop_last());
        assert((x.push(t) + y).last() == y.last());
        assert((x + y).last() == y.last());
    }
}

/// Law: a label placed between two tokens of a document adds no word,
/// subword or word n-gram row.
pub proof fn lemma_label_in_document_adds_nothing(
    m: Model,
    a: Seq<u8>,
    c1: u8,
    lab: Seq<u8>,
    c2: u8,
    b: Seq<u8>,
)
    requires
        is_separator(c1),
        is_separator(c2),
        is_label_token(m, lab),
        lab.len() > 0,
        forall|k: int| 0 <= k < lab.len() ==> !is_separator(#[trigger] lab[k]),
        lab != eos(),
    ensures
        spec_features(m, a.push(c1) + lab.push(c2) + b) == spec_features(m, a.push(c1) + b),
{
    let text2 = a.push(c1) + lab.push(c2) + b;
    let text1 = a.push(c1) + b;
    assert(text2 =~= a.push(c1) + (lab.push(c2) + b));
    lemma_tokens_concat(a, c1, lab.push(c2) + b);
    lemma_tokens_concat(lab, c2, b);
    lemma_tokens_of_word(lab);
    lemma_tokens_concat(a, c1, b);
    let ta = spec_tokens(a);
    let tb = spec_tokens(b).push(eos());
    let ts1 = spec_tokens(text1).push(eos());
    let ts2 = spec_tokens(text2).push(eos());
    assert(ts1 =~= ta + tb);
    assert(ts2 =~= ta.push(lab) + tb);
    let ts0 = ta.push(eos());
    lemma_eos_index_bounded(ts0, 0);
    let k = eos_index_from(ts0, 0);
    if k < ta.len() {
        assert forall|x: int| 0 <= x < ta.len() implies ts0[x] == ts1[x] && ts0[x] == ts2[x] by {
            assert(ts0[x] == ta[x]);
            assert(ts1[x] == ta[x]);
            assert(ts2[x] == ta[x]);
        }
        lemma_eos_agree(ts0, ts1, ta.len() as int, 0);
        lemma_eos_agree(ts0, ts2, ta.len() as int, 0);
        assert(ts1.take(k + 1) =~= ts2.take(k + 1));
    } else {
        lemma_eos_before(ts0, 0, k);
        assert forall|x: int| 0 <= x < ta.len() implies ta[x] != eos() by {
            assert(ts0[x] == ta[x]);
        }
        assert forall|x: int| 0 <= x < ta.push(lab).len() implies ta.push(lab)[x] != eos() by {
            if x < ta.len() {
                assert(ta.push(lab)[x] == ta[x]);
            }
        }
        lemma_eos_after_prefix(ta, tb, 0);
        lemma_eos_after_prefix(ta.push(lab), tb, 0);
        lemma_eos_index_bounded(tb, 0);
        let e = eos_index_from(tb, 0);
        let y = tb.take(e + 1);
        assert(ts1.take(ta.len() + e + 1) =~= ta + y);
        assert(ts2.take(ta.len() + 1 + e + 1) =~= ta.push(lab) + y);
        lemma_label_inserted(m, ta, lab, y);
    }
}

/// How many word n-grams start at word `i` of `len` words when n-grams have
/// at most `w` words: one for each later word, up to `w - 1` of them.
pub open spec fn ngrams_at_word(len: int, w: int, i: int) -> int {
    if len - i < w {
        len - i - 1
    } else {
        w - 1
    }
}

/// How many word n-grams start before word `u`.
pub open spec fn ngrams_before_word(len: int, w: int, u: nat) -> int
    decreases u,
{
    if u == 0 {
        0
    } else {
        ngrams_before_word(len, w, (u - 1) as nat) + ngrams_at_word(len, w, u - 1)
    }
}

proof fn lemma_ngram_rows_exact(m: Model, wh: Seq<i32>, i: int, e: int)
    requires
        m.args.bucket > 0,
        forall|b: int| 0 <= b < m.args.bucket ==> #[trigger] m.spec_bucket_id(b) is Some,
        0 <= i < e,
    ensures
        ngram_rows(m, wh, i, e).len() == e - i - 1,
        forall|j: int|
            i < j < e ==> ngram_rows(m, wh, i, e)[j - i - 1] == (m.num_words + #[trigger] ngram_hash(
                wh,
                i,
                j,
            ) as nat % m.args.bucket as nat) as usize,
    decreases e - i,
{
    if e > i + 1 {
        lemma_ngram_rows_exact(m, wh, i, e - 1);
        let b = (ngram_hash(wh, i, e - 1) as nat % m.args.bucket as nat) as int;
        assert(m.spec_bucket_id(b) is Some);
        let prev = ngram_rows(m, wh, i, e - 1);
        let all = ngram_rows(m, wh, i, e);
        assert forall|j: int| i < j < e implies all[j - i - 1] == (m.num_words + #[trigger] ngram_hash(
            wh,
            i,
            j,
        ) as nat % m.args.bucket as nat) as usize by {
            if j < e - 1 {
                assert(all[j - i - 1] == prev[j - i - 1]);
            }
        }
    }
}

proof fn lemma_all_ngram_rows_exact(m: Model, wh: Seq<i32>, u: nat)
    requires
        m.args.word_ngrams > 1,
        m.args.bucket > 0,
        forall|b: int| 0 <= b < m.args.bucket ==> #[trigger] m.spec_bucket_id(b) is Some,
        u <= wh.len(),
    ensures
        all_ngram_rows(m, wh, u).len() == ngrams_before_word(
            wh.len() as int,
            m.args.word_ngrams as int,
            u,
        ),
        forall|i: int, j: int|
            0 <= i < u && i < j < wh.len() && j - i < m.args.word_ngrams ==> all_ngram_rows(
                m,
                wh,
                u,
            )[ngrams_before_word(wh.len() as int, m.args.word_ngrams as int, i as nat) + j - i
                - 1] == (m.num_words + #[trigger] ngram_hash(wh, i, j) as nat
                % m.args.bucket as nat) as usize,
    decreases u,
{
    if u > 0 {
        let len = wh.len() as int;
        let w = m.args.word_ngrams as int;
        let k = (u - 1) as int;
        lemma_all_ngram_rows_exact(m, wh, (u - 1) as nat);
        let end = ngram_end(m, wh, k);
        let prev = all_ngram_rows(m, wh, (u - 1) as nat);
        let last = ngram_rows(m, wh, k, end);
        if end > k + 1 {
            lemma_ngram_rows_exact(m, wh, k, end);
        } else {
            assert(last =~= Seq::<usize>::empty());
        }
        assert(last.len() == ngrams_at_word(len, w, k));
        let all = all_ngram_rows(m, wh, u);
        assert forall|i: int, j: int|
            0 <= i < u && i < j < len && j - i < w implies all[ngrams_before_word(
            len,
            w,
            i as nat,
        ) + j - i - 1] == (m.num_words + #[trigger] ngram_hash(wh, i, j) as nat
            % m.args.bucket as nat) as usize by {
            if i < k {
                lemma_ngrams_before_word_grows(len, w, (i + 1) as nat, (u - 1) as nat);
                lemma_ngrams_before_word_grows(len, w, 0, i as nat);
                assert(ngrams_before_word(len, w, (i + 1) as nat) == ngrams_before_word(len, w, i as nat)
                    + ngrams_at_word(len, w, i));
                assert(j - i - 1 < ngrams_at_word(len, w, i));
                assert(all[ngrams_before_word(len, w, i as nat) + j - i - 1] == prev[
                    ngrams_before_word(len, w, i as nat) + j - i - 1
                ]);
            } else {
                assert(all[ngrams_before_word(len, w, i as nat) + j - i - 1] == last[j - i - 1]);
            }
        }
    }
}

proof fn lemma_ngrams_before_word_grows(len: int, w: int, a: nat, b: nat)
    requires
        a <= b <= len,
        w > 1,
    ensures
        ngrams_before_word(len, w, a) <= ngrams_before_word(len, w, b),
    decreases b,
{
    if a < b {
        lemma_ngrams_before_word_grows(len, w, a, (b - 1) as nat);
    }
}

/// Law: for `wordNgrams = w > 1` and a non-zero bucket count, when every
/// bucket has its row, a document's rows are its token rows followed by the
/// rows of its word n-grams, grouped by first word: from word `i` one row for
/// each `wh[i..=j]` with `i < j < min(len, i + w)`, shortest first (so with
/// `w = 3` and four word hashes there are five).
pub proof fn lemma_word_ngram_rows(m: Model, text: Seq<u8>)
    requires
        m.args.word_ngrams > 1,
        m.args.bucket > 0,
        forall|b: int| 0 <= b < m.args.bucket ==> #[trigger] m.spec_bucket_id(b) is Some,
    ensures
        ({
            let ts = doc_tokens(text);
            let wh = word_hashes(m, ts);
            let len = wh.len() as int;
            let w = m.args.word_ngrams as int;
            let base = tokens_rows(m, ts).len() as int;
            let f = spec_features(m, text);
            &&& f.subrange(0, base) == tokens_rows(m, ts)
            &&& f.len() == base + ngrams_before_word(len, w, len as nat)
            &&& forall|i: int, j: int|
                0 <= i < j < len && j - i < w ==> f[base + ngrams_before_word(len, w, i as nat) + j
                    - i - 1] == (m.num_words + #[trigger] ngram_hash(wh, i, j) as nat
                    % m.args.bucket as nat) as usize
        }),
{
    let ts = doc_tokens(text);
    let wh = word_hashes(m, ts);
    let len = wh.len() as int;
    let w = m.args.word_ngrams as int;
    let tr = tokens_rows(m, ts);
    let base = tr.len() as int;
    let ng = all_ngram_rows(m, wh, wh.len());
    lemma_all_ngram_rows_exact(m, wh, wh.len());
    let f = spec_features(m, text);
    assert(f == tr + ng);
    assert(f.subrange(0, base) =~= tr);
    assert forall|i: int, j: int| 0 <= i < j < len && j - i < w implies f[base + ngrams_before_word(
        len,
        w,
        i as nat,
    ) + j - i - 1] == (m.num_words + #[trigger] ngram_hash(wh, i, j) as nat
        % m.args.bucket as nat) as usize by {
        lemma_ngrams_before_word_grows(len, w, (i + 1) as nat, len as nat);
        lemma_ngrams_before_word_grows(len, w, 0, i as nat);
        assert(ngrams_before_word(len, w, (i + 1) as nat) == ngrams_before_word(len, w, i as nat)
            + ngrams_at_word(len, w, i));
        assert(j - i - 1 < ngrams_at_word(len, w, i));
        assert(f[base + ngrams_before_word(len, w, i as nat) + j - i - 1] == ng[ngrams_before_word(
            len,
            w,
            i as nat,
        ) + j - i - 1]);
    }
}

/// Law: the hash of the word n-gram `wh[i..=j]`, as fastText computes it:
/// the first word hash sign-extended to 64 bits, then for each further word
/// `h * 116049371 + x` modulo 2^64, `x` again sign-extended.
pub proof fn lemma_ngram_hash_steps(wh: Seq<i32>, i: int, j: int)
    requires
        0 <= i <= j,
    ensures
        ngram_hash(wh, i, i) == (if wh[i] < 0 {
            wh[i] + 0x1_0000_0000_0000_0000
        } else {
            wh[i] as int
        }),
        ngram_hash(wh, i, j + 1) == ((ngram_hash(wh, i, j) as nat * 116049371nat + (if wh[j + 1]
            < 0 {
            wh[j + 1] + 0x1_0000_0000_0000_0000
        } else {
            wh[j + 1] as int
        }) as nat) % 0x1_0000_0000_0000_0000) as u64,
{
    let y = wh[i];
    assert(y as u64 == (if y < 0 {
        y + 0x1_0000_0000_0000_0000
    } else {
        y as int
    })) by (bit_vector);
    let x = wh[j + 1];
    assert(x as u64 == (if x < 0 {
        x + 0x1_0000_0000_0000_0000
    } else {
        x as int
    })) by (bit_vector);
}

/// A token that adds its dictionary row: a word of the model that is not a
/// label.
pub open spec fn counts_as_word(m: Model, t: Seq<u8>) -> bool {
    !is_label_token(m, t) && last_index_of(m.word_bytes(), t) is Some
}

proof fn lemma_tokens_rows_no_buckets(m: Model, ts: Seq<Seq<u8>>)
    requires
        m.args.bucket == 0,
    ensures
        tokens_rows(m, ts) == ts.filter(|t: Seq<u8>| counts_as_word(m, t)).map_values(
            |t: Seq<u8>| last_index_of(m.word_bytes(), t)->Some_0 as usize,
        ),
    decreases ts.len(),
{
    reveal(Seq::filter);
    if ts.len() > 0 {
        lemma_tokens_rows_no_buckets(m, ts.drop_last());
        let t = ts.last();
        let f = ts.drop_last().filter(|t: Seq<u8>| counts_as_word(m, t));
        let g = |t: Seq<u8>| last_index_of(m.word_bytes(), t)->Some_0 as usize;
        let b = spec_subword_ids(t, m.args.minn as nat, m.args.maxn as nat, m.args.bucket as nat);
        assert(b == Seq::<usize>::empty());
        assert(bucket_rows(m, b) == Seq::<usize>::empty());
        if counts_as_word(m, t) {
            assert(f.push(t).map_values(g) =~= f.map_values(g).push(g(t)));
            assert(tokens_rows(m, ts) =~= tokens_rows(m, ts.drop_last()).push(g(t)));
        } else {
            assert(token_rows(m, t) =~= Seq::<usize>::empty());
            assert(tokens_rows(m, ts) =~= tokens_rows(m, ts.drop_last()));
        }
    }
}

/// Law: without subword or n-gram buckets, a document's rows are the
/// dictionary positions of its tokens that are words and not labels, one per
/// such token, in order, up to and including the first `</s>`.
pub proof fn lemma_rows_without_buckets(m: Model, text: Seq<u8>)
    requires
        m.args.bucket == 0,
    ensures
        spec_features(m, text) == doc_tokens(text).filter(|t: Seq<u8>| counts_as_word(m, t)).map_values(
            |t: Seq<u8>| last_index_of(m.word_bytes(), t)->Some_0 as usize,
        ),
{
    lemma_tokens_rows_no_buckets(m, doc_tokens(text));
    let tr = tokens_rows(m, doc_tokens(text));
    assert(tr + Seq::<usize>::empty() =~= tr);
}

} // verus!
