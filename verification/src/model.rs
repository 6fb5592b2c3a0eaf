//! The fastText `.bin` model: header, dictionary, label tree and the two
//! weight matrices (kept as the bit patterns of their `f32` entries).
use vstd::prelude::*;
use vstd::slice::slice_subrange;
use vstd::utf8::*;

use crate::dict::{last_index_of, strings_bytes, WordIndex};
use crate::format::{le_i32, le_i64, le_u32, le_u64, read_i32_le, read_i64_le, read_u32_le, read_u64_le};
use crate::huffman::{build_huffman_tree, huffman_code, huffman_counts_ok, huffman_path};

verus! {

/// `FASTTEXT_FILEFORMAT_MAGIC_INT32`.
pub const FASTTEXT_MAGIC: i32 = 0x2F4F16BA;

/// The newest model version this reader accepts.
pub const FASTTEXT_VERSION: i32 = 12;

/// The training arguments stored in a model. `loss` is 1 for hierarchical
/// softmax, 2 for negative sampling, 3 for softmax (4 for one-vs-all);
/// `t_bits` holds the bit pattern of the `f64` sampling threshold `t`.
#[derive(Clone, Copy, Debug)]
pub struct Args {
    pub dim: usize,
    pub ws: i32,
    pub epoch: i32,
    pub min_count: i32,
    pub neg: i32,
    pub word_ngrams: i32,
    pub loss: i32,
    pub model: i32,
    pub bucket: usize,
    pub minn: usize,
    pub maxn: usize,
    pub lr_update_rate: i32,
    pub t_bits: u64,
}

/// Why a model file was refused.
#[derive(Clone, Copy, Debug, PartialEq, Eq, Structural)]
pub enum LoadError {
    /// The file ended inside a field.
    UnexpectedEof,
    /// The first four bytes are not the fastText magic number (which is
    /// carried here).
    InvalidMagic(i32),
    /// The version is newer than `FASTTEXT_VERSION`.
    UnsupportedVersion,
    /// The input matrix is quantized.
    QuantizedInput,
    /// The output matrix is quantized.
    QuantizedOutput,
    /// Hierarchical softmax over label counts that no tree can be built from
    /// (a count of `i64::MAX`, or more than 2^30 labels).
    InvalidLabelTree,
}

pub open spec fn i32_at(d: Seq<u8>, p: int) -> i32 {
    le_i32(d.subrange(p, p + 4))
}

pub open spec fn i64_at(d: Seq<u8>, p: int) -> i64 {
    le_i64(d.subrange(p, p + 8))
}

pub open spec fn u32_at(d: Seq<u8>, p: int) -> u32 {
    le_u32(d.subrange(p, p + 4))
}

pub open spec fn u64_at(d: Seq<u8>, p: int) -> u64 {
    le_u64(d.subrange(p, p + 8))
}

/// The arguments block: twelve `i32` fields from byte 8 and the `f64` `t` at
/// byte 56; `dim`, `bucket`, `minn` and `maxn` are converted with `as usize`.
pub open spec fn header_args(d: Seq<u8>) -> Args {
    Args {
        dim: i32_at(d, 8) as usize,
        ws: i32_at(d, 12),
        epoch: i32_at(d, 16),
        min_count: i32_at(d, 20),
        neg: i32_at(d, 24),
        word_ngrams: i32_at(d, 28),
        loss: i32_at(d, 32),
        model: i32_at(d, 36),
        bucket: i32_at(d, 40) as usize,
        minn: i32_at(d, 44) as usize,
        maxn: i32_at(d, 48) as usize,
        lr_update_rate: i32_at(d, 52),
        t_bits: u64_at(d, 56),
    }
}

/// The fixed-size front of a model file.
pub struct Header {
    pub args: Args,
    pub dict_size: i32,
    pub prune_size: i64,
}

/// The first 92 bytes: magic, version, arguments, then the dictionary sizes
/// (entries at 64, words, labels, tokens, and the pruning table size at 84).
pub open spec fn spec_header(d: Seq<u8>) -> Result<Header, LoadError> {
    if d.len() < 4 {
        Err(LoadError::UnexpectedEof)
    } else if i32_at(d, 0) != FASTTEXT_MAGIC {
        Err(LoadError::InvalidMagic(i32_at(d, 0)))
    } else if d.len() < 8 {
        Err(LoadError::UnexpectedEof)
    } else if i32_at(d, 4) > FASTTEXT_VERSION {
        Err(LoadError::UnsupportedVersion)
    } else if d.len() < 92 {
        Err(LoadError::UnexpectedEof)
    } else {
        Ok(Header { args: header_args(d), dict_size: i32_at(d, 64), prune_size: i64_at(d, 84) })
    }
}

/// Where the dictionary entries start: after the header and, when its size
/// is positive, after a skipped table of `8 * prune_size` bytes.
pub open spec fn entries_start(h: Header) -> int {
    92 + if h.prune_size > 0 {
        8 * h.prune_size
    } else {
        0
    }
}

/// A dictionary entry: the bytes before its NUL terminator, its count and its
/// kind (0 word, 1 label, anything else ignored).
pub struct Entry {
    pub word: Seq<u8>,
    pub count: i64,
    pub kind: u8,
}

/// The first NUL byte at or after `p`.
pub open spec fn nul_from(d: Seq<u8>, p: int) -> Option<int>
    decreases d.len() - p,
{
    if p < 0 || p >= d.len() {
        None
    } else if d[p] == 0 {
        Some(p)
    } else {
        nul_from(d, p + 1)
    }
}

/// The entry at `p` and the position after it.
pub open spec fn entry_at(d: Seq<u8>, p: int) -> Result<(Entry, int), LoadError> {
    match nul_from(d, p) {
        None => Err(LoadError::UnexpectedEof),
        Some(q) => if q + 10 > d.len() {
            Err(LoadError::UnexpectedEof)
        } else {
            Ok((Entry { word: d.subrange(p, q), count: i64_at(d, q + 1), kind: d[q + 9] }, q + 10))
        },
    }
}

/// The first `m` entries from `p` and the position after them.
pub open spec fn entries_upto(d: Seq<u8>, p: int, m: nat) -> Result<(Seq<Entry>, int), LoadError>
    decreases m,
{
    if m == 0 {
        Ok((Seq::empty(), p))
    } else {
        match entries_upto(d, p, (m - 1) as nat) {
            Err(e) => Err(e),
            Ok((es, q)) => match entry_at(d, q) {
                Err(e) => Err(e),
                Ok((e, r)) => Ok((es.push(e), r)),
            },
        }
    }
}

/// The words (kind 0) among the entries, raw bytes, in order.
pub open spec fn entry_words(es: Seq<Entry>) -> Seq<Seq<u8>>
    decreases es.len(),
{
    if es.len() == 0 {
        Seq::empty()
    } else if es.last().kind == 0 {
        entry_words(es.drop_last()).push(es.last().word)
    } else {
        entry_words(es.drop_last())
    }
}

/// The labels (kind 1) among the entries, raw bytes, in order.
pub open spec fn entry_labels(es: Seq<Entry>) -> Seq<Seq<u8>>
    decreases es.len(),
{
    if es.len() == 0 {
        Seq::empty()
    } else if es.last().kind == 1 {
        entry_labels(es.drop_last()).push(es.last().word)
    } else {
        entry_labels(es.drop_last())
    }
}

/// The counts of the labels among the entries, in order.
pub open spec fn entry_label_counts(es: Seq<Entry>) -> Seq<i64>
    decreases es.len(),
{
    if es.len() == 0 {
        Seq::empty()
    } else if es.last().kind == 1 {
        entry_label_counts(es.drop_last()).push(es.last().count)
    } else {
        entry_label_counts(es.drop_last())
    }
}

/// The number of entries of a `rows` by `cols` matrix: both converted with
/// `as usize` and multiplied modulo the `usize` range, as the release build
/// computes it.
pub open spec fn matrix_len(rows: i64, cols: i64) -> int {
    ((rows as usize) as int * (cols as usize) as int) % (usize::MAX as int + 1)
}

/// A matrix at `p`: a quantization flag (non-zero is refused with `quant`),
/// `i64` rows and columns, then `rows * cols` little-endian 32-bit floats,
/// kept as their bit patterns.
pub open spec fn matrix_at(d: Seq<u8>, p: int, quant: LoadError) -> Result<(Seq<u32>, int), LoadError> {
    if p < 0 || p + 1 > d.len() {
        Err(LoadError::UnexpectedEof)
    } else if d[p] != 0 {
        Err(quant)
    } else if p + 17 > d.len() {
        Err(LoadError::UnexpectedEof)
    } else {
        let n = matrix_len(i64_at(d, p + 1), i64_at(d, p + 9));
        if p + 17 + 4 * n > d.len() {
            Err(LoadError::UnexpectedEof)
        } else {
            Ok((Seq::new(n as nat, |i: int| u32_at(d, p + 17 + 4 * i)), p + 17 + 4 * n))
        }
    }
}

/// What a model file holds.
pub struct LoadedModel {
    pub args: Args,
    pub entries: Seq<Entry>,
    pub win: Seq<u32>,
    pub wout: Seq<u32>,
}

/// The meaning of a model file: header, `dict_size` entries (the size
/// converted with `as usize`), then the input and output matrices; bytes after
/// them are ignored. Hierarchical softmax needs label counts a tree can be
/// built from.
pub open spec fn spec_load(d: Seq<u8>) -> Result<LoadedModel, LoadError> {
    match spec_header(d) {
        Err(e) => Err(e),
        Ok(h) => match entries_upto(d, entries_start(h), (h.dict_size as usize) as nat) {
            Err(e) => Err(e),
            Ok((es, p)) => spec_load_rest(d, h.args, es, p),
        },
    }
}

/// The part of a model file after the dictionary, at `p`.
pub open spec fn spec_load_rest(d: Seq<u8>, args: Args, es: Seq<Entry>, p: int) -> Result<
    LoadedModel,
    LoadError,
> {
    if args.loss == 1 && !huffman_counts_ok(entry_label_counts(es)) {
        Err(LoadError::InvalidLabelTree)
    } else {
        match matrix_at(d, p, LoadError::QuantizedInput) {
            Err(e) => Err(e),
            Ok((win, q)) => match matrix_at(d, q, LoadError::QuantizedOutput) {
                Err(e) => Err(e),
                Ok((wout, _)) => Ok(LoadedModel { args, entries: es, win, wout }),
            },
        }
    }
}

/// What `String::from_utf8_lossy` makes of a byte string: the string it
/// decodes to, each invalid sequence replaced by U+FFFD.
pub uninterp spec fn utf8_lossy(bytes: Seq<u8>) -> Seq<char>;

/// `String::from_utf8_lossy(bytes).into_owned()`. Claimed: the result is
/// `utf8_lossy` of the bytes, and valid UTF-8 is decoded unchanged, as the
/// std documentation states; how invalid input is repaired is left to the
/// name.
#[verifier::external_body]
fn string_from_utf8_lossy(bytes: &[u8]) -> (s: String)
    ensures
        s@ == utf8_lossy(bytes@),
        valid_utf8(bytes@) ==> s@ == decode_utf8(bytes@),
{
    String::from_utf8_lossy(bytes).into_owned()
}

/// `s` is what the dictionary makes of the raw entry `raw`: its lossy UTF-8
/// decoding, which for valid UTF-8 is the plain decoding, whose bytes are
/// `raw` again.
pub open spec fn decoded_entry(s: Seq<char>, raw: Seq<u8>) -> bool {
    &&& s == utf8_lossy(raw)
    &&& valid_utf8(raw) ==> s == decode_utf8(raw) && encode_utf8(s) == raw
}

/// A loaded model. `win` holds `(num_words + bucket) * dim` input weights and
/// `wout` the output weights, each as the bit pattern of an `f32`; `paths`
/// and `codes` give, for hierarchical softmax, each label's internal nodes
/// and branch flags from the label up to the root.
pub struct Model {
    pub args: Args,
    pub words: Vec<String>,
    pub labels: Vec<String>,
    pub label_counts: Vec<i64>,
    pub word2id: WordIndex,
    pub label2id: WordIndex,
    pub num_words: usize,
    pub num_labels: usize,
    pub win: Vec<u32>,
    pub wout: Vec<u32>,
    pub paths: Vec<Vec<usize>>,
    pub codes: Vec<Vec<bool>>,
}

impl Model {
    /// The UTF-8 bytes of the words.
    pub open spec fn word_bytes(&self) -> Seq<Seq<u8>> {
        strings_bytes(self.words@)
    }

    /// The UTF-8 bytes of the labels.
    pub open spec fn label_bytes(&self) -> Seq<Seq<u8>> {
        strings_bytes(self.labels@)
    }

    /// The counts agree with the lists and the two indexes cover them.
    pub open spec fn wf(&self) -> bool {
        &&& self.num_words == self.words@.len()
        &&& self.num_labels == self.labels@.len()
        &&& self.label_counts@.len() == self.labels@.len()
        &&& self.word2id.indexes(self.word_bytes())
        &&& self.label2id.indexes(self.label_bytes())
    }

    /// The model holds what the file `l` describes: its arguments, its words
    /// and labels decoded with `utf8_lossy`, the label counts, the matrices,
    /// and for hierarchical softmax the Huffman paths of the labels.
    pub open spec fn holds(&self, l: LoadedModel) -> bool {
        let ws = entry_words(l.entries);
        let ls = entry_labels(l.entries);
        let lc = entry_label_counts(l.entries);
        &&& self.args == l.args
        &&& self.words@.len() == ws.len()
        &&& forall|i: int| 0 <= i < ws.len() ==> decoded_entry((#[trigger] self.words@[i])@, ws[i])
        &&& self.labels@.len() == ls.len()
        &&& forall|i: int|
            0 <= i < ls.len() ==> decoded_entry((#[trigger] self.labels@[i])@, ls[i])
        &&& self.label_counts@ == lc
        &&& self.win@ == l.win
        &&& self.wout@ == l.wout
        &&& if l.args.loss == 1 {
            &&& self.paths@.len() == lc.len()
            &&& self.codes@.len() == lc.len()
            &&& forall|i: int|
                0 <= i < lc.len() ==> (#[trigger] self.paths@[i])@ == huffman_path(lc, i)
            &&& forall|i: int|
                0 <= i < lc.len() ==> (#[trigger] self.codes@[i])@ == huffman_code(lc, i)
        } else {
            self.paths@.len() == 0 && self.codes@.len() == 0
        }
    }
}

fn i32_from(d: &[u8], p: usize) -> (v: i32)
    requires
        p + 4 <= d.len(),
    ensures
        v == i32_at(d@, p as int),
{
    read_i32_le(slice_subrange(d, p, p + 4))
}

fn i64_from(d: &[u8], p: usize) -> (v: i64)
    requires
        p + 8 <= d.len(),
    ensures
        v == i64_at(d@, p as int),
{
    read_i64_le(slice_subrange(d, p, p + 8))
}

fn u32_from(d: &[u8], p: usize) -> (v: u32)
    requires
        p + 4 <= d.len(),
    ensures
        v == u32_at(d@, p as int),
{
    read_u32_le(slice_subrange(d, p, p + 4))
}

fn u64_from(d: &[u8], p: usize) -> (v: u64)
    requires
        p + 8 <= d.len(),
    ensures
        v == u64_at(d@, p as int),
{
    read_u64_le(slice_subrange(d, p, p + 8))
}

fn read_header(d: &[u8]) -> (r: Result<Header, LoadError>)
    ensures
        r == spec_header(d@),
{
    if d.len() < 4 {
        return Err(LoadError::UnexpectedEof);
    }
    let magic = i32_from(d, 0);
    if magic != FASTTEXT_MAGIC {
        return Err(LoadError::InvalidMagic(magic));
    }
    if d.len() < 8 {
        return Err(LoadError::UnexpectedEof);
    }
    let version = i32_from(d, 4);
    if version > FASTTEXT_VERSION {
        return Err(LoadError::UnsupportedVersion);
    }
    if d.len() < 92 {
        return Err(LoadError::UnexpectedEof);
    }
    let args = Args {
        dim: i32_from(d, 8) as usize,
        ws: i32_from(d, 12),
        epoch: i32_from(d, 16),
        min_count: i32_from(d, 20),
        neg: i32_from(d, 24),
        word_ngrams: i32_from(d, 28),
        loss: i32_from(d, 32),
        model: i32_from(d, 36),
        bucket: i32_from(d, 40) as usize,
        minn: i32_from(d, 44) as usize,
        maxn: i32_from(d, 48) as usize,
        lr_update_rate: i32_from(d, 52),
        t_bits: u64_from(d, 56),
    };
    Ok(Header { args, dict_size: i32_from(d, 64), prune_size: i64_from(d, 84) })
}

fn find_nul(d: &[u8], p: usize) -> (r: Option<usize>)
    requires
        p <= d@.len(),
    ensures
        match r {
            Some(q) => nul_from(d@, p as int) == Some(q as int) && p <= q < d@.len(),
            None => nul_from(d@, p as int) is None,
        },
{
    let mut i = p;
    while i < d.len()
        invariant
            p <= i <= d@.len(),
            nul_from(d@, p as int) == nul_from(d@, i as int),
            d@.len() == d.len(),
        decreases d.len() - i,
    {
        if d[i] == 0 {
            return Some(i);
        }
        i = i + 1;
    }
    None
}

/// The dictionary read so far.
struct DictParts {
    words: Vec<String>,
    labels: Vec<String>,
    label_counts: Vec<i64>,
    word2id: WordIndex,
    label2id: WordIndex,
}

spec fn parts_hold(dp: DictParts, es: Seq<Entry>) -> bool {
    let ws = entry_words(es);
    let ls = entry_labels(es);
    &&& dp.words@.len() == ws.len()
    &&& forall|i: int| 0 <= i < ws.len() ==> decoded_entry((#[trigger] dp.words@[i])@, ws[i])
    &&& dp.labels@.len() == ls.len()
    &&& forall|i: int| 0 <= i < ls.len() ==> decoded_entry((#[trigger] dp.labels@[i])@, ls[i])
    &&& dp.label_counts@ == entry_label_counts(es)
    &&& dp.word2id.indexes(strings_bytes(dp.words@))
    &&& dp.label2id.indexes(strings_bytes(dp.labels@))
}

proof fn lemma_entries_err(d: Seq<u8>, p: int, m: nat, n: nat)
    requires
        m <= n,
        entries_upto(d, p, m) is Err,
    ensures
        entries_upto(d, p, n) == entries_upto(d, p, m),
    decreases n,
{
    if n > m {
        lemma_entries_err(d, p, m, (n - 1) as nat);
    }
}

fn read_dictionary(d: &[u8], p: usize, n: usize) -> (r: Result<(DictParts, usize), LoadError>)
    requires
        p <= d@.len(),
    ensures
        match entries_upto(d@, p as int, n as nat) {
            Ok((es, q)) => r matches Ok((dp, q2)) && parts_hold(dp, es) && q2 == q,
            Err(e) => r matches Err(e2) && e2 == e,
        },
{
    let mut dp = DictParts {
        words: Vec::new(),
        labels: Vec::new(),
        label_counts: Vec::new(),
        word2id: WordIndex::new(),
        label2id: WordIndex::new(),
    };
    let ghost mut es: Seq<Entry> = Seq::empty();
    let mut pos = p;
    let mut e: usize = 0;
    proof {
        assert(strings_bytes(dp.words@) =~= Seq::<Seq<u8>>::empty());
        assert(strings_bytes(dp.labels@) =~= Seq::<Seq<u8>>::empty());
        assert(entry_label_counts(es) =~= dp.label_counts@);
    }
    while e < n
        invariant
            pos <= d@.len(),
            d@.len() == d.len(),
            e <= n,
            entries_upto(d@, p as int, e as nat) == Ok::<(Seq<Entry>, int), LoadError>(
                (es, pos as int),
            ),
            parts_hold(dp, es),
        decreases n - e,
    {
        let q = match find_nul(d, pos) {
            None => {
                proof {
                    assert(entries_upto(d@, p as int, (e + 1) as nat) is Err);
                    lemma_entries_err(d@, p as int, (e + 1) as nat, n as nat);
                }
                return Err(LoadError::UnexpectedEof);
            },
            Some(q) => q,
        };
        if d.len() - q < 10 {
            proof {
                assert(entries_upto(d@, p as int, (e + 1) as nat) is Err);
                lemma_entries_err(d@, p as int, (e + 1) as nat, n as nat);
            }
            return Err(LoadError::UnexpectedEof);
        }
        let word = string_from_utf8_lossy(slice_subrange(d, pos, q));
        proof {
            let raw = d@.subrange(pos as int, q as int);
            if valid_utf8(raw) {
                decode_utf8_encode_utf8(raw);
            }
            assert(decoded_entry(word@, raw));
        }
        let count = i64_from(d, q + 1);
        let kind = d[q + 9];
        let ghost entry = Entry { word: d@.subrange(pos as int, q as int), count, kind };
        let ghost old_dp = dp;
        if kind == 0 {
            dp.words.push(word);
            proof {
                assert(dp.words@.drop_last() =~= old_dp.words@);
            }
            dp.word2id.add_last(&dp.words);
        } else if kind == 1 {
            dp.labels.push(word);
            proof {
                assert(dp.labels@.drop_last() =~= old_dp.labels@);
            }
            dp.label2id.add_last(&dp.labels);
            dp.label_counts.push(count);
        }
        proof {
            let nes = es.push(entry);
            assert(nes.drop_last() =~= es);
            assert(entry_at(d@, pos as int) == Ok::<(Entry, int), LoadError>((entry, q + 10)));
            es = nes;
            assert(parts_hold(dp, es));
        }
        pos = q + 10;
        e = e + 1;
    }
    Ok((dp, pos))
}

fn read_matrix(d: &[u8], p: usize, quant: LoadError) -> (r: Result<(Vec<u32>, usize), LoadError>)
    requires
        p <= d@.len(),
    ensures
        match matrix_at(d@, p as int, quant) {
            Ok((v, q)) => r matches Ok((w, q2)) && w@ == v && q2 == q,
            Err(e) => r matches Err(e2) && e2 == e,
        },
{
    if d.len() - p < 1 {
        return Err(LoadError::UnexpectedEof);
    }
    if d[p] != 0 {
        return Err(quant);
    }
    if d.len() - p < 17 {
        return Err(LoadError::UnexpectedEof);
    }
    let rows = i64_from(d, p + 1);
    let cols = i64_from(d, p + 9);
    let n = (rows as usize).wrapping_mul(cols as usize);
    let start = p + 17;
    proof {
        assert(n as int == matrix_len(rows, cols));
    }
    if n > (d.len() - start) / 4 {
        return Err(LoadError::UnexpectedEof);
    }
    let mut v: Vec<u32> = Vec::with_capacity(n);
    let mut i: usize = 0;
    while i < n
        invariant
            start == p + 17,
            start + 4 * n <= d@.len(),
            d@.len() == d.len(),
            i <= n,
            v@ =~= Seq::new(i as nat, |k: int| u32_at(d@, start + 4 * k)),
        decreases n - i,
    {
        v.push(u32_from(d, start + 4 * i));
        i = i + 1;
    }
    Ok((v, start + 4 * n))
}

fn counts_fit_tree(counts: &[i64]) -> (r: bool)
    ensures
        r == huffman_counts_ok(counts@),
{
    if counts.len() > 0x4000_0000 {
        return false;
    }
    let mut i: usize = 0;
    while i < counts.len()
        invariant
            i <= counts@.len(),
            forall|x: int| 0 <= x < i ==> counts@[x] < i64::MAX,
        decreases counts.len() - i,
    {
        if counts[i] == i64::MAX {
            return false;
        }
        i = i + 1;
    }
    true
}

proof fn lemma_label_counts_len(es: Seq<Entry>)
    ensures
        entry_label_counts(es).len() == entry_labels(es).len(),
    decreases es.len(),
{
    if es.len() > 0 {
        lemma_label_counts_len(es.drop_last());
    }
}

fn load_rest(d: &[u8], args: Args, dp: DictParts, p: usize, Ghost(es): Ghost<Seq<Entry>>) -> (r:
    Result<Model, LoadError>)
    requires
        p <= d@.len(),
        parts_hold(dp, es),
    ensures
        match spec_load_rest(d@, args, es, p as int) {
            Ok(l) => r matches Ok(m) && m.wf() && m.holds(l),
            Err(e) => r matches Err(e2) && e2 == e,
        },
{
    let (paths, codes) = if args.loss == 1 {
        if !counts_fit_tree(dp.label_counts.as_slice()) {
            return Err(LoadError::InvalidLabelTree);
        }
        build_huffman_tree(dp.label_counts.as_slice())
    } else {
        (Vec::new(), Vec::new())
    };
    let (win, p3) = match read_matrix(d, p, LoadError::QuantizedInput) {
        Err(e) => return Err(e),
        Ok(x) => x,
    };
    let (wout, _) = match read_matrix(d, p3, LoadError::QuantizedOutput) {
        Err(e) => return Err(e),
        Ok(x) => x,
    };
    let num_words = dp.words.len();
    let num_labels = dp.labels.len();
    let m = Model {
        args,
        words: dp.words,
        labels: dp.labels,
        label_counts: dp.label_counts,
        word2id: dp.word2id,
        label2id: dp.label2id,
        num_words,
        num_labels,
        win,
        wout,
        paths,
        codes,
    };
    proof {
        let l = spec_load_rest(d@, args, es, p as int)->Ok_0;
        assert(l.win == win@);
        assert(l.wout == wout@);
        lemma_label_counts_len(es);
        assert(m.wf());
        assert(m.holds(l));
    }
    Ok(m)
}

impl Model {
    /// Reads a fastText `.bin` model from its bytes (see `spec_load`).
    pub fn load_from_bytes(data: &[u8]) -> (r: Result<Model, LoadError>)
        ensures
            match spec_load(data@) {
                Ok(l) => r matches Ok(m) && m.wf() && m.holds(l),
                Err(e) => r matches Err(e2) && e2 == e,
            },
    {
        let h = match read_header(data) {
            Err(e) => return Err(e),
            Ok(h) => h,
        };
        let mut pos: usize = 92;
        if h.prune_size > 0 {
            if (h.prune_size as u64) > ((data.len() - 92) / 8) as u64 {
                proof {
                    lemma_load_past_end(data@);
                }
                return Err(LoadError::UnexpectedEof);
            }
            pos = 92 + (h.prune_size as usize) * 8;
        }
        proof {
            assert(pos as int == entries_start(h));
        }
        let n = h.dict_size as usize;
        let ghost pe = entries_upto(data@, pos as int, n as nat);
        match read_dictionary(data, pos, n) {
            Err(e) => Err(e),
            Ok((dp, p2)) => {
                let ghost es = pe->Ok_0.0;
                load_rest(data, h.args, dp, p2, Ghost(es))
            },
        }
    }
}

/// A pruning table that runs past the end of the file makes the next read
/// fail, whatever it is.
proof fn lemma_load_past_end(d: Seq<u8>)
    requires
        spec_header(d) is Ok,
        entries_start(spec_header(d)->Ok_0) > d.len(),
    ensures
        spec_load(d) == Err::<LoadedModel, LoadError>(LoadError::UnexpectedEof),
{
    let h = spec_header(d)->Ok_0;
    let p = entries_start(h);
    let n = (h.dict_size as usize) as nat;
    if n > 0 {
        assert(entries_upto(d, p, 0) == Ok::<(Seq<Entry>, int), LoadError>((Seq::empty(), p)));
        assert(entries_upto(d, p, 1) is Err);
        lemma_entries_err(d, p, 1, n);
    } else {
        reveal_with_fuel(entry_label_counts, 1);
        assert(entry_label_counts(Seq::<Entry>::empty()) =~= Seq::<i64>::empty());
    }
}

/// Law: the arguments of a loaded model are the little-endian fields of the
/// header in fastText's order: `dim` at byte 8, then `ws`, `epoch`,
/// `minCount`, `neg`, `wordNgrams`, `loss`, `model`, `bucket`, `minn` (byte
/// 44), `maxn` (byte 48), `lrUpdateRate`, each four bytes, and the eight
/// bytes of `t` at byte 56.
pub proof fn lemma_loaded_header_fields(d: Seq<u8>)
    requires
        spec_load(d) is Ok,
    ensures
        ({
            let a = spec_load(d)->Ok_0.args;
            &&& a.dim == le_i32(d.subrange(8, 12)) as usize
            &&& a.ws == le_i32(d.subrange(12, 16))
            &&& a.epoch == le_i32(d.subrange(16, 20))
            &&& a.min_count == le_i32(d.subrange(20, 24))
            &&& a.neg == le_i32(d.subrange(24, 28))
            &&& a.word_ngrams == le_i32(d.subrange(28, 32))
            &&& a.loss == le_i32(d.subrange(32, 36))
            &&& a.model == le_i32(d.subrange(36, 40))
            &&& a.bucket == le_i32(d.subrange(40, 44)) as usize
            &&& a.minn == le_i32(d.subrange(44, 48)) as usize
            &&& a.maxn == le_i32(d.subrange(48, 52)) as usize
            &&& a.lr_update_rate == le_i32(d.subrange(52, 56))
            &&& a.t_bits == le_u64(d.subrange(56, 64))
        }),
{
}

/// Where a loadable model file ends: just past its output matrix.
pub open spec fn spec_load_end(d: Seq<u8>) -> int {
    let h = spec_header(d)->Ok_0;
    let p = entries_upto(d, entries_start(h), (h.dict_size as usize) as nat)->Ok_0.1;
    let q = matrix_at(d, p, LoadError::QuantizedInput)->Ok_0.1;
    matrix_at(d, q, LoadError::QuantizedOutput)->Ok_0.1
}

proof fn lemma_take_subranges(d: Seq<u8>, n: int)
    requires
        0 <= n <= d.len(),
    ensures
        forall|a: int, b: int|
            0 <= a <= b <= n ==> #[trigger] d.take(n).subrange(a, b) == d.subrange(a, b),
{
    assert forall|a: int, b: int| 0 <= a <= b <= n implies #[trigger] d.take(n).subrange(a, b)
        == d.subrange(a, b) by {
        assert(d.take(n).subrange(a, b) =~= d.subrange(a, b));
    }
}

proof fn lemma_nul_found(d: Seq<u8>, p: int)
    requires
        nul_from(d, p) is Some,
    ensures
        p <= nul_from(d, p)->Some_0 < d.len(),
        0 <= p,
    decreases d.len() - p,
{
    if d[p] != 0 {
        lemma_nul_found(d, p + 1);
    }
}

proof fn lemma_nul_prefix(d: Seq<u8>, n: int, p: int)
    requires
        0 <= n <= d.len(),
        nul_from(d, p) is Some,
    ensures
        nul_from(d.take(n), p) == if nul_from(d, p)->Some_0 < n {
            nul_from(d, p)
        } else {
            None::<int>
        },
    decreases d.len() - p,
{
    lemma_nul_found(d, p);
    if p < n {
        assert(d.take(n)[p] == d[p]);
        if d[p] != 0 {
            lemma_nul_prefix(d, n, p + 1);
        }
    }
}

proof fn lemma_entry_prefix(d: Seq<u8>, n: int, p: int)
    requires
        0 <= n <= d.len(),
        entry_at(d, p) is Ok,
    ensures
        p < entry_at(d, p)->Ok_0.1 <= d.len(),
        entry_at(d.take(n), p) == if entry_at(d, p)->Ok_0.1 <= n {
            entry_at(d, p)
        } else {
            Err::<(Entry, int), LoadError>(LoadError::UnexpectedEof)
        },
{
    lemma_nul_prefix(d, n, p);
    lemma_nul_found(d, p);
    let q = nul_from(d, p)->Some_0;
    if q + 10 <= n {
        lemma_take_subranges(d, n);
        assert(d.take(n).subrange(p, q) == d.subrange(p, q));
        assert(d.take(n).subrange(q + 1, q + 9) == d.subrange(q + 1, q + 9));
        assert(d.take(n)[q + 9] == d[q + 9]);
    }
}

proof fn lemma_entries_prefix(d: Seq<u8>, n: int, p: int, m: nat)
    requires
        0 <= n <= d.len(),
        0 <= p,
        entries_upto(d, p, m) is Ok,
    ensures
        p <= entries_upto(d, p, m)->Ok_0.1,
        entries_upto(d, p, m)->Ok_0.1 <= n ==> entries_upto(d.take(n), p, m) == entries_upto(
            d,
            p,
            m,
        ),
        entries_upto(d.take(n), p, m) == entries_upto(d, p, m) || (entries_upto(d, p, m)->Ok_0.1
            > n && entries_upto(d.take(n), p, m) == Err::<(Seq<Entry>, int), LoadError>(
            LoadError::UnexpectedEof,
        )),
    decreases m,
{
    if m > 0 {
        lemma_entries_prefix(d, n, p, (m - 1) as nat);
        let q = entries_upto(d, p, (m - 1) as nat)->Ok_0.1;
        lemma_entry_prefix(d, n, q);
    }
}

proof fn lemma_matrix_prefix(d: Seq<u8>, n: int, p: int, quant: LoadError)
    requires
        0 <= n <= d.len(),
        matrix_at(d, p, quant) is Ok,
    ensures
        p + 17 <= matrix_at(d, p, quant)->Ok_0.1 <= d.len(),
        matrix_at(d.take(n), p, quant) == if matrix_at(d, p, quant)->Ok_0.1 <= n {
            matrix_at(d, p, quant)
        } else {
            Err::<(Seq<u32>, int), LoadError>(LoadError::UnexpectedEof)
        },
{
    let e = d.take(n);
    if p + 17 <= n {
        lemma_take_subranges(d, n);
        assert(e[p] == d[p]);
        assert(e.subrange(p + 1, p + 9) == d.subrange(p + 1, p + 9));
        assert(e.subrange(p + 9, p + 17) == d.subrange(p + 9, p + 17));
        let len = matrix_len(i64_at(d, p + 1), i64_at(d, p + 9));
        if p + 17 + 4 * len <= n {
            assert forall|i: int| 0 <= i < len implies #[trigger] u32_at(e, p + 17 + 4 * i) == u32_at(
                d,
                p + 17 + 4 * i,
            ) by {
                assert(e.subrange(p + 17 + 4 * i, p + 17 + 4 * i + 4) == d.subrange(
                    p + 17 + 4 * i,
                    p + 17 + 4 * i + 4,
                ));
            }
            assert(Seq::new(len as nat, |i: int| u32_at(e, p + 17 + 4 * i)) =~= Seq::new(
                len as nat,
                |i: int| u32_at(d, p + 17 + 4 * i),
            ));
        }
    } else if p + 1 <= n {
        assert(e[p] == d[p]);
    }
}

/// Law: a model file is read up to the end of its output matrix and no
/// further. A prefix of a loadable file that reaches that end loads the same
/// model; every shorter prefix is refused with `UnexpectedEof`.
pub proof fn lemma_load_prefix(d: Seq<u8>, n: int)
    requires
        spec_load(d) is Ok,
        0 <= n <= d.len(),
    ensures
        spec_load_end(d) <= d.len(),
        spec_load(d.take(n)) == if n >= spec_load_end(d) {
            spec_load(d)
        } else {
            Err::<LoadedModel, LoadError>(LoadError::UnexpectedEof)
        },
{
    let e = d.take(n);
    let h = spec_header(d)->Ok_0;
    let start = entries_start(h);
    let m = (h.dict_size as usize) as nat;
    lemma_entries_prefix(d, n, start, m);
    let p = entries_upto(d, start, m)->Ok_0.1;
    let es = entries_upto(d, start, m)->Ok_0.0;
    lemma_matrix_prefix(d, n, p, LoadError::QuantizedInput);
    let q = matrix_at(d, p, LoadError::QuantizedInput)->Ok_0.1;
    lemma_matrix_prefix(d, n, q, LoadError::QuantizedOutput);
    lemma_take_subranges(d, n);
    if 4 <= n < 92 {
        assert(e.subrange(0, 4) == d.subrange(0, 4));
        if n >= 8 {
            assert(e.subrange(4, 8) == d.subrange(4, 8));
        }
    } else if n >= 92 {
        assert(spec_header(e) == spec_header(d)) by {
            assert(e.subrange(0, 4) == d.subrange(0, 4));
            assert(e.subrange(4, 8) == d.subrange(4, 8));
            assert(header_args(e) == header_args(d)) by {
                assert(e.subrange(8, 12) == d.subrange(8, 12));
                assert(e.subrange(12, 16) == d.subrange(12, 16));
                assert(e.subrange(16, 20) == d.subrange(16, 20));
                assert(e.subrange(20, 24) == d.subrange(20, 24));
                assert(e.subrange(24, 28) == d.subrange(24, 28));
                assert(e.subrange(28, 32) == d.subrange(28, 32));
                assert(e.subrange(32, 36) == d.subrange(32, 36));
                assert(e.subrange(36, 40) == d.subrange(36, 40));
                assert(e.subrange(40, 44) == d.subrange(40, 44));
                assert(e.subrange(44, 48) == d.subrange(44, 48));
                assert(e.subrange(48, 52) == d.subrange(48, 52));
                assert(e.subrange(52, 56) == d.subrange(52, 56));
                assert(e.subrange(56, 64) == d.subrange(56, 64));
            }
            assert(e.subrange(64, 68) == d.subrange(64, 68));
            assert(e.subrange(84, 92) == d.subrange(84, 92));
        }
        if entries_upto(e, start, m) == entries_upto(d, start, m) {
            if p + 1 > n {
                assert(matrix_at(e, p, LoadError::QuantizedInput) is Err);
            }
        }
    }
}

/// `d2` has at least the bytes of `d`, and equal bytes from `s` on.
pub open spec fn agrees_from(d: Seq<u8>, d2: Seq<u8>, s: int) -> bool {
    &&& 0 <= s
    &&& d.len() <= d2.len()
    &&& forall|k: int| s <= k < d.len() ==> d2[k] == d[k]
}

proof fn lemma_agree_subranges(d: Seq<u8>, d2: Seq<u8>, s: int)
    requires
        agrees_from(d, d2, s),
    ensures
        forall|a: int, b: int|
            s <= a <= b <= d.len() ==> #[trigger] d2.subrange(a, b) == d.subrange(a, b),
{
    assert forall|a: int, b: int| s <= a <= b <= d.len() implies #[trigger] d2.subrange(a, b)
        == d.subrange(a, b) by {
        assert(d2.subrange(a, b) =~= d.subrange(a, b));
    }
}

proof fn lemma_nul_agree(d: Seq<u8>, d2: Seq<u8>, s: int, p: int)
    requires
        agrees_from(d, d2, s),
        s <= p,
        nul_from(d, p) is Some,
    ensures
        nul_from(d2, p) == nul_from(d, p),
    decreases d.len() - p,
{
    lemma_nul_found(d, p);
    if d[p] != 0 {
        lemma_nul_agree(d, d2, s, p + 1);
    }
}

proof fn lemma_entry_agree(d: Seq<u8>, d2: Seq<u8>, s: int, p: int)
    requires
        agrees_from(d, d2, s),
        s <= p,
        entry_at(d, p) is Ok,
    ensures
        entry_at(d2, p) == entry_at(d, p),
        p < entry_at(d, p)->Ok_0.1,
{
    lemma_nul_agree(d, d2, s, p);
    lemma_nul_found(d, p);
    lemma_agree_subranges(d, d2, s);
    let q = nul_from(d, p)->Some_0;
    assert(d2.subrange(p, q) == d.subrange(p, q));
    assert(d2.subrange(q + 1, q + 9) == d.subrange(q + 1, q + 9));
}

proof fn lemma_entries_agree(d: Seq<u8>, d2: Seq<u8>, s: int, p: int, m: nat)
    requires
        agrees_from(d, d2, s),
        s <= p,
        entries_upto(d, p, m) is Ok,
    ensures
        entries_upto(d2, p, m) == entries_upto(d, p, m),
        p <= entries_upto(d, p, m)->Ok_0.1,
    decreases m,
{
    if m > 0 {
        lemma_entries_agree(d, d2, s, p, (m - 1) as nat);
        lemma_entry_agree(d, d2, s, entries_upto(d, p, (m - 1) as nat)->Ok_0.1);
    }
}

proof fn lemma_matrix_agree(d: Seq<u8>, d2: Seq<u8>, s: int, p: int, quant: LoadError)
    requires
        agrees_from(d, d2, s),
        s <= p,
        matrix_at(d, p, quant) is Ok,
    ensures
        matrix_at(d2, p, quant) == matrix_at(d, p, quant),
        p < matrix_at(d, p, quant)->Ok_0.1,
{
    lemma_agree_subranges(d, d2, s);
    assert(d2.subrange(p + 1, p + 9) == d.subrange(p + 1, p + 9));
    assert(d2.subrange(p + 9, p + 17) == d.subrange(p + 9, p + 17));
    let len = matrix_len(i64_at(d, p + 1), i64_at(d, p + 9));
    assert forall|i: int| 0 <= i < len implies #[trigger] u32_at(d2, p + 17 + 4 * i) == u32_at(
        d,
        p + 17 + 4 * i,
    ) by {
        assert(d2.subrange(p + 17 + 4 * i, p + 17 + 4 * i + 4) == d.subrange(
            p + 17 + 4 * i,
            p + 17 + 4 * i + 4,
        ));
    }
    assert(Seq::new(len as nat, |i: int| u32_at(d2, p + 17 + 4 * i)) =~= Seq::new(
        len as nat,
        |i: int| u32_at(d, p + 17 + 4 * i),
    ));
}

/// What follows the header is read the same from any bytes that agree with
/// the file from the start of the dictionary on.
proof fn lemma_load_agree(d: Seq<u8>, d2: Seq<u8>)
    requires
        spec_load(d) is Ok,
        spec_header(d2) == spec_header(d),
        agrees_from(d, d2, entries_start(spec_header(d)->Ok_0)),
    ensures
        spec_load(d2) == spec_load(d),
{
    let h = spec_header(d)->Ok_0;
    let start = entries_start(h);
    let m = (h.dict_size as usize) as nat;
    lemma_entries_agree(d, d2, start, start, m);
    let p = entries_upto(d, start, m)->Ok_0.1;
    lemma_matrix_agree(d, d2, start, p, LoadError::QuantizedInput);
    let q = matrix_at(d, p, LoadError::QuantizedInput)->Ok_0.1;
    lemma_matrix_agree(d, d2, start, q, LoadError::QuantizedOutput);
}

proof fn lemma_header_agree(d: Seq<u8>, d2: Seq<u8>)
    requires
        spec_header(d) is Ok,
        agrees_from(d.take(92), d2, 0),
    ensures
        spec_header(d2) == spec_header(d),
{
    let e = d.take(92);
    lemma_agree_subranges(e, d2, 0);
    assert forall|a: int, b: int| 0 <= a <= b <= 92 implies #[trigger] d2.subrange(a, b)
        == d.subrange(a, b) by {
        assert(e.subrange(a, b) =~= d.subrange(a, b));
    }
    assert(d2.subrange(0, 4) == d.subrange(0, 4));
    assert(d2.subrange(4, 8) == d.subrange(4, 8));
    assert(header_args(d2) == header_args(d)) by {
        assert(d2.subrange(8, 12) == d.subrange(8, 12));
        assert(d2.subrange(12, 16) == d.subrange(12, 16));
        assert(d2.subrange(16, 20) == d.subrange(16, 20));
        assert(d2.subrange(20, 24) == d.subrange(20, 24));
        assert(d2.subrange(24, 28) == d.subrange(24, 28));
        assert(d2.subrange(28, 32) == d.subrange(28, 32));
        assert(d2.subrange(32, 36) == d.subrange(32, 36));
        assert(d2.subrange(36, 40) == d.subrange(36, 40));
        assert(d2.subrange(40, 44) == d.subrange(40, 44));
        assert(d2.subrange(44, 48) == d.subrange(44, 48));
        assert(d2.subrange(48, 52) == d.subrange(48, 52));
        assert(d2.subrange(52, 56) == d.subrange(52, 56));
        assert(d2.subrange(56, 64) == d.subrange(56, 64));
    }
    assert(d2.subrange(64, 68) == d.subrange(64, 68));
    assert(d2.subrange(84, 92) == d.subrange(84, 92));
}

/// Law: bytes after the output matrix are never read; appending any bytes
/// to a loadable file loads the same model.
pub proof fn lemma_load_ignores_trailing_bytes(d: Seq<u8>, extra: Seq<u8>)
    requires
        spec_load(d) is Ok,
    ensures
        spec_load(d + extra) == spec_load(d),
{
    let d2 = d + extra;
    assert(agrees_from(d.take(92), d2, 0)) by {
        assert forall|k: int| 0 <= k < d.take(92).len() implies d2[k] == d.take(92)[k] by {
            assert(d2[k] == d[k]);
        }
    }
    lemma_header_agree(d, d2);
    assert(agrees_from(d, d2, entries_start(spec_header(d)->Ok_0))) by {
        assert forall|k: int| 0 <= k < d.len() implies d2[k] == d[k] by {}
    }
    lemma_load_agree(d, d2);
}

/// Law: the pruning table is skipped, not read; replacing its bytes by any
/// others loads the same model.
pub proof fn lemma_load_ignores_pruning_table(d: Seq<u8>, d2: Seq<u8>)
    requires
        spec_load(d) is Ok,
        d2.len() == d.len(),
        forall|k: int|
            0 <= k < d.len() && (k < 92 || k >= entries_start(spec_header(d)->Ok_0)) ==> #[trigger] d2[k]
                == d[k],
    ensures
        spec_load(d2) == spec_load(d),
{
    assert(agrees_from(d.take(92), d2, 0)) by {
        assert forall|k: int| 0 <= k < d.take(92).len() implies d2[k] == d.take(92)[k] by {
            assert(d2[k] == d[k]);
        }
    }
    lemma_header_agree(d, d2);
    lemma_load_agree(d, d2);
}

impl Model {
    /// The position of the word with these bytes (the last one, should the
    /// dictionary hold it twice).
    pub fn word_id(&self, token: &[u8]) -> (r: Option<usize>)
        requires
            self.wf(),
        ensures
            match r {
                Some(i) => last_index_of(self.word_bytes(), token@) == Some(i as int),
                None => last_index_of(self.word_bytes(), token@) is None,
            },
    {
        self.word2id.find(&self.words, token)
    }

    /// The position of the label with these bytes (the last one, should the
    /// dictionary hold it twice).
    pub fn label_id(&self, token: &[u8]) -> (r: Option<usize>)
        requires
            self.wf(),
        ensures
            match r {
                Some(i) => last_index_of(self.label_bytes(), token@) == Some(i as int),
                None => last_index_of(self.label_bytes(), token@) is None,
            },
    {
        self.label2id.find(&self.labels, token)
    }

    /// The input-matrix row of subword bucket `b`: row `num_words + b`, when
    /// that whole row lies in `win` (rows are `dim` entries long).
    pub open spec fn spec_bucket_id(&self, b: int) -> Option<usize> {
        let id = self.num_words + b;
        if 0 <= id <= usize::MAX && (id + 1) * self.args.dim <= self.win@.len() {
            Some(id as usize)
        } else {
            None
        }
    }

    /// The input-matrix row of subword bucket `b` (see `spec_bucket_id`).
    pub fn bucket_id(&self, b: usize) -> (r: Option<usize>)
        ensures
            r == self.spec_bucket_id(b as int),
    {
        if b > usize::MAX - self.num_words {
            return None;
        }
        let id = self.num_words + b;
        let dim = self.args.dim;
        if dim == 0 {
            proof {
                assert((id + 1) * dim == 0) by (nonlinear_arith)
                    requires
                        dim == 0,
                ;
            }
            return Some(id);
        }
        let rows = self.win.len() / dim;
        proof {
            let len = self.win@.len() as int;
            assert((id < rows) == ((id + 1) * dim <= len)) by (nonlinear_arith)
                requires
                    dim > 0,
                    rows == len / dim as int,
                    len >= 0,
                    id >= 0,
            {
                if id < rows {
                    assert((id + 1) * dim <= rows * dim);
                    assert(rows * dim <= len);
                } else {
                    assert((id + 1) * dim >= (rows + 1) * dim);
                    assert((rows + 1) * dim > len);
                }
            }
        }
        if id < rows {
            Some(id)
        } else {
            None
        }
    }
}

} // verus!
