use vstd::prelude::*;
use vstd::string::*;
use vstd::utf8::*;

verus! {

/// FNV-1a offset basis used by fastText.
pub open spec fn hash_offset() -> u32 {
    2166136261u32
}

/// FNV-1a prime used by fastText.
pub open spec fn hash_prime() -> u32 {
    16777619u32
}

/// A byte taken as `i8` and widened back to `u32` (sign extension), as
/// upstream does for compatibility with old models.
pub open spec fn sign_extend(b: u8) -> u32 {
    if b < 128 {
        b as u32
    } else {
        (b as int + 0xFFFF_FF00) as u32
    }
}

/// One step of the fastText hash: xor the sign-extended byte, then multiply
/// by the FNV prime modulo 2^32.
pub open spec fn spec_hash_byte(h: u32, b: u8) -> u32 {
    (((h ^ sign_extend(b)) as nat * hash_prime() as nat) % 0x1_0000_0000) as u32
}

/// The fastText hash of a byte string: a left fold of `spec_hash_byte`
/// starting at the offset basis.
pub open spec fn spec_hash(s: Seq<u8>) -> u32
    decreases s.len(),
{
    if s.len() == 0 {
        hash_offset()
    } else {
        spec_hash_byte(spec_hash(s.drop_last()), s.last())
    }
}

fn hash_byte(h: u32, b: u8) -> (r: u32)
    ensures
        r == spec_hash_byte(h, b),
{
    let e: u32 = (b as i8) as u32;
    assert(e == sign_extend(b)) by (bit_vector)
        requires
            e == (b as i8) as u32,
    ;
    (h ^ e).wrapping_mul(16777619)
}

/// The 32-bit FNV-1a variant that fastText uses for words and subwords.
pub fn fasttext_hash(bytes: &[u8]) -> (h: u32)
    ensures
        h == spec_hash(bytes@),
{
    let mut h: u32 = 2166136261;
    let mut i: usize = 0;
    while i < bytes.len()
        invariant
            i <= bytes.len(),
            h == spec_hash(bytes@.subrange(0, i as int)),
        decreases bytes.len() - i,
    {
        assert(bytes@.subrange(0, i + 1).drop_last() =~= bytes@.subrange(0, i as int));
        h = hash_byte(h, bytes[i]);
        i = i + 1;
    }
    assert(bytes@.subrange(0, bytes.len() as int) =~= bytes@);
    h
}


/// The bytes on which fastText splits a line: space, LF, CR, tab, vertical
/// tab, form feed and NUL. Punctuation and non-ASCII whitespace are not
/// separators.
pub open spec fn is_separator(b: u8) -> bool {
    b == 32 || b == 10 || b == 13 || b == 9 || b == 11 || b == 12 || b == 0
}

/// The pieces of `s` between separators, empty pieces included (the result of
/// splitting at every separator byte).
pub open spec fn spec_pieces(s: Seq<u8>) -> Seq<Seq<u8>>
    decreases s.len(),
{
    if s.len() == 0 {
        seq![Seq::<u8>::empty()]
    } else {
        let p = spec_pieces(s.drop_last());
        if is_separator(s.last()) {
            p.push(Seq::<u8>::empty())
        } else {
            p.update(p.len() - 1, p.last().push(s.last()))
        }
    }
}

/// The non-empty pieces, in order.
pub open spec fn nonempty_pieces(ps: Seq<Seq<u8>>) -> Seq<Seq<u8>> {
    ps.filter(|p: Seq<u8>| p.len() > 0)
}

/// The tokens of `s`: its non-empty pieces, in order.
pub open spec fn spec_tokens(s: Seq<u8>) -> Seq<Seq<u8>> {
    nonempty_pieces(spec_pieces(s))
}

/// The bytes of each string of a sequence.
pub open spec fn str_bytes<'a>(v: Seq<&'a str>) -> Seq<Seq<u8>> {
    v.map_values(|t: &'a str| t.spec_bytes())
}

fn is_separator_byte(b: u8) -> (r: bool)
    ensures
        r == is_separator(b),
{
    b == 32 || b == 10 || b == 13 || b == 9 || b == 11 || b == 12 || b == 0
}

proof fn lemma_pieces_nonempty(s: Seq<u8>)
    ensures
        spec_pieces(s).len() >= 1,
    decreases s.len(),
{
    if s.len() > 0 {
        lemma_pieces_nonempty(s.drop_last());
    }
}

/// The pieces already closed off by a separator: all but the last piece.
spec fn closed_pieces(s: Seq<u8>) -> Seq<Seq<u8>> {
    spec_pieces(s).take(spec_pieces(s).len() - 1)
}

/// In a valid UTF-8 string, an ASCII byte starts a character, and cutting
/// right after it leaves valid UTF-8 on both sides.
proof fn lemma_split_around_ascii(bytes: Seq<u8>, k: int)
    requires
        valid_utf8(bytes),
        0 <= k < bytes.len(),
        bytes[k] < 0x80,
    ensures
        is_char_boundary(bytes, k),
        valid_utf8(bytes.subrange(k, bytes.len() as int)),
        is_char_boundary(bytes.subrange(k, bytes.len() as int), 1),
        valid_utf8(bytes.subrange(k + 1, bytes.len() as int)),
{
    is_char_boundary_iff_not_is_continuation_byte(bytes, k);
    valid_utf8_split(bytes, k);
    let tail = bytes.subrange(k, bytes.len() as int);
    reveal_with_fuel(is_char_boundary, 2);
    assert(is_char_boundary(tail, 1));
    valid_utf8_split(tail, 1);
    assert(tail.subrange(1, tail.len() as int) =~= bytes.subrange(k + 1, bytes.len() as int));
}

/// Pieces of a prefix extended by one byte: a separator closes the current
/// piece, any other byte extends it.
proof fn lemma_pieces_step(s: Seq<u8>, start: int, i: int)
    requires
        0 <= start <= i < s.len(),
        spec_pieces(s.subrange(0, i)) == closed_pieces(s.subrange(0, start)).push(
            s.subrange(start, i),
        ),
    ensures
        is_separator(s[i]) ==> spec_pieces(s.subrange(0, i + 1)) == closed_pieces(
            s.subrange(0, start),
        ).push(s.subrange(start, i)).push(Seq::<u8>::empty()),
        is_separator(s[i]) ==> closed_pieces(s.subrange(0, i + 1)) == closed_pieces(
            s.subrange(0, start),
        ).push(s.subrange(start, i)),
        is_separator(s[i]) ==> spec_pieces(s.subrange(0, i + 1)) == closed_pieces(
            s.subrange(0, i + 1),
        ).push(s.subrange(i + 1, i + 1)),
        !is_separator(s[i]) ==> spec_pieces(s.subrange(0, i + 1)) == closed_pieces(
            s.subrange(0, start),
        ).push(s.subrange(start, i + 1)),
{
    let t = s.subrange(0, i + 1);
    assert(t.drop_last() =~= s.subrange(0, i));
    assert(t.last() == s[i]);
    let c = closed_pieces(s.subrange(0, start));
    if is_separator(s[i]) {
        let np = c.push(s.subrange(start, i));
        assert(np.push(Seq::<u8>::empty()).take(np.len() as int) =~= np);
        assert(s.subrange(i + 1, i + 1) =~= Seq::<u8>::empty());
    } else {
        assert(s.subrange(start, i + 1) =~= s.subrange(start, i).push(s[i]));
        let p = c.push(s.subrange(start, i));
        assert(p.update(p.len() - 1, p.last().push(s[i])) =~= c.push(s.subrange(start, i + 1)));
    }
}

/// Filtering the non-empty pieces commutes with appending one piece.
proof fn lemma_filter_push_piece(c: Seq<Seq<u8>>, piece: Seq<u8>)
    ensures
        c.push(piece).filter(|p: Seq<u8>| p.len() > 0) == if piece.len() > 0 {
            c.filter(|p: Seq<u8>| p.len() > 0).push(piece)
        } else {
            c.filter(|p: Seq<u8>| p.len() > 0)
        },
{
    reveal(Seq::filter);
    assert(c.push(piece).drop_last() =~= c);
}

/// The whitespace-separated tokens of `text`, using only fastText's ASCII
/// separators; empty tokens are dropped. Each token borrows from `text`.
pub fn tokens<'a>(text: &'a str) -> (out: Vec<&'a str>)
    ensures
        str_bytes(out@) == spec_tokens(text.spec_bytes()),
{
    let bytes = text.as_bytes();
    let ghost s = bytes@;
    let mut out: Vec<&'a str> = Vec::new();
    let mut rest: &'a str = text;
    let mut start: usize = 0;
    let mut i: usize = 0;
    proof {
        encode_utf8_valid_utf8(text@);
        assert(s.subrange(0, 0) =~= Seq::<u8>::empty());
        assert(s.subrange(0, s.len() as int) =~= s);
        assert(spec_pieces(Seq::<u8>::empty()) =~= seq![Seq::<u8>::empty()]);
        assert(closed_pieces(Seq::<u8>::empty()) =~= Seq::<Seq<u8>>::empty());
        assert(str_bytes(out@) =~= Seq::<Seq<u8>>::empty());
        reveal(Seq::filter);
        assert(Seq::<Seq<u8>>::empty().filter(|p: Seq<u8>| p.len() > 0) =~= Seq::<
            Seq<u8>,
        >::empty());
        assert(closed_pieces(Seq::<u8>::empty()).push(s.subrange(0, 0)) =~= seq![
            Seq::<u8>::empty(),
        ]);
    }
    while i < bytes.len()
        invariant
            s == bytes@,
            s == text.spec_bytes(),
            start <= i <= bytes.len(),
            rest.spec_bytes() == s.subrange(start as int, s.len() as int),
            valid_utf8(rest.spec_bytes()),
            spec_pieces(s.subrange(0, i as int)) == closed_pieces(
                s.subrange(0, start as int),
            ).push(s.subrange(start as int, i as int)),
            str_bytes(out@) == closed_pieces(s.subrange(0, start as int)).filter(
                |p: Seq<u8>| p.len() > 0,
            ),
        decreases bytes.len() - i,
    {
        let b = bytes[i];
        proof {
            lemma_pieces_step(s, start as int, i as int);
        }
        if is_separator_byte(b) {
            let k = i - start;
            proof {
                assert(rest.spec_bytes()[k as int] == b);
                lemma_split_around_ascii(rest.spec_bytes(), k as int);
            }
            let (tok, tail) = rest.split_at(k);
            let (_, next) = tail.split_at(1);
            let ghost old_out = out@;
            if k > 0 {
                out.push(tok);
            }
            proof {
                let piece = s.subrange(start as int, i as int);
                assert(tok.spec_bytes() =~= piece);
                lemma_filter_push_piece(closed_pieces(s.subrange(0, start as int)), piece);
                assert(str_bytes(out@) =~= if k > 0 {
                    str_bytes(old_out).push(piece)
                } else {
                    str_bytes(old_out)
                });
                assert(tail.spec_bytes() =~= s.subrange(i as int, s.len() as int));
                assert(next.spec_bytes() =~= tail.spec_bytes().subrange(
                    1,
                    tail.spec_bytes().len() as int,
                ));
                assert(next.spec_bytes() =~= s.subrange(i + 1, s.len() as int));
            }
            rest = next;
            start = i + 1;
        }
        i = i + 1;
    }
    let ghost old_out = out@;
    if bytes.len() > start {
        out.push(rest);
    }
    proof {
        let piece = s.subrange(start as int, s.len() as int);
        lemma_filter_push_piece(closed_pieces(s.subrange(0, start as int)), piece);
        assert(str_bytes(out@) =~= if piece.len() > 0 {
            str_bytes(old_out).push(piece)
        } else {
            str_bytes(old_out)
        });
    }
    out
}

/// The end-of-sentence token `</s>`.
pub open spec fn eos() -> Seq<u8> {
    seq![60u8, 47u8, 115u8, 62u8]
}

/// A UTF-8 continuation byte (bit pattern `10xxxxxx`).
pub open spec fn is_continuation(b: u8) -> bool {
    0x80 <= b <= 0xbf
}

/// The word wrapped in the boundary markers `<` and `>`.
pub open spec fn padded(w: Seq<u8>) -> Seq<u8> {
    seq![60u8] + w + seq![62u8]
}

/// The first index at or after `j` that is not a continuation byte of `p`
/// (or the end of `p`).
pub open spec fn skip_continuations(p: Seq<u8>, j: int) -> int
    decreases p.len() - j,
{
    if 0 <= j < p.len() && is_continuation(p[j]) {
        skip_continuations(p, j + 1)
    } else {
        j
    }
}

/// The index just past the character that starts at `j` (or `j` itself once
/// the end of `p` is reached).
pub open spec fn char_end(p: Seq<u8>, j: int) -> int {
    if j >= p.len() {
        j
    } else {
        skip_continuations(p, j + 1)
    }
}

/// The index just past `n` characters starting at `i`.
pub open spec fn end_after(p: Seq<u8>, i: int, n: nat) -> int
    decreases n,
{
    if n == 0 {
        i
    } else {
        char_end(p, end_after(p, i, (n - 1) as nat))
    }
}

/// The bucket of the `n`-character n-gram of `p` starting at byte `i`, when
/// that n-gram exists, has at least `minn` characters and is not a lone
/// boundary marker.
pub open spec fn ngram_at(p: Seq<u8>, i: int, n: nat, minn: nat, bucket: nat) -> Seq<usize> {
    let a = end_after(p, i, (n - 1) as nat);
    let e = end_after(p, i, n);
    if a < p.len() && n >= minn && !(n == 1 && (i == 0 || e == p.len())) {
        seq![(spec_hash(p.subrange(i, e)) as nat % bucket) as usize]
    } else {
        Seq::empty()
    }
}

/// The buckets of the n-grams of 1 to `n` characters starting at byte `i`.
pub open spec fn ngrams_from(p: Seq<u8>, i: int, n: nat, minn: nat, bucket: nat) -> Seq<usize>
    decreases n,
{
    if n == 0 {
        Seq::empty()
    } else {
        ngrams_from(p, i, (n - 1) as nat, minn, bucket) + ngram_at(p, i, n, minn, bucket)
    }
}

/// The buckets of all n-grams of `p` that start at a byte before `i`; only
/// bytes that begin a character start n-grams.
pub open spec fn ngrams_before(p: Seq<u8>, i: nat, minn: nat, maxn: nat, bucket: nat) -> Seq<
    usize,
>
    decreases i,
{
    if i == 0 {
        Seq::empty()
    } else {
        let k = (i - 1) as int;
        ngrams_before(p, (i - 1) as nat, minn, maxn, bucket) + if is_continuation(p[k]) {
            Seq::empty()
        } else {
            ngrams_from(p, k, maxn, minn, bucket)
        }
    }
}

/// The subword buckets of a word: every character n-gram of `<word>` with
/// `minn..=maxn` characters, except the lone markers `<` and `>`, hashed and
/// reduced modulo `bucket`, grouped by start position, shortest first.
/// There are none for `</s>`, for `maxn == 0`, for `minn > maxn` and for
/// `bucket == 0`.
pub open spec fn spec_subword_ids(w: Seq<u8>, minn: nat, maxn: nat, bucket: nat) -> Seq<usize> {
    if maxn == 0 || minn > maxn || bucket == 0 || w == eos() {
        Seq::empty()
    } else {
        ngrams_before(padded(w), padded(w).len(), minn, maxn, bucket)
    }
}

pub fn is_eos_bytes(b: &[u8]) -> (r: bool)
    ensures
        r == (b@ == eos()),
{
    if b.len() == 4 && b[0] == 60 && b[1] == 47 && b[2] == 115 && b[3] == 62 {
        assert(b@ =~= eos());
        true
    } else {
        false
    }
}

fn is_continuation_byte(b: u8) -> (r: bool)
    ensures
        r == is_continuation(b),
{
    let r = b & 0xc0 == 0x80;
    assert(r == (0x80 <= b <= 0xbf)) by (bit_vector)
        requires
            r == (b & 0xc0 == 0x80),
    ;
    r
}

fn padded_byte(bytes: &[u8], i: usize) -> (r: u8)
    requires
        i < bytes@.len() + 2,
        bytes@.len() + 2 <= usize::MAX,
    ensures
        r == padded(bytes@)[i as int],
{
    if i == 0 {
        60
    } else if i == bytes.len() + 1 {
        62
    } else {
        bytes[i - 1]
    }
}

proof fn lemma_skip_bounds(p: Seq<u8>, j: int)
    requires
        0 <= j <= p.len(),
    ensures
        j <= skip_continuations(p, j) <= p.len(),
        skip_continuations(p, j) == p.len() || !is_continuation(p[skip_continuations(p, j)]),
    decreases p.len() - j,
{
    if j < p.len() && is_continuation(p[j]) {
        lemma_skip_bounds(p, j + 1);
    }
}

proof fn lemma_end_after_bounds(p: Seq<u8>, i: int, n: nat)
    requires
        0 <= i <= p.len(),
    ensures
        i <= end_after(p, i, n) <= p.len(),
        end_after(p, i, n) < p.len() ==> end_after(p, i, n) >= i + n,
    decreases n,
{
    if n > 0 {
        lemma_end_after_bounds(p, i, (n - 1) as nat);
        let a = end_after(p, i, (n - 1) as nat);
        if a < p.len() {
            lemma_skip_bounds(p, a + 1);
        }
    }
}

/// Once the n-grams from `i` reach the end of `p`, longer ones add nothing.
proof fn lemma_ngrams_from_saturate(p: Seq<u8>, i: int, k: nat, m: nat, minn: nat, bucket: nat)
    requires
        0 <= i <= p.len(),
        k <= m,
        end_after(p, i, k) >= p.len(),
    ensures
        ngrams_from(p, i, m, minn, bucket) == ngrams_from(p, i, k, minn, bucket),
    decreases m,
{
    if m > k {
        lemma_ngrams_from_saturate(p, i, k, (m - 1) as nat, minn, bucket);
        lemma_end_stays(p, i, k, (m - 1) as nat);
        assert(ngram_at(p, i, m, minn, bucket) =~= Seq::<usize>::empty());
        assert(ngrams_from(p, i, m, minn, bucket) =~= ngrams_from(p, i, k, minn, bucket));
    }
}

proof fn lemma_end_stays(p: Seq<u8>, i: int, k: nat, m: nat)
    requires
        0 <= i <= p.len(),
        k <= m,
        end_after(p, i, k) >= p.len(),
    ensures
        end_after(p, i, m) >= p.len(),
    decreases m,
{
    if m > k {
        lemma_end_stays(p, i, k, (m - 1) as nat);
    }
}

/// The buckets of the character n-grams of `<word>` (see `spec_subword_ids`).
pub fn get_subword_hashes(word: &str, minn: usize, maxn: usize, bucket: usize) -> (ids: Vec<usize>)
    requires
        word.spec_bytes().len() + 3 <= usize::MAX,
    ensures
        ids@ == spec_subword_ids(word.spec_bytes(), minn as nat, maxn as nat, bucket as nat),
{
    let bytes = word.as_bytes();
    let mut ids: Vec<usize> = Vec::new();
    if maxn == 0 || minn > maxn || bucket == 0 || is_eos_bytes(bytes) {
        return ids;
    }
    let ghost p = padded(bytes@);
    let len = bytes.len() + 2;
    let mut i: usize = 0;
    while i < len
        invariant
            p == padded(bytes@),
            p.len() == len,
            len + 1 <= usize::MAX,
            i <= len,
            bucket > 0,
            ids@ == ngrams_before(p, i as nat, minn as nat, maxn as nat, bucket as nat),
        decreases len - i,
    {
        let ghost before = ids@;
        if !is_continuation_byte(padded_byte(bytes, i)) {
            let mut j: usize = i;
            let mut h: u32 = 2166136261;
            let mut n: usize = 1;
            proof {
                assert(p.subrange(i as int, i as int) =~= Seq::<u8>::empty());
            }
            while n <= maxn && j < len
                invariant
                    p == padded(bytes@),
                    p.len() == len,
                    len + 1 <= usize::MAX,
                    i < len,
                    1 <= n <= maxn + 1,
                    bucket > 0,
                    j == end_after(p, i as int, (n - 1) as nat),
                    h == spec_hash(p.subrange(i as int, j as int)),
                    ids@ == before + ngrams_from(
                        p,
                        i as int,
                        (n - 1) as nat,
                        minn as nat,
                        bucket as nat,
                    ),
                decreases maxn + 1 - n,
            {
                proof {
                    lemma_end_after_bounds(p, i as int, (n - 1) as nat);
                }
                let ghost j0 = j;
                proof {
                    assert(p.subrange(i as int, j + 1).drop_last() =~= p.subrange(
                        i as int,
                        j as int,
                    ));
                }
                h = hash_byte(h, padded_byte(bytes, j));
                j = j + 1;
                while j < len && is_continuation_byte(padded_byte(bytes, j))
                    invariant
                        p == padded(bytes@),
                        p.len() == len,
                        i < j0 + 1 <= j <= len,
                        skip_continuations(p, j0 + 1) == skip_continuations(p, j as int),
                        h == spec_hash(p.subrange(i as int, j as int)),
                    decreases len - j,
                {
                    proof {
                        assert(p.subrange(i as int, j + 1).drop_last() =~= p.subrange(
                            i as int,
                            j as int,
                        ));
                    }
                    h = hash_byte(h, padded_byte(bytes, j));
                    j = j + 1;
                }
                proof {
                    assert(j == char_end(p, j0 as int));
                    assert(j == end_after(p, i as int, n as nat));
                }
                let ghost prev = ids@;
                if n >= minn && !(n == 1 && (i == 0 || j == len)) {
                    ids.push((h as usize) % bucket);
                }
                proof {
                    assert(ids@ =~= prev + ngram_at(p, i as int, n as nat, minn as nat, bucket as nat));
                    assert(ids@ =~= before + ngrams_from(
                        p,
                        i as int,
                        n as nat,
                        minn as nat,
                        bucket as nat,
                    ));
                }
                n = n + 1;
            }
            proof {
                if n <= maxn {
                    lemma_ngrams_from_saturate(
                        p,
                        i as int,
                        (n - 1) as nat,
                        maxn as nat,
                        minn as nat,
                        bucket as nat,
                    );
                }
            }
        }
        proof {
            assert(ids@ =~= ngrams_before(p, (i + 1) as nat, minn as nat, maxn as nat, bucket as nat));
        }
        i = i + 1;
    }
    ids
}

proof fn lemma_pieces_bounded(s: Seq<u8>)
    ensures
        forall|j: int|
            0 <= j < spec_pieces(s).len() ==> (#[trigger] spec_pieces(s)[j]).len() <= s.len(),
    decreases s.len(),
{
    if s.len() > 0 {
        lemma_pieces_bounded(s.drop_last());
        lemma_pieces_nonempty(s.drop_last());
        let p = spec_pieces(s.drop_last());
        assert forall|j: int| 0 <= j < spec_pieces(s).len() implies (#[trigger] spec_pieces(
            s,
        )[j]).len() <= s.len() by {
            if j < p.len() && !(j == p.len() - 1 && !is_separator(s.last())) {
                assert(spec_pieces(s)[j] == p[j]);
            }
        }
    }
}

proof fn lemma_filter_bounded(ps: Seq<Seq<u8>>, bound: nat)
    requires
        forall|j: int| 0 <= j < ps.len() ==> (#[trigger] ps[j]).len() <= bound,
    ensures
        forall|j: int|
            0 <= j < nonempty_pieces(ps).len() ==> (#[trigger] nonempty_pieces(ps)[j]).len()
                <= bound,
    decreases ps.len(),
{
    reveal(Seq::filter);
    if ps.len() > 0 {
        lemma_filter_bounded(ps.drop_last(), bound);
        let f = nonempty_pieces(ps);
        let g = nonempty_pieces(ps.drop_last());
        assert forall|j: int| 0 <= j < f.len() implies (#[trigger] f[j]).len() <= bound by {
            if j < g.len() {
                assert(f[j] == g[j]);
            } else {
                assert(f[j] == ps.last());
            }
        }
    }
}

/// No token is longer than the text it comes from.
pub proof fn lemma_tokens_bounded(s: Seq<u8>)
    ensures
        forall|j: int|
            0 <= j < spec_tokens(s).len() ==> (#[trigger] spec_tokens(s)[j]).len() <= s.len(),
{
    lemma_pieces_bounded(s);
    lemma_filter_bounded(spec_pieces(s), s.len());
}

/// Two strings of equal length that have separators at the same places and
/// equal bytes elsewhere.
pub open spec fn same_but_separators(s: Seq<u8>, t: Seq<u8>) -> bool {
    &&& s.len() == t.len()
    &&& forall|k: int|
        0 <= k < s.len() ==> (is_separator(#[trigger] s[k]) == is_separator(t[k])) && (
        !is_separator(s[k]) ==> s[k] == t[k])
}

proof fn lemma_pieces_ignore_separator_kind(s: Seq<u8>, t: Seq<u8>)
    requires
        same_but_separators(s, t),
    ensures
        spec_pieces(s) == spec_pieces(t),
    decreases s.len(),
{
    if s.len() > 0 {
        assert(same_but_separators(s.drop_last(), t.drop_last())) by {
            assert forall|k: int| 0 <= k < s.drop_last().len() implies (is_separator(
                #[trigger] s.drop_last()[k],
            ) == is_separator(t.drop_last()[k])) && (!is_separator(s.drop_last()[k])
                ==> s.drop_last()[k] == t.drop_last()[k]) by {
                assert(s.drop_last()[k] == s[k]);
                assert(t.drop_last()[k] == t[k]);
            }
        }
        lemma_pieces_ignore_separator_kind(s.drop_last(), t.drop_last());
        assert(is_separator(s[s.len() - 1]) == is_separator(t[t.len() - 1]));
    }
}

/// Law: which separator splits two tokens does not matter. Replacing
/// separators by other separators (a newline by a space, say) leaves the
/// tokens unchanged; a JSONL text with embedded newlines is one document.
pub proof fn lemma_tokens_ignore_separator_kind(s: Seq<u8>, t: Seq<u8>)
    requires
        same_but_separators(s, t),
    ensures
        spec_tokens(s) == spec_tokens(t),
{
    lemma_pieces_ignore_separator_kind(s, t);
}

/// Law: the tokens of a text with every LF replaced by a space are the tokens
/// of the text.
pub proof fn lemma_newlines_as_spaces(s: Seq<u8>)
    ensures
        spec_tokens(s.map_values(|b: u8| if b == 10 { 32u8 } else { b })) == spec_tokens(s),
{
    let t = s.map_values(|b: u8| if b == 10 { 32u8 } else { b });
    assert(same_but_separators(t, s));
    lemma_tokens_ignore_separator_kind(t, s);
}

proof fn lemma_pieces_free_of_separators(s: Seq<u8>)
    ensures
        forall|j: int, k: int|
            0 <= j < spec_pieces(s).len() && 0 <= k < spec_pieces(s)[j].len() ==> !is_separator(
                #[trigger] spec_pieces(s)[j][k],
            ),
    decreases s.len(),
{
    if s.len() > 0 {
        lemma_pieces_free_of_separators(s.drop_last());
        lemma_pieces_nonempty(s.drop_last());
        let p = spec_pieces(s.drop_last());
        assert forall|j: int, k: int|
            0 <= j < spec_pieces(s).len() && 0 <= k < spec_pieces(s)[j].len() implies !is_separator(
            #[trigger] spec_pieces(s)[j][k],
        ) by {
            if j < p.len() && !(j == p.len() - 1 && !is_separator(s.last())) {
                assert(spec_pieces(s)[j] == p[j]);
            } else if j == p.len() - 1 && !is_separator(s.last()) {
                if k < p[j].len() {
                    assert(spec_pieces(s)[j][k] == p[j][k]);
                }
            }
        }
    }
}

/// Law: every token is non-empty and holds no separator byte.
pub proof fn lemma_tokens_well_formed(s: Seq<u8>)
    ensures
        forall|j: int| 0 <= j < spec_tokens(s).len() ==> (#[trigger] spec_tokens(s)[j]).len() > 0,
        forall|j: int, k: int|
            0 <= j < spec_tokens(s).len() && 0 <= k < spec_tokens(s)[j].len() ==> !is_separator(
                #[trigger] spec_tokens(s)[j][k],
            ),
{
    lemma_pieces_free_of_separators(s);
    let ps = spec_pieces(s);
    let f = spec_tokens(s);
    lemma_nonempty_pieces_from(ps);
    assert forall|j: int, k: int| 0 <= j < f.len() && 0 <= k < f[j].len() implies !is_separator(
        #[trigger] f[j][k],
    ) by {
        let i = choose|i: int| 0 <= i < ps.len() && ps[i] == f[j];
        assert(ps[i][k] == f[j][k]);
    }
}

proof fn lemma_nonempty_pieces_from(ps: Seq<Seq<u8>>)
    ensures
        forall|j: int|
            0 <= j < nonempty_pieces(ps).len() ==> (#[trigger] nonempty_pieces(ps)[j]).len() > 0
                && exists|i: int| 0 <= i < ps.len() && ps[i] == nonempty_pieces(ps)[j],
    decreases ps.len(),
{
    reveal(Seq::filter);
    if ps.len() > 0 {
        lemma_nonempty_pieces_from(ps.drop_last());
        let f = nonempty_pieces(ps);
        let g = nonempty_pieces(ps.drop_last());
        assert forall|j: int| 0 <= j < f.len() implies (#[trigger] f[j]).len() > 0 && exists|i: int|
            0 <= i < ps.len() && ps[i] == f[j] by {
            if j < g.len() {
                assert(f[j] == g[j]);
                let i = choose|i: int| 0 <= i < ps.drop_last().len() && ps.drop_last()[i] == g[j];
                assert(ps[i] == f[j]);
            } else {
                assert(f[j] == ps.last());
                assert(ps[ps.len() - 1] == f[j]);
            }
        }
    }
}

proof fn lemma_ngrams_from_below(p: Seq<u8>, i: int, n: nat, minn: nat, bucket: nat)
    requires
        bucket > 0,
    ensures
        forall|m: int|
            0 <= m < ngrams_from(p, i, n, minn, bucket).len() ==> (#[trigger] ngrams_from(
                p,
                i,
                n,
                minn,
                bucket,
            )[m]) < bucket,
    decreases n,
{
    if n > 0 {
        lemma_ngrams_from_below(p, i, (n - 1) as nat, minn, bucket);
        let a = ngrams_from(p, i, (n - 1) as nat, minn, bucket);
        let b = ngram_at(p, i, n, minn, bucket);
        assert forall|m: int| 0 <= m < (a + b).len() implies (#[trigger] (a + b)[m]) < bucket by {
            if m >= a.len() {
                assert((a + b)[m] == b[m - a.len()]);
            } else {
                assert((a + b)[m] == a[m]);
            }
        }
    }
}

proof fn lemma_ngrams_before_below(p: Seq<u8>, i: nat, minn: nat, maxn: nat, bucket: nat)
    requires
        bucket > 0,
    ensures
        forall|m: int|
            0 <= m < ngrams_before(p, i, minn, maxn, bucket).len() ==> (#[trigger] ngrams_before(
                p,
                i,
                minn,
                maxn,
                bucket,
            )[m]) < bucket,
    decreases i,
{
    if i > 0 {
        lemma_ngrams_before_below(p, (i - 1) as nat, minn, maxn, bucket);
        lemma_ngrams_from_below(p, (i - 1) as int, maxn, minn, bucket);
        let a = ngrams_before(p, (i - 1) as nat, minn, maxn, bucket);
        let b = if is_continuation(p[i - 1]) {
            Seq::<usize>::empty()
        } else {
            ngrams_from(p, (i - 1) as int, maxn, minn, bucket)
        };
        assert forall|m: int| 0 <= m < (a + b).len() implies (#[trigger] (a + b)[m]) < bucket by {
            if m >= a.len() {
                assert((a + b)[m] == b[m - a.len()]);
            } else {
                assert((a + b)[m] == a[m]);
            }
        }
    }
}

/// Law: every subword bucket is below the bucket count.
pub proof fn lemma_subword_ids_below_bucket(w: Seq<u8>, minn: nat, maxn: nat, bucket: nat)
    ensures
        forall|m: int|
            0 <= m < spec_subword_ids(w, minn, maxn, bucket).len() ==> (#[trigger] spec_subword_ids(
                w,
                minn,
                maxn,
                bucket,
            )[m]) < bucket,
{
    if !(maxn == 0 || minn > maxn || bucket == 0 || w == eos()) {
        lemma_ngrams_before_below(padded(w), padded(w).len(), minn, maxn, bucket);
    }
}

/// Law: `</s>` has no subwords.
pub proof fn lemma_no_subwords_for_eos(minn: nat, maxn: nat, bucket: nat)
    ensures
        spec_subword_ids(eos(), minn, maxn, bucket) == Seq::<usize>::empty(),
{
}

/// Pieces of two texts joined by a separator: the pieces of the first, then
/// those of the second.
proof fn lemma_pieces_concat(a: Seq<u8>, c: u8, b: Seq<u8>)
    requires
        is_separator(c),
    ensures
        spec_pieces(a.push(c) + b) == spec_pieces(a) + spec_pieces(b),
    decreases b.len(),
{
    if b.len() == 0 {
        let t = a.push(c);
        assert(t + b =~= t);
        assert(t.drop_last() =~= a);
        assert(spec_pieces(a).push(Seq::<u8>::empty()) =~= spec_pieces(a) + spec_pieces(b));
    } else {
        lemma_pieces_concat(a, c, b.drop_last());
        lemma_pieces_nonempty(b.drop_last());
        let s = a.push(c) + b;
        assert(s.drop_last() =~= a.push(c) + b.drop_last());
        assert(s.last() == b.last());
        let pa = spec_pieces(a);
        let pb = spec_pieces(b.drop_last());
        if is_separator(b.last()) {
            assert((pa + pb).push(Seq::<u8>::empty()) =~= pa + pb.push(Seq::<u8>::empty()));
        } else {
            let pq = pa + pb;
            assert(pq.update(pq.len() - 1, pq.last().push(b.last())) =~= pa + pb.update(
                pb.len() - 1,
                pb.last().push(b.last()),
            ));
        }
    }
}

/// Law: the tokens of two texts joined by a separator are the tokens of the
/// first followed by the tokens of the second.
pub proof fn lemma_tokens_concat(a: Seq<u8>, c: u8, b: Seq<u8>)
    requires
        is_separator(c),
    ensures
        spec_tokens(a.push(c) + b) == spec_tokens(a) + spec_tokens(b),
{
    lemma_pieces_concat(a, c, b);
    Seq::filter_distributes_over_add(spec_pieces(a), spec_pieces(b), |p: Seq<u8>| p.len() > 0);
}

proof fn lemma_pieces_of_word(w: Seq<u8>)
    requires
        forall|k: int| 0 <= k < w.len() ==> !is_separator(#[trigger] w[k]),
    ensures
        spec_pieces(w) == seq![w],
    decreases w.len(),
{
    if w.len() == 0 {
        assert(w =~= Seq::<u8>::empty());
    } else {
        let v = w.drop_last();
        assert forall|k: int| 0 <= k < v.len() implies !is_separator(#[trigger] v[k]) by {
            assert(v[k] == w[k]);
        }
        lemma_pieces_of_word(v);
        assert(!is_separator(w[w.len() - 1]));
        assert(v.push(w.last()) =~= w);
        assert(seq![v].update(0, v.push(w.last())) =~= seq![w]);
    }
}

/// Law: a non-empty text without separators is a single token.
pub proof fn lemma_tokens_of_word(w: Seq<u8>)
    requires
        w.len() > 0,
        forall|k: int| 0 <= k < w.len() ==> !is_separator(#[trigger] w[k]),
    ensures
        spec_tokens(w) == seq![w],
{
    lemma_pieces_of_word(w);
    reveal(Seq::filter);
    assert(seq![w].drop_last() =~= Seq::<Seq<u8>>::empty());
    assert(Seq::<Seq<u8>>::empty().filter(|p: Seq<u8>| p.len() > 0) =~= Seq::<Seq<u8>>::empty());
    assert(seq![w].filter(|p: Seq<u8>| p.len() > 0) =~= seq![w]);
}

proof fn lemma_ngrams_from_minn_zero(p: Seq<u8>, i: int, n: nat, bucket: nat)
    ensures
        ngrams_from(p, i, n, 0, bucket) == ngrams_from(p, i, n, 1, bucket),
    decreases n,
{
    if n > 0 {
        lemma_ngrams_from_minn_zero(p, i, (n - 1) as nat, bucket);
        assert(ngram_at(p, i, n, 0, bucket) == ngram_at(p, i, n, 1, bucket));
    }
}

proof fn lemma_ngrams_before_minn_zero(p: Seq<u8>, i: nat, maxn: nat, bucket: nat)
    ensures
        ngrams_before(p, i, 0, maxn, bucket) == ngrams_before(p, i, 1, maxn, bucket),
    decreases i,
{
    if i > 0 {
        lemma_ngrams_before_minn_zero(p, (i - 1) as nat, maxn, bucket);
        lemma_ngrams_from_minn_zero(p, (i - 1) as int, maxn, bucket);
    }
}

/// Law: a minimum subword length of 0 acts as 1, since every subword has at
/// least one character.
pub proof fn lemma_minn_zero_as_one(w: Seq<u8>, maxn: nat, bucket: nat)
    ensures
        spec_subword_ids(w, 0, maxn, bucket) == spec_subword_ids(w, 1, maxn, bucket),
{
    if !(maxn == 0 || bucket == 0 || w == eos()) {
        lemma_ngrams_before_minn_zero(padded(w), padded(w).len(), maxn, bucket);
    }
}

/// `f` picks `a` out of `b`: increasing positions of `b` that hold the items
/// of `a`, in order.
pub open spec fn embeds(f: Seq<int>, a: Seq<usize>, b: Seq<usize>) -> bool {
    &&& f.len() == a.len()
    &&& forall|i: int| 0 <= i < a.len() ==> 0 <= #[trigger] f[i] < b.len() && b[f[i]] == a[i]
    &&& forall|i: int, j: int| 0 <= i < j < a.len() ==> #[trigger] f[i] < #[trigger] f[j]
}

/// `a` is a subsequence of `b`.
pub open spec fn is_subsequence(a: Seq<usize>, b: Seq<usize>) -> bool {
    exists|f: Seq<int>| embeds(f, a, b)
}

proof fn lemma_subsequence_concat(a1: Seq<usize>, b1: Seq<usize>, a2: Seq<usize>, b2: Seq<usize>)
    requires
        is_subsequence(a1, b1),
        is_subsequence(a2, b2),
    ensures
        is_subsequence(a1 + a2, b1 + b2),
{
    let f1 = choose|f: Seq<int>| embeds(f, a1, b1);
    let f2 = choose|f: Seq<int>| embeds(f, a2, b2);
    let n = b1.len() as int;
    let g = f1 + f2.map_values(|x: int| x + n);
    let a = a1 + a2;
    let b = b1 + b2;
    assert forall|i: int| 0 <= i < a.len() implies 0 <= #[trigger] g[i] < b.len() && b[g[i]]
        == a[i] by {
        if i < a1.len() {
            assert(g[i] == f1[i]);
            assert(b[f1[i]] == b1[f1[i]]);
        } else {
            let k = i - a1.len();
            assert(g[i] == f2[k] + n);
            assert(b[f2[k] + n] == b2[f2[k]]);
            assert(a[i] == a2[k]);
        }
    }
    assert forall|i: int, j: int| 0 <= i < j < a.len() implies #[trigger] g[i] < #[trigger] g[j] by {
        if j < a1.len() {
            assert(g[i] == f1[i] && g[j] == f1[j]);
        } else if i < a1.len() {
            assert(g[i] == f1[i]);
            assert(f1[i] < n);
            assert(g[j] == f2[j - a1.len()] + n);
            assert(f2[j - a1.len()] >= 0);
        } else {
            assert(g[i] == f2[i - a1.len()] + n);
            assert(g[j] == f2[j - a1.len()] + n);
            assert(f2[i - a1.len()] < f2[j - a1.len()]);
        }
    }
    assert(embeds(g, a, b));
}

proof fn lemma_subsequence_refl(a: Seq<usize>)
    ensures
        is_subsequence(a, a),
{
    let f = Seq::new(a.len(), |i: int| i);
    assert(embeds(f, a, a));
}

proof fn lemma_subsequence_of_any(b: Seq<usize>)
    ensures
        is_subsequence(Seq::empty(), b),
{
    assert(embeds(Seq::empty(), Seq::empty(), b));
}

proof fn lemma_subsequence_extend(a: Seq<usize>, b: Seq<usize>, c: Seq<usize>)
    requires
        is_subsequence(a, b),
    ensures
        is_subsequence(a, b + c),
{
    lemma_subsequence_of_any(c);
    lemma_subsequence_concat(a, b, Seq::empty(), c);
    assert(a + Seq::<usize>::empty() =~= a);
}

proof fn lemma_ngrams_from_sub(
    p: Seq<u8>,
    i: int,
    n1: nat,
    n2: nat,
    minn1: nat,
    minn2: nat,
    bucket: nat,
)
    requires
        n1 <= n2,
        minn2 <= minn1,
    ensures
        is_subsequence(ngrams_from(p, i, n1, minn1, bucket), ngrams_from(p, i, n2, minn2, bucket)),
    decreases n2,
{
    if n2 == 0 {
        lemma_subsequence_of_any(ngrams_from(p, i, n2, minn2, bucket));
    } else if n1 < n2 {
        lemma_ngrams_from_sub(p, i, n1, (n2 - 1) as nat, minn1, minn2, bucket);
        lemma_subsequence_extend(
            ngrams_from(p, i, n1, minn1, bucket),
            ngrams_from(p, i, (n2 - 1) as nat, minn2, bucket),
            ngram_at(p, i, n2, minn2, bucket),
        );
    } else {
        lemma_ngrams_from_sub(p, i, (n1 - 1) as nat, (n2 - 1) as nat, minn1, minn2, bucket);
        let x = ngram_at(p, i, n1, minn1, bucket);
        let y = ngram_at(p, i, n2, minn2, bucket);
        if x.len() == 0 {
            assert(x =~= Seq::<usize>::empty());
            lemma_subsequence_of_any(y);
        } else {
            assert(x == y);
            lemma_subsequence_refl(x);
        }
        lemma_subsequence_concat(
            ngrams_from(p, i, (n1 - 1) as nat, minn1, bucket),
            ngrams_from(p, i, (n2 - 1) as nat, minn2, bucket),
            x,
            y,
        );
    }
}

proof fn lemma_ngrams_before_sub(
    p: Seq<u8>,
    i: nat,
    minn1: nat,
    maxn1: nat,
    minn2: nat,
    maxn2: nat,
    bucket: nat,
)
    requires
        minn2 <= minn1,
        maxn1 <= maxn2,
        i <= p.len(),
    ensures
        is_subsequence(
            ngrams_before(p, i, minn1, maxn1, bucket),
            ngrams_before(p, i, minn2, maxn2, bucket),
        ),
    decreases i,
{
    if i == 0 {
        lemma_subsequence_of_any(ngrams_before(p, i, minn2, maxn2, bucket));
    } else {
        let k = (i - 1) as int;
        lemma_ngrams_before_sub(p, (i - 1) as nat, minn1, maxn1, minn2, maxn2, bucket);
        if is_continuation(p[k]) {
            lemma_subsequence_of_any(Seq::<usize>::empty());
            lemma_subsequence_concat(
                ngrams_before(p, (i - 1) as nat, minn1, maxn1, bucket),
                ngrams_before(p, (i - 1) as nat, minn2, maxn2, bucket),
                Seq::empty(),
                Seq::empty(),
            );
        } else {
            lemma_ngrams_from_sub(p, k, maxn1, maxn2, minn1, minn2, bucket);
            lemma_subsequence_concat(
                ngrams_before(p, (i - 1) as nat, minn1, maxn1, bucket),
                ngrams_before(p, (i - 1) as nat, minn2, maxn2, bucket),
                ngrams_from(p, k, maxn1, minn1, bucket),
                ngrams_from(p, k, maxn2, minn2, bucket),
            );
        }
    }
}

/// Law: widening the range of subword lengths only adds subwords: the
/// buckets for `minn1..=maxn1` are a subsequence of those for
/// `minn2..=maxn2` when the second range holds the first.
pub proof fn lemma_subwords_of_wider_range(
    w: Seq<u8>,
    minn1: nat,
    maxn1: nat,
    minn2: nat,
    maxn2: nat,
    bucket: nat,
)
    requires
        minn2 <= minn1,
        maxn1 <= maxn2,
    ensures
        is_subsequence(
            spec_subword_ids(w, minn1, maxn1, bucket),
            spec_subword_ids(w, minn2, maxn2, bucket),
        ),
{
    if maxn1 == 0 || minn1 > maxn1 || bucket == 0 || w == eos() {
        lemma_subsequence_of_any(spec_subword_ids(w, minn2, maxn2, bucket));
    } else {
        lemma_ngrams_before_sub(padded(w), padded(w).len(), minn1, maxn1, minn2, maxn2, bucket);
    }
}

/// The tokens written one after the other, with nothing between them.
pub open spec fn joined(ts: Seq<Seq<u8>>) -> Seq<u8>
    decreases ts.len(),
{
    if ts.len() == 0 {
        Seq::empty()
    } else {
        joined(ts.drop_last()) + ts.last()
    }
}

proof fn lemma_joined_pieces(s: Seq<u8>)
    ensures
        joined(spec_pieces(s)) == s.filter(|b: u8| !is_separator(b)),
    decreases s.len(),
{
    reveal(Seq::filter);
    if s.len() == 0 {
        let q = seq![Seq::<u8>::empty()];
        assert(q.drop_last() =~= Seq::<Seq<u8>>::empty());
        assert(joined(q.drop_last()) == Seq::<u8>::empty());
        assert(joined(q) =~= Seq::<u8>::empty());
    } else {
        lemma_joined_pieces(s.drop_last());
        lemma_pieces_nonempty(s.drop_last());
        let p = spec_pieces(s.drop_last());
        if is_separator(s.last()) {
            assert(p.push(Seq::<u8>::empty()).drop_last() =~= p);
            assert(joined(p) + Seq::<u8>::empty() =~= joined(p));
        } else {
            let q = p.update(p.len() - 1, p.last().push(s.last()));
            assert(q.drop_last() =~= p.drop_last());
            assert(joined(q) =~= joined(p).push(s.last()));
        }
    }
}

proof fn lemma_joined_nonempty(ps: Seq<Seq<u8>>)
    ensures
        joined(nonempty_pieces(ps)) == joined(ps),
    decreases ps.len(),
{
    reveal(Seq::filter);
    if ps.len() > 0 {
        lemma_joined_nonempty(ps.drop_last());
        let f = nonempty_pieces(ps.drop_last());
        if ps.last().len() > 0 {
            assert(f.push(ps.last()).drop_last() =~= f);
        } else {
            assert(joined(ps.drop_last()) + ps.last() =~= joined(ps.drop_last()));
        }
    }
}

/// Law: tokenisation drops exactly the seven separator bytes (space, LF,
/// CR, tab, vertical tab, form feed, NUL) and keeps every other byte,
/// punctuation included, in order: the tokens written one after the other
/// are the text with those seven bytes removed.
pub proof fn lemma_tokens_keep_other_bytes(s: Seq<u8>)
    ensures
        joined(spec_tokens(s)) == s.filter(
            |b: u8| !(b == 32 || b == 10 || b == 13 || b == 9 || b == 11 || b == 12 || b == 0),
        ),
{
    lemma_joined_pieces(s);
    lemma_joined_nonempty(spec_pieces(s));
    assert((|b: u8| !is_separator(b)) =~= (|b: u8|
        !(b == 32 || b == 10 || b == 13 || b == 9 || b == 11 || b == 12 || b == 0)));
}

/// Law: a non-empty text holding none of the seven separator bytes (space,
/// LF, CR, tab, vertical tab, form feed, NUL) is a single token, whatever
/// other bytes it holds.
pub proof fn lemma_text_without_separators_is_one_token(w: Seq<u8>)
    requires
        w.len() > 0,
        forall|k: int|
            0 <= k < w.len() ==> !(#[trigger] w[k] == 32 || w[k] == 10 || w[k] == 13 || w[k] == 9
                || w[k] == 11 || w[k] == 12 || w[k] == 0),
    ensures
        spec_tokens(w) == seq![w],
{
    assert forall|k: int| 0 <= k < w.len() implies !is_separator(#[trigger] w[k]) by {}
    lemma_tokens_of_word(w);
}

proof fn lemma_contains_left(a: Seq<usize>, b: Seq<usize>, x: usize)
    requires
        a.contains(x),
    ensures
        (a + b).contains(x),
{
    let k = choose|k: int| 0 <= k < a.len() && a[k] == x;
    assert((a + b)[k] == x);
}

proof fn lemma_contains_right(a: Seq<usize>, b: Seq<usize>, x: usize)
    requires
        b.contains(x),
    ensures
        (a + b).contains(x),
{
    let k = choose|k: int| 0 <= k < b.len() && b[k] == x;
    assert((a + b)[a.len() + k] == x);
}

proof fn lemma_ngrams_from_contains(p: Seq<u8>, i: int, n: nat, big: nat, minn: nat, bucket: nat)
    requires
        1 <= n <= big,
        ngram_at(p, i, n, minn, bucket).len() > 0,
    ensures
        ngrams_from(p, i, big, minn, bucket).contains(ngram_at(p, i, n, minn, bucket)[0]),
    decreases big,
{
    let x = ngram_at(p, i, n, minn, bucket)[0];
    if big == n {
        assert(ngram_at(p, i, n, minn, bucket).contains(x));
        lemma_contains_right(ngrams_from(p, i, (big - 1) as nat, minn, bucket), ngram_at(p, i, n, minn, bucket), x);
    } else {
        lemma_ngrams_from_contains(p, i, n, (big - 1) as nat, minn, bucket);
        lemma_contains_left(ngrams_from(p, i, (big - 1) as nat, minn, bucket), ngram_at(p, i, big, minn, bucket), x);
    }
}

proof fn lemma_ngrams_before_contains(
    p: Seq<u8>,
    i: int,
    u: nat,
    minn: nat,
    maxn: nat,
    bucket: nat,
    x: usize,
)
    requires
        0 <= i < u <= p.len(),
        !is_continuation(p[i]),
        ngrams_from(p, i, maxn, minn, bucket).contains(x),
    ensures
        ngrams_before(p, u, minn, maxn, bucket).contains(x),
    decreases u,
{
    if u == i + 1 {
        lemma_contains_right(ngrams_before(p, (u - 1) as nat, minn, maxn, bucket), ngrams_from(p, i, maxn, minn, bucket), x);
    } else {
        lemma_ngrams_before_contains(p, i, (u - 1) as nat, minn, maxn, bucket, x);
        let k = (u - 1) as int;
        let tail = if is_continuation(p[k]) {
            Seq::<usize>::empty()
        } else {
            ngrams_from(p, k, maxn, minn, bucket)
        };
        lemma_contains_left(ngrams_before(p, (u - 1) as nat, minn, maxn, bucket), tail, x);
    }
}

proof fn lemma_ngrams_from_member(p: Seq<u8>, i: int, big: nat, minn: nat, bucket: nat, x: usize)
    requires
        ngrams_from(p, i, big, minn, bucket).contains(x),
    ensures
        exists|n: nat| 1 <= n <= big && (#[trigger] ngram_at(p, i, n, minn, bucket)).contains(x),
    decreases big,
{
    let a = ngrams_from(p, i, (big - 1) as nat, minn, bucket);
    let b = ngram_at(p, i, big, minn, bucket);
    let k = choose|k: int| 0 <= k < (a + b).len() && (a + b)[k] == x;
    if k < a.len() {
        assert(a[k] == x);
        lemma_ngrams_from_member(p, i, (big - 1) as nat, minn, bucket, x);
    } else {
        assert(b[k - a.len()] == x);
        assert(b.contains(x));
    }
}

proof fn lemma_ngrams_before_member(
    p: Seq<u8>,
    u: nat,
    minn: nat,
    maxn: nat,
    bucket: nat,
    x: usize,
)
    requires
        u <= p.len(),
        ngrams_before(p, u, minn, maxn, bucket).contains(x),
    ensures
        exists|i: int|
            0 <= i < u && !is_continuation(p[i]) && (#[trigger] ngrams_from(
                p,
                i,
                maxn,
                minn,
                bucket,
            )).contains(x),
    decreases u,
{
    let k = (u - 1) as int;
    let a = ngrams_before(p, (u - 1) as nat, minn, maxn, bucket);
    let b = if is_continuation(p[k]) {
        Seq::<usize>::empty()
    } else {
        ngrams_from(p, k, maxn, minn, bucket)
    };
    let j = choose|j: int| 0 <= j < (a + b).len() && (a + b)[j] == x;
    if j < a.len() {
        assert(a[j] == x);
        lemma_ngrams_before_member(p, (u - 1) as nat, minn, maxn, bucket, x);
    } else {
        assert(b[j - a.len()] == x);
        assert(ngrams_from(p, k, maxn, minn, bucket).contains(x));
    }
}

/// Whether byte `b` begins a UTF-8 character (is not of the form `10xxxxxx`).
pub open spec fn starts_char(b: u8) -> bool {
    b < 0x80 || b > 0xbf
}

/// The number of characters that begin in `p[i..e]`.
pub open spec fn chars_in(p: Seq<u8>, i: int, e: int) -> nat
    decreases e - i,
{
    if e <= i {
        0
    } else {
        chars_in(p, i, e - 1) + if starts_char(p[e - 1]) {
            1nat
        } else {
            0nat
        }
    }
}

/// Position `j` of `p` is a character boundary: the end, or a byte that
/// begins a character.
pub open spec fn at_boundary(p: Seq<u8>, j: int) -> bool {
    j == p.len() || (0 <= j < p.len() && starts_char(p[j]))
}

proof fn lemma_chars_in_grows(p: Seq<u8>, i: int, a: int, b: int)
    requires
        i <= a <= b,
    ensures
        chars_in(p, i, a) <= chars_in(p, i, b),
    decreases b - a,
{
    if a < b {
        lemma_chars_in_grows(p, i, a, b - 1);
    }
}

proof fn lemma_skip_chars(p: Seq<u8>, i: int, j: int)
    requires
        i <= j <= p.len(),
    ensures
        chars_in(p, i, skip_continuations(p, j)) == chars_in(p, i, j),
    decreases p.len() - j,
{
    if j < p.len() && is_continuation(p[j]) {
        lemma_skip_chars(p, i, j + 1);
    }
}

/// After `t` characters from a character start `i`, `end_after` stands at a
/// boundary with `min(t, all)` characters behind it.
proof fn lemma_end_after_counts(p: Seq<u8>, i: int, t: nat)
    requires
        0 <= i < p.len(),
        starts_char(p[i]),
    ensures
        at_boundary(p, end_after(p, i, t)),
        i <= end_after(p, i, t) <= p.len(),
        chars_in(p, i, end_after(p, i, t)) == if t <= chars_in(p, i, p.len() as int) {
            t
        } else {
            chars_in(p, i, p.len() as int)
        },
    decreases t,
{
    if t > 0 {
        lemma_end_after_counts(p, i, (t - 1) as nat);
        let a = end_after(p, i, (t - 1) as nat);
        if a < p.len() {
            assert(starts_char(p[a]));
            lemma_skip_bounds(p, a + 1);
            lemma_skip_chars(p, i, a + 1);
            lemma_chars_in_grows(p, i, a + 1, p.len() as int);
            let q = skip_continuations(p, a + 1);
            if q < p.len() {
                assert(!is_continuation(p[q]));
            }
        }
    } else {
        assert(starts_char(p[i]));
    }
}

/// Two boundaries after `i` with as many characters behind them coincide.
proof fn lemma_boundary_unique(p: Seq<u8>, i: int, e1: int, e2: int)
    requires
        i <= e1 <= p.len(),
        i <= e2 <= p.len(),
        at_boundary(p, e1),
        at_boundary(p, e2),
        chars_in(p, i, e1) == chars_in(p, i, e2),
    ensures
        e1 == e2,
{
    if e1 < e2 {
        lemma_chars_in_grows(p, i, e1 + 1, e2);
    } else if e2 < e1 {
        lemma_chars_in_grows(p, i, e2 + 1, e1);
    }
}

/// Law: every character n-gram of `<word>` with `minn..=maxn` characters,
/// other than a lone `<` or `>`, has its bucket among the subword ids: the
/// bytes `<word>[i..e]` between two character boundaries holding `n`
/// characters.
pub proof fn lemma_subwords_present(
    w: Seq<u8>,
    minn: nat,
    maxn: nat,
    bucket: nat,
    i: int,
    e: int,
)
    requires
        w != eos(),
        bucket > 0,
        0 <= i < e <= padded(w).len(),
        at_boundary(padded(w), i),
        at_boundary(padded(w), e),
        minn <= chars_in(padded(w), i, e) <= maxn,
        !(chars_in(padded(w), i, e) == 1 && (i == 0 || e == padded(w).len())),
    ensures
        spec_subword_ids(w, minn, maxn, bucket).contains(
            (spec_hash(padded(w).subrange(i, e)) as nat % bucket) as usize,
        ),
{
    let p = padded(w);
    let n = chars_in(p, i, e);
    assert(starts_char(p[i]));
    assert(n >= 1) by {
        lemma_chars_in_grows(p, i, i + 1, e);
    }
    lemma_chars_in_grows(p, i, e, p.len() as int);
    lemma_end_after_counts(p, i, n);
    lemma_boundary_unique(p, i, end_after(p, i, n), e);
    lemma_end_after_counts(p, i, (n - 1) as nat);
    let a = end_after(p, i, (n - 1) as nat);
    assert(a < p.len()) by {
        if a == p.len() {
            assert(chars_in(p, i, a) == n - 1);
        }
    }
    let g = ngram_at(p, i, n, minn, bucket);
    assert(g == seq![(spec_hash(p.subrange(i, e)) as nat % bucket) as usize]);
    lemma_ngrams_from_contains(p, i, n, maxn, minn, bucket);
    lemma_ngrams_before_contains(p, i, p.len(), minn, maxn, bucket, g[0]);
}

/// Law: every subword id is the bucket of such an n-gram: bytes
/// `<word>[i..e]` between two character boundaries, holding `minn..=maxn`
/// characters, and not a lone `<` or `>`. With the law above, the ids are
/// exactly the buckets of those n-grams.
pub proof fn lemma_subwords_sound(w: Seq<u8>, minn: nat, maxn: nat, bucket: nat, x: usize)
    requires
        spec_subword_ids(w, minn, maxn, bucket).contains(x),
    ensures
        exists|i: int, e: int|
            0 <= i < e <= padded(w).len() && at_boundary(padded(w), i) && at_boundary(
                padded(w),
                e,
            ) && minn <= chars_in(padded(w), i, e) <= maxn && !(chars_in(padded(w), i, e) == 1
                && (i == 0 || e == padded(w).len())) && x == (#[trigger] spec_hash(
                padded(w).subrange(i, e),
            ) as nat % bucket) as usize,
{
    let p = padded(w);
    lemma_ngrams_before_member(p, p.len(), minn, maxn, bucket, x);
    let i = choose|i: int|
        0 <= i < p.len() && !is_continuation(p[i]) && (#[trigger] ngrams_from(
            p,
            i,
            maxn,
            minn,
            bucket,
        )).contains(x);
    lemma_ngrams_from_member(p, i, maxn, minn, bucket, x);
    let n = choose|n: nat| 1 <= n <= maxn && (#[trigger] ngram_at(p, i, n, minn, bucket)).contains(x);
    let g = ngram_at(p, i, n, minn, bucket);
    assert(g.len() > 0);
    assert(starts_char(p[i]));
    lemma_end_after_counts(p, i, (n - 1) as nat);
    lemma_end_after_counts(p, i, n);
    let a = end_after(p, i, (n - 1) as nat);
    let e = end_after(p, i, n);
    let all = chars_in(p, i, p.len() as int);
    assert(a < p.len());
    assert(starts_char(p[a]));
    lemma_chars_in_grows(p, i, a + 1, p.len() as int);
    assert(chars_in(p, i, a) < all);
    assert(chars_in(p, i, a) == n - 1);
    assert(chars_in(p, i, e) == n);
    assert(g[0] == x);
    assert(i < e) by {
        if e <= i {
            assert(chars_in(p, i, e) == 0);
        }
    }
    assert(x == (spec_hash(padded(w).subrange(i, e)) as nat % bucket) as usize);
}

/// Law: the hash of fastText (32-bit FNV-1a over sign-extended bytes): the
/// empty string hashes to 2166136261, and each further byte, taken as a
/// signed byte widened to 32 bits, is xored in and the result multiplied by
/// 16777619 modulo 2^32.
pub proof fn lemma_hash_steps(s: Seq<u8>, b: u8)
    ensures
        spec_hash(Seq::<u8>::empty()) == 2166136261u32,
        spec_hash(s.push(b)) == (((spec_hash(s) ^ (if b < 128 {
            b as u32
        } else {
            (b as int + 0xFFFF_FF00) as u32
        })) as nat * 16777619nat) % 0x1_0000_0000) as u32,
{
    assert(s.push(b).drop_last() =~= s);
}

} // verus!
