use std::collections::HashMap;
use vstd::prelude::*;
use vstd::utf8::*;

use crate::tokenize::{fasttext_hash, spec_hash};

verus! {

broadcast use vstd::std_specs::hash::group_hash_axioms;

/// The UTF-8 bytes of each string.
pub open spec fn strings_bytes(v: Seq<String>) -> Seq<Seq<u8>> {
    v.map_values(|s: String| encode_utf8(s@))
}

/// The greatest index below `n` whose entry equals `t`, if any. A map that is
/// filled in index order, each insert overwriting the previous value, maps
/// `t` to exactly this index.
pub open spec fn last_index_below(ws: Seq<Seq<u8>>, t: Seq<u8>, n: nat) -> Option<int>
    decreases n,
{
    if n == 0 {
        None
    } else if ws[n - 1] == t {
        Some(n - 1)
    } else {
        last_index_below(ws, t, (n - 1) as nat)
    }
}

/// The greatest index whose entry equals `t`, if any.
pub open spec fn last_index_of(ws: Seq<Seq<u8>>, t: Seq<u8>) -> Option<int> {
    last_index_below(ws, t, ws.len())
}

/// The indices below `n` whose entries hash to `h`, in increasing order.
pub open spec fn ids_with_hash(ws: Seq<Seq<u8>>, h: u32, n: nat) -> Seq<usize>
    decreases n,
{
    if n == 0 {
        Seq::empty()
    } else {
        ids_with_hash(ws, h, (n - 1) as nat) + if spec_hash(ws[n - 1]) == h {
            seq![(n - 1) as usize]
        } else {
            Seq::empty()
        }
    }
}

/// The last entry of `list` (scanning from the end) that names an entry of
/// `ws` equal to `t`.
pub open spec fn scan_last(ws: Seq<Seq<u8>>, list: Seq<usize>, t: Seq<u8>) -> Option<int>
    decreases list.len(),
{
    if list.len() == 0 {
        None
    } else if ws[list.last() as int] == t {
        Some(list.last() as int)
    } else {
        scan_last(ws, list.drop_last(), t)
    }
}

proof fn lemma_ids_prefix(ws: Seq<Seq<u8>>, w: Seq<u8>, h: u32, n: nat)
    requires
        n <= ws.len(),
    ensures
        ids_with_hash(ws.push(w), h, n) == ids_with_hash(ws, h, n),
    decreases n,
{
    if n > 0 {
        lemma_ids_prefix(ws, w, h, (n - 1) as nat);
    }
}

proof fn lemma_ids_bounded(ws: Seq<Seq<u8>>, h: u32, n: nat)
    requires
        n <= ws.len(),
        n <= usize::MAX + 1,
    ensures
        forall|m: int|
            0 <= m < ids_with_hash(ws, h, n).len() ==> (#[trigger] ids_with_hash(ws, h, n)[m]) < n,
    decreases n,
{
    if n > 0 {
        lemma_ids_bounded(ws, h, (n - 1) as nat);
        let prev = ids_with_hash(ws, h, (n - 1) as nat);
        let cur = ids_with_hash(ws, h, n);
        assert forall|m: int| 0 <= m < cur.len() implies (#[trigger] cur[m]) < n by {
            if m < prev.len() {
                assert(cur[m] == prev[m]);
            }
        }
    }
}

proof fn lemma_scan_finds_last(ws: Seq<Seq<u8>>, t: Seq<u8>, n: nat)
    requires
        n <= ws.len(),
        n <= usize::MAX + 1,
    ensures
        scan_last(ws, ids_with_hash(ws, spec_hash(t), n), t) == last_index_below(ws, t, n),
    decreases n,
{
    if n > 0 {
        lemma_scan_finds_last(ws, t, (n - 1) as nat);
        let prev = ids_with_hash(ws, spec_hash(t), (n - 1) as nat);
        let cur = ids_with_hash(ws, spec_hash(t), n);
        if spec_hash(ws[n - 1]) == spec_hash(t) {
            assert(cur == prev.push((n - 1) as usize));
            assert(cur.drop_last() =~= prev);
        } else {
            assert(cur =~= prev);
        }
    }
}

/// An index from fastText hashes to the positions of the strings that have
/// that hash, used to find a string's last position in a list of strings.
pub struct WordIndex {
    buckets: HashMap<u32, Vec<usize>>,
}

impl WordIndex {
    /// The positions recorded for hash `h`.
    pub closed spec fn bucket(&self, h: u32) -> Seq<usize> {
        if self.buckets@.contains_key(h) {
            self.buckets@[h]@
        } else {
            Seq::empty()
        }
    }

    /// The index records, for every hash, exactly the positions of the
    /// strings of `ws` with that hash.
    pub closed spec fn indexes(&self, ws: Seq<Seq<u8>>) -> bool {
        &&& ws.len() <= usize::MAX
        &&& forall|h: u32| #[trigger] self.bucket(h) == ids_with_hash(ws, h, ws.len())
    }

    /// An index of no strings.
    pub fn new() -> (r: WordIndex)
        ensures
            r.indexes(Seq::empty()),
    {
        let r = WordIndex { buckets: HashMap::new() };
        assert forall|h: u32| #[trigger] r.bucket(h) == ids_with_hash(Seq::empty(), h, 0) by {}
        r
    }

    /// Records the last string of `words`, the others being indexed already.
    pub fn add_last(&mut self, words: &Vec<String>)
        requires
            words@.len() >= 1,
            old(self).indexes(strings_bytes(words@.drop_last())),
        ensures
            final(self).indexes(strings_bytes(words@)),
    {
        let ghost ws = strings_bytes(words@);
        let ghost prev = strings_bytes(words@.drop_last());
        let n = words.len() - 1;
        let w = words[n].as_str().as_bytes();
        let h = fasttext_hash(w);
        proof {
            assert(prev =~= ws.drop_last());
            assert(ws =~= prev.push(ws[n as int]));
            assert(w@ == ws[n as int]);
        }
        let ghost old_self = *self;
        let list = match self.buckets.remove(&h) {
            Some(v) => v,
            None => Vec::new(),
        };
        proof {
            assert(list@ == old_self.bucket(h));
        }
        let mut list = list;
        list.push(n);
        self.buckets.insert(h, list);
        proof {
            assert forall|g: u32| #[trigger] self.bucket(g) == ids_with_hash(ws, g, ws.len()) by {
                lemma_ids_prefix(prev, ws[n as int], g, n as nat);
                assert(old_self.bucket(g) == ids_with_hash(prev, g, n as nat));
                if g == h {
                    assert(self.bucket(g) == old_self.bucket(g).push(n));
                } else {
                    assert(self.bucket(g) == old_self.bucket(g));
                }
            }
        }
    }

    /// The last position in `words` of the string with UTF-8 bytes `t`.
    pub fn find(&self, words: &Vec<String>, t: &[u8]) -> (r: Option<usize>)
        requires
            self.indexes(strings_bytes(words@)),
        ensures
            match r {
                Some(i) => last_index_of(strings_bytes(words@), t@) == Some(i as int),
                None => last_index_of(strings_bytes(words@), t@) is None,
            },
    {
        let ghost ws = strings_bytes(words@);
        let h = fasttext_hash(t);
        proof {
            lemma_scan_finds_last(ws, t@, ws.len());
            lemma_ids_bounded(ws, h, ws.len());
            assert(self.bucket(h) == ids_with_hash(ws, h, ws.len()));
        }
        match self.buckets.get(&h) {
            None => {
                proof {
                    assert(self.bucket(h) =~= Seq::<usize>::empty());
                }
                None
            },
            Some(list) => {
                let mut m = list.len();
                proof {
                    assert(list@ == self.bucket(h));
                    assert(list@.take(m as int) =~= list@);
                }
                while m > 0
                    invariant
                        m <= list@.len(),
                        list@ == ids_with_hash(ws, h, ws.len()),
                        ws == strings_bytes(words@),
                        h == spec_hash(t@),
                        forall|x: int| 0 <= x < list@.len() ==> (#[trigger] list@[x]) < ws.len(),
                        scan_last(ws, list@.take(m as int), t@) == last_index_of(ws, t@),
                    decreases m,
                {
                    let id = list[m - 1];
                    let cand = words[id].as_str().as_bytes();
                    proof {
                        assert(cand@ == ws[id as int]);
                        assert(list@.take(m as int).last() == id);
                        assert(list@.take(m as int).drop_last() =~= list@.take(m - 1));
                    }
                    if bytes_equal(cand, t) {
                        return Some(id);
                    }
                    m = m - 1;
                }
                None
            },
        }
    }
}

/// Whether two byte strings are equal.
pub fn bytes_equal(a: &[u8], b: &[u8]) -> (r: bool)
    ensures
        r == (a@ == b@),
{
    if a.len() != b.len() {
        return false;
    }
    let mut i: usize = 0;
    while i < a.len()
        invariant
            a@.len() == b@.len(),
            i <= a@.len(),
            forall|j: int| 0 <= j < i ==> a@[j] == b@[j],
        decreases a.len() - i,
    {
        if a[i] != b[i] {
            return false;
        }
        i = i + 1;
    }
    assert(a@ =~= b@);
    true
}

proof fn lemma_last_index_below_sound(ws: Seq<Seq<u8>>, t: Seq<u8>, n: nat)
    requires
        n <= ws.len(),
    ensures
        match last_index_below(ws, t, n) {
            Some(i) => 0 <= i < n && ws[i] == t && forall|j: int| i < j < n ==> ws[j] != t,
            None => forall|j: int| 0 <= j < n ==> ws[j] != t,
        },
    decreases n,
{
    if n > 0 {
        lemma_last_index_below_sound(ws, t, (n - 1) as nat);
    }
}

/// Law: a lookup finds the last equal entry; it finds nothing only when no
/// entry is equal.
pub proof fn lemma_last_index_of_sound(ws: Seq<Seq<u8>>, t: Seq<u8>)
    ensures
        match last_index_of(ws, t) {
            Some(i) => 0 <= i < ws.len() && ws[i] == t && forall|j: int|
                i < j < ws.len() ==> ws[j] != t,
            None => forall|j: int| 0 <= j < ws.len() ==> ws[j] != t,
        },
{
    lemma_last_index_below_sound(ws, t, ws.len());
}

proof fn lemma_last_index_below_prefix(ws: Seq<Seq<u8>>, w: Seq<u8>, t: Seq<u8>, n: nat)
    requires
        n <= ws.len(),
    ensures
        last_index_below(ws.push(w), t, n) == last_index_below(ws, t, n),
    decreases n,
{
    if n > 0 {
        lemma_last_index_below_prefix(ws, w, t, (n - 1) as nat);
    }
}

/// Law: after a string is appended, looking it up gives its new position,
/// and every other lookup gives what it gave before.
pub proof fn lemma_last_index_of_push(ws: Seq<Seq<u8>>, w: Seq<u8>, t: Seq<u8>)
    ensures
        last_index_of(ws.push(w), t) == if t == w {
            Some(ws.len() as int)
        } else {
            last_index_of(ws, t)
        },
{
    lemma_last_index_below_prefix(ws, w, t, ws.len());
}

} // verus!
