use ft_filter::features::document_features;
use ft_filter::huffman::build_huffman_tree;
use ft_filter::model::{LoadError, Model, FASTTEXT_MAGIC};
use ft_filter::tokenize::{get_subword_hashes, tokens};

fn model_bytes(word_ngrams: i32, bucket: i32, minn: i32, maxn: i32, entries: &[(&str, i64, u8)]) -> Vec<u8> {
    let dim = 1i32;
    let mut b = Vec::new();
    b.extend_from_slice(&FASTTEXT_MAGIC.to_le_bytes());
    b.extend_from_slice(&12i32.to_le_bytes());
    for v in [dim, 5, 5, 1, 5, word_ngrams, 3, 3, bucket, minn, maxn, 100] {
        b.extend_from_slice(&v.to_le_bytes());
    }
    b.extend_from_slice(&0.0001f64.to_le_bytes());
    b.extend_from_slice(&(entries.len() as i32).to_le_bytes());
    b.extend_from_slice(&0i32.to_le_bytes());
    b.extend_from_slice(&0i32.to_le_bytes());
    b.extend_from_slice(&0i64.to_le_bytes());
    b.extend_from_slice(&(-1i64).to_le_bytes());
    for (w, count, kind) in entries {
        b.extend_from_slice(w.as_bytes());
        b.push(0);
        b.extend_from_slice(&count.to_le_bytes());
        b.push(*kind);
    }
    let words = entries.iter().filter(|e| e.2 == 0).count() as i64;
    for rows in [words + bucket as i64, 1] {
        b.push(0);
        b.extend_from_slice(&rows.to_le_bytes());
        b.extend_from_slice(&(dim as i64).to_le_bytes());
        for i in 0..rows {
            b.extend_from_slice(&(i as f32).to_le_bytes());
        }
    }
    b
}

fn rich_model() -> Model {
    let bytes = model_bytes(
        3,
        11,
        2,
        4,
        &[("the", 5, 0), ("cat", 3, 0), ("__label__en", 4, 1), ("__label__de", 2, 1)],
    );
    Model::load_from_bytes(&bytes).unwrap()
}

fn same_model(a: &Model, b: &Model) -> bool {
    a.args.dim == b.args.dim
        && a.args.bucket == b.args.bucket
        && a.args.word_ngrams == b.args.word_ngrams
        && a.args.t_bits == b.args.t_bits
        && a.words == b.words
        && a.labels == b.labels
        && a.label_counts == b.label_counts
        && a.num_words == b.num_words
        && a.num_labels == b.num_labels
        && a.win == b.win
        && a.wout == b.wout
        && a.paths == b.paths
        && a.codes == b.codes
}

fn is_subsequence(a: &[usize], b: &[usize]) -> bool {
    let mut j = 0;
    for x in a {
        while j < b.len() && b[j] != *x {
            j += 1;
        }
        if j == b.len() {
            return false;
        }
        j += 1;
    }
    true
}

#[test]
fn tokens_of_joined_texts() {
    let joined = tokens("the  cat\tsat on");
    let mut parts = tokens("the  cat");
    parts.extend(tokens("sat on"));
    assert_eq!(joined, parts);
    assert_eq!(tokens("word"), vec!["word"]);
}

#[test]
fn explicit_end_of_sentence_ends_document() {
    let m = rich_model();
    let base = document_features("the cat sat", &m);
    assert_eq!(document_features("the cat sat </s> more words here", &m), base);
    assert_eq!(document_features("the cat sat\n</s>\tthe", &m), base);
    assert_ne!(document_features("the cat sat more", &m), base);
}

#[test]
fn label_between_tokens_adds_nothing() {
    let m = rich_model();
    let plain = document_features("the cat sat", &m);
    assert_eq!(document_features("the __label__en cat sat", &m), plain);
    assert_eq!(document_features("the cat __label__unknown sat", &m), plain);
    assert_ne!(document_features("the cat dog sat", &m), plain);
}

#[test]
fn minn_zero_acts_as_one() {
    for w in ["a", "cat", "h\u{e9}llo", "</s>x"] {
        for maxn in [0usize, 1, 3, 6] {
            assert_eq!(get_subword_hashes(w, 0, maxn, 97), get_subword_hashes(w, 1, maxn, 97));
        }
    }
}

#[test]
fn wider_subword_range_adds_subwords() {
    let narrow = get_subword_hashes("kitten", 3, 4, 1_000_003);
    let wide = get_subword_hashes("kitten", 2, 6, 1_000_003);
    assert!(narrow.len() < wide.len());
    assert!(is_subsequence(&narrow, &wide));
    assert!(is_subsequence(&get_subword_hashes("ab", 5, 6, 13), &wide));
}

#[test]
fn every_strict_prefix_of_exact_file_is_refused() {
    let mut e = Vec::new();
    e.extend_from_slice(&[0xBA, 0x16, 0x4F, 0x2F]);
    e.extend_from_slice(&12i32.to_le_bytes());
    e.extend_from_slice(&1i32.to_le_bytes());
    e.extend_from_slice(&[0u8; 114]);
    assert_eq!(e.len(), 126);
    assert!(Model::load_from_bytes(&e).is_ok());
    for n in 0..126 {
        assert_eq!(Model::load_from_bytes(&e[..n]).err(), Some(LoadError::UnexpectedEof), "prefix {}", n);
    }
}

#[test]
fn trailing_bytes_are_ignored() {
    let bytes = model_bytes(2, 3, 1, 2, &[("x", 1, 0), ("__label__a", 1, 1)]);
    let m = Model::load_from_bytes(&bytes).unwrap();
    let mut longer = bytes.clone();
    longer.extend_from_slice(&[0xff, 0, 7, 1, 2, 3]);
    let m2 = Model::load_from_bytes(&longer).unwrap();
    assert!(same_model(&m, &m2));
}

#[test]
fn pruning_table_contents_are_skipped() {
    let bytes = model_bytes(2, 3, 1, 2, &[("x", 1, 0), ("__label__a", 1, 1)]);
    let mut with_table = bytes[..92].to_vec();
    with_table[84..92].copy_from_slice(&2i64.to_le_bytes());
    with_table.extend_from_slice(&[1u8; 16]);
    with_table.extend_from_slice(&bytes[92..]);
    let m = Model::load_from_bytes(&with_table).unwrap();
    let mut other = with_table.clone();
    for b in &mut other[92..108] {
        *b = 0xa5;
    }
    let m2 = Model::load_from_bytes(&other).unwrap();
    assert!(same_model(&m, &m2));
    assert!(same_model(&m, &Model::load_from_bytes(&bytes).unwrap()));
}

#[test]
fn huffman_code_is_prefix_free() {
    let counts = [40i64, 30, 20, 10, 10, 5, 3, 1];
    let (paths, codes) = build_huffman_tree(&counts);
    assert_eq!(paths.len(), counts.len());
    for i in 0..codes.len() {
        for j in 0..codes.len() {
            if i == j {
                continue;
            }
            let (ci, cj) = (&codes[i], &codes[j]);
            for t in 0..=cj.len() {
                assert_ne!(&cj[t..], &ci[..], "labels {} and {}", i, j);
            }
        }
    }
}

#[test]
fn huffman_code_lengths_meet_kraft_equality() {
    for counts in [vec![5i64, 5], vec![9, 4, 4, 1], vec![40, 30, 20, 10, 10, 5, 3, 1], vec![1; 7]] {
        let (_, codes) = build_huffman_tree(&counts);
        let e = 2 * counts.len() as u32 - 1;
        let sum: u64 = codes.iter().map(|c| 1u64 << (e - c.len() as u32)).sum();
        assert_eq!(sum, 1u64 << e);
    }
}
