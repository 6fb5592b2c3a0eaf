use ft_filter::features::document_features;
use ft_filter::filter::{record_text, resolve_label, LabelError};
use ft_filter::huffman::{build_huffman_tree, Node};
use ft_filter::model::{LoadError, Model, FASTTEXT_MAGIC};
use ft_filter::tokenize::{fasttext_hash, get_subword_hashes};

struct Spec<'a> {
    dim: i32,
    word_ngrams: i32,
    loss: i32,
    bucket: i32,
    minn: i32,
    maxn: i32,
    entries: &'a [(&'a str, i64, u8)],
    win_rows: i64,
    wout_rows: i64,
}

fn model_bytes(s: &Spec) -> Vec<u8> {
    let mut b = Vec::new();
    b.extend_from_slice(&FASTTEXT_MAGIC.to_le_bytes());
    b.extend_from_slice(&12i32.to_le_bytes());
    for v in [s.dim, 5, 5, 1, 5, s.word_ngrams, s.loss, 3, s.bucket, s.minn, s.maxn, 100] {
        b.extend_from_slice(&v.to_le_bytes());
    }
    b.extend_from_slice(&0.0001f64.to_le_bytes());
    b.extend_from_slice(&(s.entries.len() as i32).to_le_bytes());
    b.extend_from_slice(&0i32.to_le_bytes());
    b.extend_from_slice(&0i32.to_le_bytes());
    b.extend_from_slice(&0i64.to_le_bytes());
    b.extend_from_slice(&(-1i64).to_le_bytes());
    for (w, count, kind) in s.entries {
        b.extend_from_slice(w.as_bytes());
        b.push(0);
        b.extend_from_slice(&count.to_le_bytes());
        b.push(*kind);
    }
    for rows in [s.win_rows, s.wout_rows] {
        b.push(0);
        b.extend_from_slice(&rows.to_le_bytes());
        b.extend_from_slice(&(s.dim as i64).to_le_bytes());
        for i in 0..rows * s.dim as i64 {
            b.extend_from_slice(&(i as f32 * 0.5).to_le_bytes());
        }
    }
    b
}

fn small(loss: i32, entries: &[(&str, i64, u8)]) -> Vec<u8> {
    model_bytes(&Spec {
        dim: 2,
        word_ngrams: 1,
        loss,
        bucket: 0,
        minn: 0,
        maxn: 0,
        entries,
        win_rows: 3,
        wout_rows: 2,
    })
}

#[test]
fn loads_header_dictionary_and_matrices() {
    let bytes = small(2, &[("hello", 7, 0), ("world", 3, 0), ("__label__a", 9, 1), ("odd", 1, 5)]);
    let m = Model::load_from_bytes(&bytes).unwrap();
    assert_eq!(m.args.dim, 2);
    assert_eq!(m.args.loss, 2);
    assert_eq!(m.args.t_bits, 0.0001f64.to_bits());
    assert_eq!(m.words, vec!["hello".to_string(), "world".to_string()]);
    assert_eq!(m.labels, vec!["__label__a".to_string()]);
    assert_eq!(m.label_counts, vec![9]);
    assert_eq!(m.num_words, 2);
    assert_eq!(m.num_labels, 1);
    assert_eq!(m.win.len(), 6);
    assert_eq!(m.wout.len(), 4);
    assert_eq!(f32::from_bits(m.win[3]), 1.5);
    assert!(m.paths.is_empty() && m.codes.is_empty());
}

#[test]
fn rejects_bad_magic() {
    let mut bytes = small(2, &[]);
    bytes[0] ^= 1;
    let magic = i32::from_le_bytes([bytes[0], bytes[1], bytes[2], bytes[3]]);
    assert_eq!(Model::load_from_bytes(&bytes).err(), Some(LoadError::InvalidMagic(magic)));
}

#[test]
fn rejects_newer_version() {
    let mut bytes = small(2, &[]);
    bytes[4..8].copy_from_slice(&13i32.to_le_bytes());
    assert_eq!(Model::load_from_bytes(&bytes).err(), Some(LoadError::UnsupportedVersion));
}

#[test]
fn rejects_truncated_files() {
    let bytes = small(2, &[("hello", 7, 0)]);
    for cut in [0, 3, 7, 50, 91, 95, bytes.len() - 1] {
        assert_eq!(Model::load_from_bytes(&bytes[..cut]).err(), Some(LoadError::UnexpectedEof));
    }
}

#[test]
fn rejects_quantized_matrices() {
    let bytes = small(2, &[("hi", 1, 0)]);
    let flag_in = 92 + 2 + 1 + 9;
    let mut q_in = bytes.clone();
    q_in[flag_in] = 1;
    assert_eq!(Model::load_from_bytes(&q_in).err(), Some(LoadError::QuantizedInput));
    let flag_out = flag_in + 17 + 4 * 6;
    let mut q_out = bytes.clone();
    q_out[flag_out] = 1;
    assert_eq!(Model::load_from_bytes(&q_out).err(), Some(LoadError::QuantizedOutput));
}

#[test]
fn skips_pruning_table_and_fails_past_end() {
    let mut bytes = small(2, &[]);
    bytes[84..92].copy_from_slice(&1_000_000i64.to_le_bytes());
    assert_eq!(Model::load_from_bytes(&bytes).err(), Some(LoadError::UnexpectedEof));
}

#[test]
fn hierarchical_softmax_builds_label_paths() {
    let bytes = small(1, &[("__label__a", 10, 1), ("__label__b", 5, 1), ("__label__c", 3, 1)]);
    let m = Model::load_from_bytes(&bytes).unwrap();
    assert_eq!(m.paths, vec![vec![1], vec![0, 1], vec![0, 1]]);
    assert_eq!(m.codes, vec![vec![true], vec![true, false], vec![false, false]]);
}

#[test]
fn hierarchical_softmax_refuses_max_count() {
    let bytes = small(1, &[("__label__a", i64::MAX, 1), ("__label__b", 5, 1)]);
    assert_eq!(Model::load_from_bytes(&bytes).err(), Some(LoadError::InvalidLabelTree));
}

#[test]
fn huffman_tree_of_few_labels() {
    let (p, c) = build_huffman_tree(&[]);
    assert!(p.is_empty() && c.is_empty());
    let (p, c) = build_huffman_tree(&[4]);
    assert_eq!(p, vec![Vec::<usize>::new()]);
    assert_eq!(c, vec![Vec::<bool>::new()]);
    let (p, c) = build_huffman_tree(&[2, 2]);
    assert_eq!(p, vec![vec![0], vec![0]]);
    assert_eq!(c, vec![vec![true], vec![false]]);
}

#[test]
fn huffman_codes_distinct_and_end_at_root() {
    let counts = [40, 30, 20, 10, 5, 5, 1];
    let (p, c) = build_huffman_tree(&counts);
    for i in 0..counts.len() {
        assert_eq!(p[i].len(), c[i].len());
        assert_eq!(*p[i].last().unwrap(), counts.len() - 2);
        for j in 0..counts.len() {
            if i != j {
                assert!(p[i] != p[j] || c[i] != c[j]);
            }
        }
    }
}

#[test]
fn node_default_is_zeroed() {
    let n = Node::default();
    assert_eq!((n.parent, n.left, n.right, n.count, n.binary), (0, 0, 0, 0, false));
}

#[test]
fn word_and_label_lookup_take_last_position() {
    let bytes = small(2, &[("dup", 1, 0), ("x", 1, 0), ("dup", 1, 0), ("__label__q", 2, 1)]);
    let m = Model::load_from_bytes(&bytes).unwrap();
    assert_eq!(m.word_id(b"dup"), Some(2));
    assert_eq!(m.word_id(b"x"), Some(1));
    assert_eq!(m.word_id(b"y"), None);
    assert_eq!(m.label_id(b"__label__q"), Some(0));
    assert_eq!(m.label_id(b"dup"), None);
}

#[test]
fn bucket_rows_must_lie_in_matrix() {
    let bytes = small(2, &[("a", 1, 0)]);
    let m = Model::load_from_bytes(&bytes).unwrap();
    assert_eq!(m.bucket_id(0), Some(1));
    assert_eq!(m.bucket_id(1), Some(2));
    assert_eq!(m.bucket_id(2), None);
    assert_eq!(m.bucket_id(usize::MAX), None);
}

#[test]
fn features_words_only() {
    let bytes = small(2, &[("a", 1, 0), ("b", 1, 0), ("__label__x", 1, 1)]);
    let m = Model::load_from_bytes(&bytes).unwrap();
    assert_eq!(document_features("a c b", &m), vec![0, 1]);
    assert_eq!(document_features("b __label__x a __label__other", &m), vec![1, 0]);
    assert_eq!(document_features("", &m), Vec::<usize>::new());
}

#[test]
fn features_stop_at_end_of_sentence() {
    let bytes = small(2, &[("a", 1, 0), ("</s>", 1, 0)]);
    let m = Model::load_from_bytes(&bytes).unwrap();
    assert_eq!(document_features("a", &m), vec![0, 1]);
    assert_eq!(document_features("a </s> a a", &m), vec![0, 1]);
}

#[test]
fn features_with_subwords_and_word_ngrams() {
    let bucket = 5usize;
    let bytes = model_bytes(&Spec {
        dim: 1,
        word_ngrams: 2,
        loss: 3,
        bucket: bucket as i32,
        minn: 2,
        maxn: 2,
        entries: &[("ab", 1, 0)],
        win_rows: 1 + bucket as i64,
        wout_rows: 1,
    });
    let m = Model::load_from_bytes(&bytes).unwrap();
    let mut expected = vec![0];
    for b in get_subword_hashes("ab", 2, 2, bucket) {
        expected.push(1 + b);
    }
    for b in get_subword_hashes("cd", 2, 2, bucket) {
        expected.push(1 + b);
    }
    let hs: Vec<i32> = ["ab", "cd", "</s>"]
        .iter()
        .map(|t| fasttext_hash(t.as_bytes()) as i32)
        .collect();
    for i in 0..2 {
        let h = (hs[i] as u64).wrapping_mul(116049371).wrapping_add(hs[i + 1] as u64);
        expected.push(1 + (h % bucket as u64) as usize);
    }
    assert_eq!(document_features("ab cd", &m), expected);
}

#[test]
fn record_text_strips_only_line_framing() {
    assert_eq!(record_text("text\r\n"), "text");
    assert_eq!(record_text("text\n\n"), "text");
    assert_eq!(record_text("text \t"), "text \t");
    assert_eq!(record_text("\r\n"), "");
    assert_eq!(record_text("a\u{00a0}\n"), "a\u{00a0}");
}

#[test]
fn label_resolution() {
    let bytes = small(2, &[("w", 1, 0), ("__label__en", 5, 1), ("__label__fr", 4, 1)]);
    let m = Model::load_from_bytes(&bytes).unwrap();
    assert_eq!(resolve_label(&m, None), Ok(0));
    assert_eq!(resolve_label(&m, Some("__label__fr")), Ok(1));
    assert_eq!(resolve_label(&m, Some("__label__de")), Err(LabelError::NotFound));
    let empty = Model::load_from_bytes(&small(2, &[("w", 1, 0)])).unwrap();
    assert_eq!(resolve_label(&empty, None), Err(LabelError::NoLabels));
}

#[test]
fn lossy_words_are_repaired() {
    let mut bytes = small(2, &[("abc", 1, 0)]);
    bytes[93] = 0xff;
    let m = Model::load_from_bytes(&bytes).unwrap();
    assert_eq!(m.words, vec!["a\u{fffd}c".to_string()]);
}

#[test]
fn embedded_newlines_score_like_spaces() {
    let bucket = 7usize;
    let bytes = model_bytes(&Spec {
        dim: 1,
        word_ngrams: 3,
        loss: 3,
        bucket: bucket as i32,
        minn: 1,
        maxn: 3,
        entries: &[("a", 1, 0), ("b", 1, 0)],
        win_rows: 2 + bucket as i64,
        wout_rows: 1,
    });
    let m = Model::load_from_bytes(&bytes).unwrap();
    assert_eq!(
        document_features("a\nb c\n\nd", &m),
        document_features("a b c  d", &m)
    );
}
