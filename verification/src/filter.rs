//! The decisions of the filtering pipeline that are not floating point: the
//! record text of an input line and the label to score.
use vstd::prelude::*;
use vstd::string::*;
use vstd::utf8::*;

use crate::dict::{last_index_of, lemma_last_index_of_sound};
use crate::model::Model;

verus! {

/// `s` without its trailing CR and LF bytes (the record framing); other
/// whitespace is kept, since it can be part of a token.
pub open spec fn spec_record_text(s: Seq<u8>) -> Seq<u8>
    decreases s.len(),
{
    if s.len() > 0 && (s.last() == 10 || s.last() == 13) {
        spec_record_text(s.drop_last())
    } else {
        s
    }
}

/// The record held by an input line: the line with its trailing CR and LF
/// characters removed.
pub fn record_text<'a>(line: &'a str) -> (r: &'a str)
    ensures
        r.spec_bytes() == spec_record_text(line.spec_bytes()),
{
    let b = line.as_bytes();
    let mut end = b.len();
    proof {
        assert(b@.subrange(0, end as int) =~= b@);
    }
    while end > 0 && (b[end - 1] == 10 || b[end - 1] == 13)
        invariant
            end <= b@.len(),
            b@ == line.spec_bytes(),
            spec_record_text(b@) == spec_record_text(b@.subrange(0, end as int)),
            forall|k: int| end <= k < b@.len() ==> b@[k] == 10 || b@[k] == 13,
        decreases end,
    {
        proof {
            assert(b@.subrange(0, end as int).drop_last() =~= b@.subrange(0, end - 1));
        }
        end = end - 1;
    }
    proof {
        encode_utf8_valid_utf8(line@);
        if end < b@.len() {
            assert(b@[end as int] == 10 || b@[end as int] == 13);
            is_char_boundary_iff_not_is_continuation_byte(b@, end as int);
        } else {
            is_char_boundary_start_end_of_seq(b@);
        }
    }
    let (r, _) = line.split_at(end);
    proof {
        assert(r.spec_bytes() =~= b@.subrange(0, end as int));
    }
    r
}

/// The string at `key` of the JSON object that `line` holds, as serde_json
/// reads it; `None` where the line is no JSON object, has no such key, or holds
/// something other than a string there.
pub uninterp spec fn json_text(line: Seq<char>, key: Seq<char>) -> Option<Seq<char>>;

/// Calls `serde_json::from_str::<serde_json::Value>` on the line, then
/// `Value::get` with the key and `Value::as_str`, and copies the string out.
/// The contract claims only that the result is `json_text` of the line and the
/// key: that serde_json's parse is a function of its input. What that parse
/// gives (escapes, duplicate keys, nesting limits) is left unsaid.
#[verifier::external_body]
pub(crate) fn json_string_field(line: &str, key: &str) -> (r: Option<String>)
    ensures
        match r {
            Some(s) => json_text(line@, key@) == Some(s@),
            None => json_text(line@, key@) is None,
        },
{
    let v: serde_json::Value = serde_json::from_str(line).ok()?;
    v.get(key)?.as_str().map(String::from)
}

/// The text of a record to be scored: for JSONL input the string at
/// `json_key` of the record's object, if it has one; for plain text the whole
/// record.
pub fn document_text(record: &str, jsonl: bool, json_key: &str) -> (r: Option<String>)
    ensures
        jsonl ==> match r {
            Some(s) => json_text(record@, json_key@) == Some(s@),
            None => json_text(record@, json_key@) is None,
        },
        !jsonl ==> (r matches Some(s) && s@ == record@),
{
    if jsonl {
        json_string_field(record, json_key)
    } else {
        Some(record.to_owned())
    }
}

/// Why no label could be chosen.
#[derive(Clone, Copy, Debug, PartialEq, Eq, Structural)]
pub enum LabelError {
    /// No label was asked for and the model has none.
    NoLabels,
    /// The label asked for is not a label of the model.
    NotFound,
}

/// The index of the label to score: the one asked for, or else the model's
/// first label; in both cases its last position in the label list.
pub fn resolve_label(model: &Model, requested: Option<&str>) -> (r: Result<usize, LabelError>)
    requires
        model.wf(),
    ensures
        match requested {
            Some(t) => match last_index_of(model.label_bytes(), t.spec_bytes()) {
                Some(i) => r == Ok::<usize, LabelError>(i as usize),
                None => r == Err::<usize, LabelError>(LabelError::NotFound),
            },
            None => if model.label_bytes().len() == 0 {
                r == Err::<usize, LabelError>(LabelError::NoLabels)
            } else {
                r == Ok::<usize, LabelError>(
                    last_index_of(model.label_bytes(), model.label_bytes()[0])->Some_0 as usize,
                )
            },
        },
        r matches Ok(i) ==> i < model.num_labels,
{
    let target: &str = match requested {
        Some(t) => t,
        None => {
            if model.labels.len() == 0 {
                return Err(LabelError::NoLabels);
            }
            model.labels[0].as_str()
        },
    };
    proof {
        if requested is None {
            lemma_first_is_found(model.label_bytes());
            assert(target.spec_bytes() == model.label_bytes()[0]);
        }
    }
    proof {
        lemma_last_index_of_sound(model.label_bytes(), target.spec_bytes());
    }
    match model.label_id(target.as_bytes()) {
        Some(i) => Ok(i),
        None => Err(LabelError::NotFound),
    }
}

proof fn lemma_first_is_found(ws: Seq<Seq<u8>>)
    requires
        ws.len() > 0,
    ensures
        last_index_of(ws, ws[0]) is Some,
{
    lemma_found_below(ws, ws[0], 0, ws.len());
}

proof fn lemma_found_below(ws: Seq<Seq<u8>>, t: Seq<u8>, i: int, n: nat)
    requires
        0 <= i < n <= ws.len(),
        ws[i] == t,
    ensures
        crate::dict::last_index_below(ws, t, n) is Some,
    decreases n,
{
    if ws[n - 1] != t {
        lemma_found_below(ws, t, i, (n - 1) as nat);
    }
}

/// Law: the record text is a prefix of the line, it does not end in CR or LF,
/// everything cut off is CR or LF, and trimming it again changes nothing.
pub proof fn lemma_record_text(s: Seq<u8>)
    ensures
        spec_record_text(s).len() <= s.len(),
        spec_record_text(s) == s.subrange(0, spec_record_text(s).len() as int),
        spec_record_text(s).len() > 0 ==> spec_record_text(s).last() != 10 && spec_record_text(
            s,
        ).last() != 13,
        forall|k: int|
            spec_record_text(s).len() <= k < s.len() ==> #[trigger] s[k] == 10 || s[k] == 13,
        spec_record_text(spec_record_text(s)) == spec_record_text(s),
    decreases s.len(),
{
    if s.len() > 0 && (s.last() == 10 || s.last() == 13) {
        lemma_record_text(s.drop_last());
        let r = spec_record_text(s.drop_last());
        assert(s.drop_last().subrange(0, r.len() as int) =~= s.subrange(0, r.len() as int));
        assert forall|k: int| r.len() <= k < s.len() implies #[trigger] s[k] == 10 || s[k] == 13 by {
            if k < s.len() - 1 {
                assert(s[k] == s.drop_last()[k]);
            }
        }
    } else {
        assert(s.subrange(0, s.len() as int) =~= s);
    }
}

} // verus!
