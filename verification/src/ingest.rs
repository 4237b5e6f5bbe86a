//! The normal form of an uploaded row: consent as a flag, preferences as a
//! list, and the stored form of a preference list.

use vstd::prelude::*;
use vstd::string::*;
use crate::models::{CsvApplicant, NewApplicant, optional_text, texts};

verus! {

/// What `str::trim` of the standard library returns for `text`: the text
/// without the white space at its two ends.
pub uninterp spec fn trimmed(text: Seq<char>) -> Seq<char>;

/// What `str::to_lowercase` of the standard library returns for `text`.
pub uninterp spec fn lowercased(text: Seq<char>) -> Seq<char>;

/// What `serde_json::from_str` reads from `text` as a list of strings, or
/// `None` where it reports an error.
pub uninterp spec fn json_text_list(text: Seq<char>) -> Option<Seq<Seq<char>>>;

/// What `serde_json::to_string` writes for the list of strings `list`, or
/// `None` where it reports an error.
pub uninterp spec fn text_list_json(list: Seq<Seq<char>>) -> Option<Seq<char>>;

/// Calls `str::trim`. The result is known by its name only: the same text
/// gives the same result.
#[verifier::external_body]
fn trim_text(text: &str) -> (out: String)
    ensures
        out@ == trimmed(text@),
{
    text.trim().to_string()
}

/// Calls `str::to_lowercase`. The result is known by its name only: the same
/// text gives the same result.
#[verifier::external_body]
fn lowercase_text(text: &str) -> (out: String)
    ensures
        out@ == lowercased(text@),
{
    text.to_lowercase()
}

/// Calls `serde_json::from_str` for a list of strings. The result is known by
/// its name only; an error of the parser comes back as `None`.
#[verifier::external_body]
fn read_text_list(text: &str) -> (out: Option<Vec<String>>)
    ensures
        match out {
            Some(list) => json_text_list(text@) == Some(texts(list@)),
            None => json_text_list(text@).is_none(),
        },
{
    match serde_json::from_str::<Vec<String>>(text) {
        Ok(list) => Some(list),
        Err(_) => None,
    }
}

/// Calls `serde_json::to_string` on a list of strings. The result is known
/// by its name only; an error of the writer comes back as `None`.
#[verifier::external_body]
fn write_text_list(list: &Vec<String>) -> (out: Option<String>)
    ensures
        optional_text(out) == text_list_json(texts(list@)),
{
    match serde_json::to_string(list) {
        Ok(text) => Some(text),
        Err(_) => None,
    }
}

/// The words that count as consent.
pub open spec fn is_truth_word(word: Seq<char>) -> bool {
    word == "true"@ || word == "1"@ || word == "да"@ || word == "+"@
}

/// Whether `word` is one of the words that count as consent: `true`, `1`,
/// `да` or `+`.
pub fn truth_word(word: &String) -> (yes: bool)
    ensures
        yes == is_truth_word(word@),
{
    *word == String::from_str("true") || *word == String::from_str("1") || *word
        == String::from_str("да") || *word == String::from_str("+")
}

/// Reads a consent field: white space at the ends and the case of the
/// letters make no difference.
pub fn parse_consent(raw: &String) -> (agreed: bool)
    ensures
        agreed == is_truth_word(lowercased(trimmed(raw@))),
{
    let bare = trim_text(raw.as_str());
    let low = lowercase_text(bare.as_str());
    truth_word(&low)
}

/// The position of the first `sep` in `text`, or the length of `text` where
/// it has none.
pub open spec fn first_sep(text: Seq<char>, sep: char) -> nat
    decreases text.len(),
{
    if text.len() == 0 || text[0] == sep {
        0
    } else {
        1 + first_sep(text.drop_first(), sep)
    }
}

/// The parts of `text` between the occurrences of `sep`: one more than there
/// are occurrences, empty parts included.
pub open spec fn pieces(text: Seq<char>, sep: char) -> Seq<Seq<char>>
    decreases text.len(),
{
    let k = first_sep(text, sep) as int;
    if k >= text.len() {
        seq![text]
    } else {
        seq![text.take(k)] + pieces(text.skip(k + 1), sep)
    }
}

/// The parts put together again, `sep` between each two.
pub open spec fn joined(parts: Seq<Seq<char>>, sep: char) -> Seq<char>
    decreases parts.len(),
{
    if parts.len() == 0 {
        Seq::empty()
    } else if parts.len() == 1 {
        parts[0]
    } else {
        parts[0] + seq![sep] + joined(parts.drop_first(), sep)
    }
}

/// Where `text` has no `sep` before `k` and ends or has one at `k`, its first
/// `sep` is at `k`.
pub proof fn lemma_first_sep(text: Seq<char>, sep: char, k: int)
    requires
        0 <= k <= text.len(),
        forall|j: int| 0 <= j < k ==> text[j] != sep,
        k == text.len() || text[k] == sep,
    ensures
        first_sep(text, sep) == k,
    decreases k,
{
    if k > 0 {
        let rest = text.drop_first();
        assert forall|j: int| 0 <= j < k - 1 implies rest[j] != sep by {
            assert(rest[j] == text[j + 1]);
        }
        lemma_first_sep(rest, sep, k - 1);
    }
}

/// The first `sep` stands within the text or at its end, and nothing before
/// it is a `sep`.
pub proof fn lemma_first_sep_is_first(text: Seq<char>, sep: char)
    ensures
        first_sep(text, sep) <= text.len(),
        forall|j: int| 0 <= j < first_sep(text, sep) ==> text[j] != sep,
        first_sep(text, sep) < text.len() ==> text[first_sep(text, sep) as int] == sep,
    decreases text.len(),
{
    if text.len() == 0 || text[0] == sep {
    } else {
        let rest = text.drop_first();
        lemma_first_sep_is_first(rest, sep);
        assert forall|j: int| 0 <= j < first_sep(text, sep) implies text[j] != sep by {
            if j > 0 {
                assert(text[j] == rest[j - 1]);
            }
        }
        assert(first_sep(text, sep) < text.len() ==> text[first_sep(text, sep) as int]
            == rest[first_sep(rest, sep) as int]);
    }
}

/// Splitting loses nothing: the parts hold no `sep`, and joined by `sep`
/// they give the text back.
pub proof fn lemma_pieces_join(text: Seq<char>, sep: char)
    ensures
        pieces(text, sep).len() >= 1,
        forall|p: int|
            0 <= p < pieces(text, sep).len() ==> !(#[trigger] pieces(text, sep)[p]).contains(sep),
        joined(pieces(text, sep), sep) == text,
    decreases text.len(),
{
    lemma_first_sep_is_first(text, sep);
    let k = first_sep(text, sep) as int;
    let parts = pieces(text, sep);
    if k >= text.len() {
        assert(parts =~= seq![text]);
        assert forall|p: int| 0 <= p < parts.len() implies !(#[trigger] parts[p]).contains(sep) by {
            if parts[p].contains(sep) {
                let j = choose|j: int| 0 <= j < text.len() && text[j] == sep;
                assert(false);
            }
        }
    } else {
        let head = text.take(k);
        let tail = text.skip(k + 1);
        lemma_pieces_join(tail, sep);
        let rest = pieces(tail, sep);
        assert(parts =~= seq![head] + rest);
        assert(parts.drop_first() =~= rest);
        assert forall|p: int| 0 <= p < parts.len() implies !(#[trigger] parts[p]).contains(sep) by {
            if p == 0 {
                if head.contains(sep) {
                    let j = choose|j: int| 0 <= j < head.len() && head[j] == sep;
                    assert(text[j] == sep);
                }
            } else {
                assert(parts[p] == rest[p - 1]);
            }
        }
        assert(joined(parts, sep) =~= head + seq![sep] + joined(rest, sep));
        assert(head + seq![sep] + tail =~= text);
    }
}

/// Splits `text` at each `sep`.
pub fn split_text(text: &str, sep: char) -> (parts: Vec<String>)
    ensures
        texts(parts@) == pieces(text@, sep),
{
    let n = text.unicode_len();
    let mut parts: Vec<String> = Vec::new();
    let mut start: usize = 0;
    let mut k: usize = 0;
    assert(text@.skip(0) =~= text@);
    assert(texts(parts@) + pieces(text@.skip(0), sep) =~= pieces(text@, sep));
    while k < n
        invariant
            n == text@.len(),
            0 <= start <= k <= n,
            forall|j: int| start <= j < k ==> text@[j] != sep,
            pieces(text@, sep) == texts(parts@) + pieces(text@.skip(start as int), sep),
        decreases n - k,
    {
        if text.get_char(k) == sep {
            let piece = text.substring_char(start, k);
            let ghost before = texts(parts@);
            let ghost rest = text@.skip(start as int);
            proof {
                assert forall|j: int| 0 <= j < k - start implies rest[j] != sep by {
                    assert(rest[j] == text@[start + j]);
                }
                lemma_first_sep(rest, sep, k - start);
                assert(rest.take(k - start) =~= text@.subrange(start as int, k as int));
                assert(rest.skip(k - start + 1) =~= text@.skip(k + 1));
            }
            parts.push(String::from_str(piece));
            assert(texts(parts@) =~= before.push(piece@));
            assert(before.push(piece@) + pieces(text@.skip(k + 1), sep) =~= before + (seq![piece@]
                + pieces(text@.skip(k + 1), sep)));
            start = k + 1;
        }
        k = k + 1;
    }
    let piece = text.substring_char(start, n);
    let ghost before = texts(parts@);
    proof {
        let rest = text@.skip(start as int);
        assert forall|j: int| 0 <= j < n - start implies rest[j] != sep by {
            assert(rest[j] == text@[start + j]);
        }
        lemma_first_sep(rest, sep, n - start);
        assert(rest =~= text@.subrange(start as int, n as int));
    }
    parts.push(String::from_str(piece));
    assert(texts(parts@) =~= before.push(piece@));
    assert(before.push(piece@) =~= before + seq![piece@]);
    parts
}

/// The entries of `list` that are not empty, in their order.
pub open spec fn without_empty(list: Seq<Seq<char>>) -> Seq<Seq<char>>
    decreases list.len(),
{
    if list.len() == 0 {
        Seq::empty()
    } else if list.last().len() == 0 {
        without_empty(list.drop_last())
    } else {
        without_empty(list.drop_last()).push(list.last())
    }
}

/// Each entry of `list` without the white space at its ends.
pub open spec fn each_trimmed(list: Seq<Seq<char>>) -> Seq<Seq<char>> {
    Seq::new(list.len(), |k: int| trimmed(list[k]))
}

/// Drops the empty entries of a list.
pub fn drop_empty(list: Vec<String>) -> (kept: Vec<String>)
    ensures
        texts(kept@) == without_empty(texts(list@)),
{
    let ghost all = texts(list@);
    let mut kept: Vec<String> = Vec::new();
    let mut k: usize = 0;
    assert(all.take(0) =~= Seq::<Seq<char>>::empty());
    assert(texts(kept@) =~= Seq::<Seq<char>>::empty());
    while k < list.len()
        invariant
            all == texts(list@),
            0 <= k <= list@.len(),
            texts(kept@) == without_empty(all.take(k as int)),
        decreases list@.len() - k,
    {
        assert(all.take(k + 1).drop_last() =~= all.take(k as int));
        assert(all.take(k + 1).last() == list@[k as int]@);
        if !list[k].as_str().is_empty() {
            let ghost before = texts(kept@);
            kept.push(list[k].clone());
            assert(texts(kept@) =~= before.push(list@[k as int]@));
        }
        k = k + 1;
    }
    assert(all.take(k as int) =~= all);
    kept
}

/// The preference list that the free text `raw` stands for: its parts
/// between semicolons, each without white space at its ends, the empty ones
/// left out.
pub open spec fn priority_list(raw: Seq<char>) -> Seq<Seq<char>> {
    without_empty(each_trimmed(pieces(raw, ';')))
}

/// Reads a preference list from free text.
pub fn split_priorities(raw: &String) -> (list: Vec<String>)
    ensures
        texts(list@) == priority_list(raw@),
{
    let parts = split_text(raw.as_str(), ';');
    let mut bare: Vec<String> = Vec::new();
    let mut k: usize = 0;
    while k < parts.len()
        invariant
            0 <= k <= parts@.len(),
            bare@.len() == k,
            forall|j: int| 0 <= j < k ==> (#[trigger] bare@[j])@ == trimmed(parts@[j]@),
        decreases parts@.len() - k,
    {
        bare.push(trim_text(parts[k].as_str()));
        k = k + 1;
    }
    assert(texts(bare@) =~= each_trimmed(texts(parts@)));
    drop_empty(bare)
}

/// Brings an uploaded row into its normal form: consent becomes a flag, the
/// preferences a list; the rest is taken as it is.
pub fn normalize_record(record: CsvApplicant) -> (person: NewApplicant)
    ensures
        person.external_id == record.id,
        person.full_name@ == record.name@,
        person.score_math == record.math,
        person.score_rus == record.rus,
        person.score_phys == record.phys,
        person.score_achieve == record.achieve,
        person.agreed == is_truth_word(lowercased(trimmed(record.agreed@))),
        texts(person.priorities@) == priority_list(record.priorities@),
{
    let agreed = parse_consent(&record.agreed);
    let priorities = split_priorities(&record.priorities);
    NewApplicant {
        external_id: record.id,
        full_name: record.name,
        score_math: record.math,
        score_rus: record.rus,
        score_phys: record.phys,
        score_achieve: record.achieve,
        agreed,
        priorities,
    }
}

/// The list that was read, or the empty list where reading failed.
pub fn list_or_empty(read: Option<Vec<String>>) -> (list: Vec<String>)
    ensures
        texts(list@) == match read {
            Some(found) => texts(found@),
            None => Seq::<Seq<char>>::empty(),
        },
{
    match read {
        Some(found) => found,
        None => {
            let list: Vec<String> = Vec::new();
            assert(texts(list@) =~= Seq::<Seq<char>>::empty());
            list
        },
    }
}

/// The preference list that a stored text holds: what the text gives when it
/// is read as a list of strings, and the empty list where it cannot be.
pub fn stored_priorities(text: &String) -> (list: Vec<String>)
    ensures
        texts(list@) == match json_text_list(text@) {
            Some(found) => found,
            None => Seq::<Seq<char>>::empty(),
        },
{
    list_or_empty(read_text_list(text.as_str()))
}

/// The text that was written, or the text of the empty list where writing
/// failed.
pub fn text_or_empty_list(written: Option<String>) -> (text: String)
    ensures
        text@ == match written {
            Some(found) => found@,
            None => "[]"@,
        },
{
    match written {
        Some(found) => found,
        None => String::from_str("[]"),
    }
}

/// The text under which a preference list is stored.
pub fn priorities_json(list: &Vec<String>) -> (text: String)
    ensures
        text@ == match text_list_json(texts(list@)) {
            Some(found) => found,
            None => "[]"@,
        },
{
    text_or_empty_list(write_text_list(list))
}

} // verus!
