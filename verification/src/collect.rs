//! Match discovery: every window of every training line is looked up in the
//! index of the validation corpus.

use vstd::prelude::*;
use vstd::slice::slice_subrange;
use vstd::utf8::encode_utf8;
use crate::error::PipelineError;
use crate::records::RawMatch;
use crate::suffix_index::{SuffixIndex, occurrence_list};

verus! {

/// The windows of `match_size` bytes of `text`, one at every start at which a
/// whole window fits, in the order of their starts. A text shorter than a
/// window has none.
pub open spec fn windows_of(text: Seq<u8>, match_size: nat) -> Seq<Seq<u8>> {
    if text.len() < match_size {
        Seq::empty()
    } else {
        Seq::new((text.len() - match_size + 1) as nat, |start: int| text.subrange(start, start + match_size))
    }
}

/// A text of `n` bytes with `match_size <= n` has `n - match_size + 1`
/// windows; window `start` holds the `match_size` bytes from `start` on, for
/// every `start` from `0` to `n - match_size`.
pub proof fn lemma_window_completeness(text: Seq<u8>, match_size: nat)
    requires
        match_size <= text.len(),
    ensures
        windows_of(text, match_size).len() == text.len() - match_size + 1,
        forall|start: int|
            0 <= start <= text.len() - match_size ==> (#[trigger] windows_of(text, match_size)[start]) == text.subrange(
                start,
                start + match_size,
            ) && windows_of(text, match_size)[start].len() == match_size,
{
}

/// A text shorter than a window has no window.
pub proof fn lemma_window_vacuity(text: Seq<u8>, match_size: nat)
    requires
        text.len() < match_size,
    ensures
        windows_of(text, match_size).len() == 0,
{
}

/// The matches of one window: one for each occurrence of the window in the
/// validation corpus, tagged with the training document and the line.
pub open spec fn window_matches(
    path_idx: usize,
    line_num: usize,
    index: (Seq<u8>, Seq<u64>),
    window: Seq<u8>,
) -> Seq<RawMatch> {
    occurrence_list(index.0, index.1, window).map_values(|position: u64| (path_idx, line_num, position))
}

/// The matches of each window of a line.
pub open spec fn matches_by_window(
    path_idx: usize,
    line_num: usize,
    text: Seq<u8>,
    index: (Seq<u8>, Seq<u64>),
    match_size: nat,
) -> Seq<Seq<RawMatch>> {
    windows_of(text, match_size).map_values(|window: Seq<u8>| window_matches(path_idx, line_num, index, window))
}

/// The matches of one training line: those of its first window, then those of
/// its second, and so on.
pub open spec fn line_matches(
    path_idx: usize,
    line_num: usize,
    text: Seq<u8>,
    index: (Seq<u8>, Seq<u64>),
    match_size: nat,
) -> Seq<RawMatch> {
    matches_by_window(path_idx, line_num, text, index, match_size).flatten()
}

/// The matches of each line of a training document, the lines numbered from
/// 0.
pub open spec fn matches_by_line(
    path_idx: usize,
    texts: Seq<Seq<u8>>,
    index: (Seq<u8>, Seq<u64>),
    match_size: nat,
) -> Seq<Seq<RawMatch>> {
    Seq::new(texts.len(), |line: int| line_matches(path_idx, line as usize, texts[line], index, match_size))
}

/// The matches of a training document: those of its first line, then those of
/// its second, and so on.
pub open spec fn document_matches(
    path_idx: usize,
    texts: Seq<Seq<u8>>,
    index: (Seq<u8>, Seq<u64>),
    match_size: nat,
) -> Seq<RawMatch> {
    matches_by_line(path_idx, texts, index, match_size).flatten()
}

/// The string that a line of JSON text holds under a key. `None` where the
/// line is no JSON text, where it is no object or has no such key, and where
/// what stands under the key is no string.
pub uninterp spec fn json_string_field(line: Seq<char>, key: Seq<char>) -> Option<Seq<char>>;

/// `serde_json::from_str` reads `line` as a `serde_json::Value`, and
/// `Value::get` looks `key` up in it: the string found there is handed back.
/// A line that does not parse, a value without the key, and a value under
/// the key that is no string all give `None`.
#[verifier::external_body]
fn read_string_field(line: &str, key: &str) -> (field: Option<String>)
    ensures
        field matches Some(text) ==> json_string_field(line@, key@) == Some(text@),
        field is None ==> json_string_field(line@, key@) is None,
{
    let value: serde_json::Value = match serde_json::from_str(line) {
        Ok(value) => value,
        Err(_) => return None,
    };
    match value.get(key) {
        Some(serde_json::Value::String(text)) => Some(text.clone()),
        _ => None,
    }
}

/// The bytes of the text of a training line: the UTF-8 encoding of the string
/// under the key `text`. `None` where the line has no such string.
pub open spec fn line_text(line: Seq<char>) -> Option<Seq<u8>> {
    match json_string_field(line, "text"@) {
        Some(text) => Some(encode_utf8(text)),
        None => None,
    }
}

/// The texts of the lines of a training document, where every line has one.
pub open spec fn line_texts(lines: Seq<String>) -> Seq<Seq<u8>> {
    Seq::new(lines.len(), |i: int| line_text(lines[i]@).unwrap())
}

/// Looks every window of one line's text up in the index and appends one
/// match for each occurrence found.
pub fn collect_line(
    path_idx: usize,
    line_num: usize,
    text: &[u8],
    index: &SuffixIndex,
    match_size: usize,
    output: &mut Vec<RawMatch>,
)
    ensures
        final(output)@ == old(output)@ + line_matches(path_idx, line_num, text@, index@, match_size as nat),
{
    let ghost given = output@;
    let ghost windows = windows_of(text@, match_size as nat);
    let ghost by_window = matches_by_window(path_idx, line_num, text@, index@, match_size as nat);
    let n = text.len();
    if n < match_size {
        proof {
            assert(by_window =~= Seq::<Seq<RawMatch>>::empty());
            assert(output@ =~= given + by_window.flatten());
        }
        return ;
    }
    let last = n - match_size;
    let mut start: usize = 0;
    proof {
        assert(by_window.take(0) =~= Seq::<Seq<RawMatch>>::empty());
        assert(output@ =~= given + by_window.take(0).flatten());
    }
    loop
        invariant_except_break
            output@ == given + by_window.take(start as int).flatten(),
        invariant
            n == text.len(),
            match_size <= n,
            last == n - match_size,
            start <= last,
            windows == windows_of(text@, match_size as nat),
            by_window == matches_by_window(path_idx, line_num, text@, index@, match_size as nat),
        ensures
            output@ == given + by_window.flatten(),
        decreases last - start,
    {
        let window = slice_subrange(text, start, start + match_size);
        let found = index.occurrences(window);
        let ghost before = output@;
        let count = found.len();
        let mut j: usize = 0;
        while j < count
            invariant
                count == found.len(),
                j <= count,
                output@ == before + found@.take(j as int).map_values(|position: u64| (path_idx, line_num, position)),
            decreases count - j,
        {
            output.push((path_idx, line_num, found[j]));
            proof {
                let tag = |position: u64| (path_idx, line_num, position);
                assert(found@.take(j + 1).map_values(tag) =~= found@.take(j as int).map_values(tag).push(tag(found@[j as int])));
            }
            j += 1;
        }
        proof {
            assert(found@.take(count as int) =~= found@);
            assert(windows[start as int] == window@);
            assert(by_window[start as int] == window_matches(path_idx, line_num, index@, window@));
            assert(by_window.take(start + 1) =~= by_window.take(start as int).push(by_window[start as int]));
            by_window.take(start as int).lemma_flatten_push(by_window[start as int]);
            assert(output@ =~= given + by_window.take(start + 1).flatten());
        }
        if start == last {
            proof {
                assert(by_window.take(start + 1) =~= by_window);
            }
            break ;
        }
        start += 1;
    }
}

/// Collects the raw matches of one training document. Each line is a JSON
/// object whose string under `text` is cut into windows of `match_size`
/// bytes; every window is looked up in the index. The first line without such
/// a string aborts the collection, and so does a window size of 0.
pub fn collect_matches(path_idx: usize, lines: &Vec<String>, index: &SuffixIndex, match_size: usize) -> (r: Result<
    Vec<RawMatch>,
    PipelineError,
>)
    ensures
        match_size == 0 ==> r == Err::<Vec<RawMatch>, PipelineError>(PipelineError::Config),
        match_size > 0 ==> (r is Ok <==> forall|i: int| 0 <= i < lines.len() ==> line_text(#[trigger] lines[i]@) is Some),
        r matches Ok(found) ==> found@ == document_matches(path_idx, line_texts(lines@), index@, match_size as nat),
        match_size > 0 ==> (r matches Err(e) ==> e matches PipelineError::Parse { line } && line < lines.len()
            && line_text(lines[line as int]@) is None && forall|i: int|
            0 <= i < line ==> line_text(#[trigger] lines[i]@) is Some),
{
    if match_size == 0 {
        return Err(PipelineError::Config);
    }
    let ghost texts = line_texts(lines@);
    let ghost by_line = matches_by_line(path_idx, texts, index@, match_size as nat);
    let mut output: Vec<RawMatch> = Vec::new();
    let n = lines.len();
    let mut line_num: usize = 0;
    proof {
        assert(by_line.take(0) =~= Seq::<Seq<RawMatch>>::empty());
        assert(output@ =~= by_line.take(0).flatten());
    }
    while line_num < n
        invariant
            n == lines.len(),
            line_num <= n,
            match_size > 0,
            texts == line_texts(lines@),
            by_line == matches_by_line(path_idx, texts, index@, match_size as nat),
            forall|i: int| 0 <= i < line_num ==> line_text(#[trigger] lines[i]@) is Some,
            output@ == by_line.take(line_num as int).flatten(),
        decreases n - line_num,
    {
        let text = match read_string_field(lines[line_num].as_str(), "text") {
            Some(text) => text,
            None => {
                return Err(PipelineError::Parse { line: line_num });
            },
        };
        proof {
            assert(line_text(lines[line_num as int]@) == Some(encode_utf8(text@)));
            assert(texts[line_num as int] == encode_utf8(text@));
            assert(by_line.take(line_num + 1) =~= by_line.take(line_num as int).push(by_line[line_num as int]));
            by_line.take(line_num as int).lemma_flatten_push(by_line[line_num as int]);
        }
        collect_line(path_idx, line_num, text.as_str().as_bytes(), index, match_size, &mut output);
        line_num += 1;
    }
    proof {
        assert(by_line.take(n as int) =~= by_line);
    }
    Ok(output)
}

} // verus!
