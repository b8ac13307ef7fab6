//! Building dictionary words from the fields of a tabular record.

use crate::word::{normalize, Word, TERMINAL_SOUND};
use vstd::prelude::*;

verus! {

/// The character that parts the fields of a record.
pub const FIELD_SEPARATOR: char = ',';

/// The texts of a sequence of strings.
pub open spec fn texts(fields: Seq<String>) -> Seq<Seq<char>> {
    fields.map_values(|field: String| field@)
}

/// The pieces of `line` between the occurrences of `separator`: one more
/// piece than there are separators, each possibly empty.
pub open spec fn split_on(line: Seq<char>, separator: char) -> Seq<Seq<char>>
    decreases line.len(),
{
    if line.len() == 0 {
        seq![Seq::empty()]
    } else {
        let before = split_on(line.drop_last(), separator);
        if line.last() == separator {
            before.push(Seq::empty())
        } else {
            before.drop_last().push(before.last().push(line.last()))
        }
    }
}

/// The pieces put together again, with `separator` between them.
pub open spec fn join(pieces: Seq<Seq<char>>, separator: char) -> Seq<char>
    decreases pieces.len(),
{
    if pieces.len() == 0 {
        Seq::empty()
    } else if pieces.len() == 1 {
        pieces[0]
    } else {
        join(pieces.drop_last(), separator).push(separator) + pieces.last()
    }
}

/// Splitting loses nothing: there is at least one piece, no piece holds the
/// separator, and the pieces joined by the separator are the line.
pub proof fn lemma_split_on(line: Seq<char>, separator: char)
    ensures
        split_on(line, separator).len() >= 1,
        forall|k: int, i: int|
            0 <= k < split_on(line, separator).len() && 0 <= i < split_on(line, separator)[k].len()
                ==> (#[trigger] split_on(line, separator)[k][i]) != separator,
        join(split_on(line, separator), separator) == line,
    decreases line.len(),
{
    if line.len() > 0 {
        let shorter = line.drop_last();
        lemma_split_on(shorter, separator);
        let before = split_on(shorter, separator);
        let now = split_on(line, separator);
        if line.last() == separator {
            assert(now.drop_last() =~= before);
            assert(join(now, separator) =~= line);
        } else {
            let grown = before.last().push(line.last());
            assert(now.last() == grown);
            if before.len() == 1 {
                assert(join(now, separator) =~= line);
            } else {
                assert(now.drop_last() =~= before.drop_last());
                let head = join(before.drop_last(), separator).push(separator);
                assert(join(before, separator) == head + before.last());
                assert(join(now, separator) == head + grown);
                assert(head + grown =~= (head + before.last()).push(line.last()));
                assert(line =~= shorter.push(line.last()));
            }
        }
    }
}

/// The fields of a record: the pieces of `record` between its separators.
pub fn split_record(record: &str) -> (fields: Vec<String>)
    ensures
        texts(fields@) == split_on(record@, FIELD_SEPARATOR),
{
    let mut fields: Vec<String> = Vec::new();
    let mut current = String::new();
    for c in it: record.chars()
        invariant
            it.seq() == record@,
            texts(fields@).push(current@) == split_on(
                record@.take(it.index() as int),
                FIELD_SEPARATOR,
            ),
    {
        let ghost before = texts(fields@).push(current@);
        let ghost read = record@.take(it.index() + 1);
        assert(read.drop_last() =~= record@.take(it.index() as int));
        if c == FIELD_SEPARATOR {
            fields.push(current);
            current = String::new();
            assert(texts(fields@).push(current@) =~= before.push(Seq::empty()));
        } else {
            current.push(c);
            assert(texts(fields@).push(current@) =~= before.drop_last().push(before.last().push(c)));
        }
    }
    assert(record@.take(record@.len() as int) =~= record@);
    let ghost whole = texts(fields@).push(current@);
    fields.push(current);
    assert(texts(fields@) =~= whole);
    fields
}

/// Whether a reading is taken into a dictionary: it has more than one sound
/// and does not start with the terminal sound.
pub open spec fn usable_reading(reading: Seq<char>) -> bool {
    reading.len() > 1 && reading[0] != TERMINAL_SOUND
}

/// Whether a record is taken into a dictionary: its filter field has the
/// wanted value and its reading field is usable.
pub open spec fn record_is_kept(
    fields: Seq<String>,
    filter_index: int,
    filter_value: Seq<char>,
    reading_index: int,
) -> bool {
    fields[filter_index]@ == filter_value && usable_reading(fields[reading_index]@)
}

/// Whether `reading` is taken into a dictionary.
pub fn is_usable_reading(reading: &str) -> (usable: bool)
    ensures
        usable == usable_reading(reading@),
{
    reading.unicode_len() > 1 && reading.get_char(0) != TERMINAL_SOUND
}

/// The word that a record stands for, if the record is kept: its text is the
/// text field as it is, its reading the normalized reading field.
pub fn word_from_record(
    fields: &Vec<String>,
    text_index: usize,
    filter_index: usize,
    filter_value: &str,
    reading_index: usize,
) -> (word: Option<Word>)
    requires
        text_index < fields.len(),
        filter_index < fields.len(),
        fields[filter_index as int]@ == filter_value@ ==> reading_index < fields.len(),
    ensures
        word is Some <==> record_is_kept(
            fields@,
            filter_index as int,
            filter_value@,
            reading_index as int,
        ),
        word is Some ==> word->0.text@ == fields[text_index as int]@ && word->0.reading@
            == normalize(fields[reading_index as int]@),
{
    let wanted = String::from_str(filter_value);
    if fields[filter_index] == wanted {
        if is_usable_reading(fields[reading_index].as_str()) {
            return Some(Word::new(fields[text_index].clone(), fields[reading_index].clone()));
        }
    }
    None
}

} // verus!
