//! Decisions of the command line that do not touch files or the terminal:
//! where the table comes from, and what of an input line gets tokenized.

use vstd::prelude::*;
use vstd::string::StrSliceExecFns;

use crate::text::text_chars;

verus! {

broadcast use vstd::string::group_string_axioms;

/// Where the table for tokenizing comes from.
#[derive(Debug, Clone, PartialEq, Eq)]
pub enum TableSource {
    /// Read the table file at this path.
    Load(String),
    /// Train on the corpus file at this path.
    TrainOnFile(String),
    /// Train on the text to be tokenized.
    TrainOnText,
}

/// Why no table source can be chosen.
#[derive(Debug, Clone, Copy, PartialEq, Eq, Structural)]
pub enum SourceError {
    /// Both a table file and a corpus file were given.
    BothGiven,
    /// Neither a table file, nor a corpus file, nor a text was given.
    NothingGiven,
}

/// Chooses the table source: a table file or a corpus file when exactly one
/// is given; training on the text itself when neither is given and there is
/// a text.
pub fn table_source(table: Option<String>, train: Option<String>, text_given: bool) -> (source:
    Result<TableSource, SourceError>)
    ensures
        match (table, train) {
            (Some(t), Some(_)) => source == Err::<TableSource, SourceError>(SourceError::BothGiven),
            (Some(t), None) => source == Ok::<TableSource, SourceError>(TableSource::Load(t)),
            (None, Some(c)) => source == Ok::<TableSource, SourceError>(TableSource::TrainOnFile(c)),
            (None, None) => source == if text_given {
                Ok::<TableSource, SourceError>(TableSource::TrainOnText)
            } else {
                Err::<TableSource, SourceError>(SourceError::NothingGiven)
            },
        },
{
    match (table, train) {
        (Some(_), Some(_)) => Err(SourceError::BothGiven),
        (Some(t), None) => Ok(TableSource::Load(t)),
        (None, Some(c)) => Ok(TableSource::TrainOnFile(c)),
        (None, None) => if text_given {
            Ok(TableSource::TrainOnText)
        } else {
            Err(SourceError::NothingGiven)
        },
    }
}

/// `s` without the copies of `c` at its end.
pub open spec fn trim_end(s: Seq<char>, c: char) -> Seq<char>
    decreases s.len(),
{
    if s.len() > 0 && s.last() == c {
        trim_end(s.drop_last(), c)
    } else {
        s
    }
}

/// What of an input line gets tokenized: the line without its trailing
/// newlines, then without the carriage returns before them.
pub open spec fn line_text(line: Seq<char>) -> Seq<char> {
    trim_end(trim_end(line, '\n'), '\r')
}

/// The length of `s.take(k)` once the copies of `c` at its end are gone.
fn trimmed_len(chars: &Vec<char>, k: usize, c: char) -> (m: usize)
    requires
        k <= chars@.len(),
    ensures
        m <= k,
        chars@.take(m as int) == trim_end(chars@.take(k as int), c),
{
    let mut m = k;
    while m > 0 && chars[m - 1] == c
        invariant
            m <= k <= chars@.len(),
            trim_end(chars@.take(k as int), c) == trim_end(chars@.take(m as int), c),
        decreases m,
    {
        assert(chars@.take(m as int).drop_last() =~= chars@.take(m - 1));
        m -= 1;
    }
    m
}

/// The part of `line` that gets tokenized.
pub fn strip_line_end(line: &str) -> (text: String)
    ensures
        text@ == line_text(line@),
{
    let chars = text_chars(line);
    let k1 = trimmed_len(&chars, chars.len(), '\n');
    let k2 = trimmed_len(&chars, k1, '\r');
    proof {
        assert(chars@.take(chars@.len() as int) =~= chars@);
        assert(chars@.take(k1 as int).take(k2 as int) =~= chars@.take(k2 as int));
    }
    line.substring_char(0, k2).to_owned()
}

} // verus!
