//! Datasets as text: one row per line after a header line, fields
//! separated by commas, the country in the first field.

use vstd::prelude::*;
use vstd::string::StrSliceExecFns;
use crate::dataset::{MetricRecord, record_view};
use crate::error::{GraphError, ParseReason};
use crate::number::{number_of, parse_number, to_chars};

verus! {

/// The pieces of `text` between the occurrences of `separator`: one more
/// than there are separators, empty pieces included.
pub open spec fn split(text: Seq<char>, separator: char) -> Seq<Seq<char>>
    decreases text.len(),
{
    if text.len() == 0 {
        seq![Seq::empty()]
    } else {
        let before = split(text.drop_last(), separator);
        if text.last() == separator {
            before.push(Seq::empty())
        } else {
            before.update(before.len() - 1, before.last().push(text.last()))
        }
    }
}

/// A piece without the carriage return that it ends with, if it does.
pub open spec fn without_return(piece: Seq<char>) -> Seq<char> {
    if piece.len() > 0 && piece.last() == '\r' {
        piece.drop_last()
    } else {
        piece
    }
}

/// The lines of `text`. A line ends with a line feed, or with a carriage
/// return and a line feed, neither of which belongs to it; what follows the
/// last line feed is a line too unless it is empty.
pub open spec fn lines(text: Seq<char>) -> Seq<Seq<char>> {
    let parts = split(text, '\n');
    let ended = Seq::new((parts.len() - 1) as nat, |i: int| without_return(parts[i]));
    if parts.last().len() == 0 {
        ended
    } else {
        ended.push(parts.last())
    }
}

/// The record of one line: its first field with the number in the field at
/// `value_column`, where it has `columns` fields and that field is a number.
pub open spec fn row(line: Seq<char>, number: usize, columns: usize, value_column: usize) -> Result<
    (Seq<char>, int),
    GraphError,
> {
    let fields = split(line, ',');
    if fields.len() != columns {
        Err(GraphError::ParseError { line: number, reason: ParseReason::RowShape })
    } else {
        match number_of(fields[value_column as int]) {
            Some(value) => Ok((fields[0], value as int)),
            None => Err(GraphError::ParseError { line: number, reason: ParseReason::InvalidNumber }),
        }
    }
}

/// The records of the lines after the first and before line `upto`, or
/// the error of the first of them that has one. Lines count from 1.
pub open spec fn rows(
    lines: Seq<Seq<char>>,
    upto: int,
    columns: usize,
    value_column: usize,
) -> Result<Seq<(Seq<char>, int)>, GraphError>
    decreases upto,
{
    if upto <= 1 {
        Ok(Seq::empty())
    } else {
        match rows(lines, upto - 1, columns, value_column) {
            Err(e) => Err(e),
            Ok(before) => match row(lines[upto - 1], upto as usize, columns, value_column) {
                Ok(record) => Ok(before.push(record)),
                Err(e) => Err(e),
            },
        }
    }
}

/// The dataset that `text` holds: the records of all its lines but the
/// first, which is the header, or the error of the first line in error.
pub open spec fn dataset(text: Seq<char>, columns: usize, value_column: usize) -> Result<
    Seq<(Seq<char>, int)>,
    GraphError,
> {
    rows(lines(text), lines(text).len() as int, columns, value_column)
}

/// The parts of `text` that the ranges mark.
pub open spec fn pieces(text: Seq<char>, ranges: Seq<(usize, usize)>) -> Seq<Seq<char>> {
    Seq::new(ranges.len(), |i: int| text.subrange(ranges[i].0 as int, ranges[i].1 as int))
}

/// Whether each range lies between `from` and `to`.
pub open spec fn ranges_within(ranges: Seq<(usize, usize)>, from: int, to: int) -> bool {
    forall|i: int| 0 <= i < ranges.len() ==> from <= (#[trigger] ranges[i]).0 <= ranges[i].1 <= to
}

/// A text has at least one piece.
pub proof fn lemma_split_some(text: Seq<char>, separator: char)
    ensures
        split(text, separator).len() >= 1,
    decreases text.len(),
{
    if text.len() > 0 {
        lemma_split_some(text.drop_last(), separator);
    }
}

/// Once a line is in error, the error stays whatever follows.
pub proof fn lemma_rows_error_stays(
    lines: Seq<Seq<char>>,
    failed: int,
    upto: int,
    columns: usize,
    value_column: usize,
)
    requires
        failed <= upto,
        rows(lines, failed, columns, value_column) is Err,
    ensures
        rows(lines, upto, columns, value_column) == rows(lines, failed, columns, value_column),
    decreases upto - failed,
{
    if failed < upto {
        lemma_rows_error_stays(lines, failed, upto - 1, columns, value_column);
    }
}

/// Splits the part of `text` between `from` and `to` at each `separator`,
/// and returns where the pieces lie.
pub fn split_ranges(text: &Vec<char>, from: usize, to: usize, separator: char) -> (ranges: Vec<
    (usize, usize),
>)
    requires
        from <= to <= text.len(),
    ensures
        ranges_within(ranges@, from as int, to as int),
        pieces(text@, ranges@) == split(text@.subrange(from as int, to as int), separator),
{
    let mut ranges: Vec<(usize, usize)> = Vec::new();
    let mut start: usize = from;
    let mut i: usize = from;
    proof {
        assert(text@.subrange(from as int, from as int) =~= Seq::<char>::empty());
        assert(pieces(text@, ranges@).push(text@.subrange(start as int, i as int)) =~= split(
            text@.subrange(from as int, i as int),
            separator,
        ));
    }
    while i < to
        invariant
            from <= start <= i <= to <= text.len(),
            ranges_within(ranges@, from as int, to as int),
            pieces(text@, ranges@).push(text@.subrange(start as int, i as int)) == split(
                text@.subrange(from as int, i as int),
                separator,
            ),
        decreases to - i,
    {
        let ghost done = pieces(text@, ranges@);
        let ghost open = text@.subrange(start as int, i as int);
        proof {
            let next = text@.subrange(from as int, i + 1);
            assert(next.drop_last() =~= text@.subrange(from as int, i as int));
            assert(next.last() == text@[i as int]);
        }
        if text[i] == separator {
            ranges.push((start, i));
            start = i + 1;
            proof {
                assert(pieces(text@, ranges@) =~= done.push(open));
                assert(text@.subrange(start as int, i + 1) =~= Seq::<char>::empty());
            }
        } else {
            proof {
                let before = done.push(open);
                assert(open.push(text@[i as int]) =~= text@.subrange(start as int, i + 1));
                assert(before.update(before.len() - 1, before.last().push(text@[i as int]))
                    =~= done.push(text@.subrange(start as int, i + 1)));
            }
        }
        i += 1;
    }
    let ghost done = pieces(text@, ranges@);
    ranges.push((start, to));
    proof {
        assert(pieces(text@, ranges@) =~= done.push(text@.subrange(start as int, to as int)));
    }
    ranges
}

/// Where the lines of `text` lie.
pub fn line_ranges(text: &Vec<char>) -> (ranges: Vec<(usize, usize)>)
    ensures
        ranges_within(ranges@, 0, text.len() as int),
        pieces(text@, ranges@) == lines(text@),
{
    let parts = split_ranges(text, 0, text.len(), '\n');
    let n = parts.len();
    proof {
        assert(text@.subrange(0, text.len() as int) =~= text@);
        lemma_split_some(text@, '\n');
    }
    let ghost raw = split(text@, '\n');
    let mut ranges: Vec<(usize, usize)> = Vec::new();
    let mut k: usize = 0;
    while k + 1 < n
        invariant
            n == parts.len(),
            n >= 1,
            k + 1 <= n,
            ranges_within(parts@, 0, text.len() as int),
            ranges_within(ranges@, 0, text.len() as int),
            raw == pieces(text@, parts@),
            ranges.len() == k,
            forall|i: int| 0 <= i < k ==> #[trigger] pieces(text@, ranges@)[i] == without_return(raw[i]),
        decreases n - k,
    {
        let (a, b) = parts[k];
        let ghost piece = text@.subrange(a as int, b as int);
        proof {
            assert(raw[k as int] == piece);
            if a < b {
                assert(piece.last() == text@[b - 1]);
                assert(piece.drop_last() =~= text@.subrange(a as int, b - 1));
            }
        }
        let end = if a < b && text[b - 1] == '\r' {
            b - 1
        } else {
            b
        };
        let ghost before = pieces(text@, ranges@);
        ranges.push((a, end));
        proof {
            assert forall|i: int| 0 <= i < k + 1 implies #[trigger] pieces(text@, ranges@)[i]
                == without_return(raw[i]) by {
                if i < k {
                    assert(pieces(text@, ranges@)[i] == before[i]);
                }
            }
        }
        k += 1;
    }
    let ghost ended = pieces(text@, ranges@);
    let (a, b) = parts[n - 1];
    proof {
        assert(raw.last() == text@.subrange(a as int, b as int));
        assert(ended =~= Seq::new((raw.len() - 1) as nat, |i: int| without_return(raw[i])));
    }
    if a < b {
        ranges.push((a, b));
        proof {
            assert(pieces(text@, ranges@) =~= ended.push(raw.last()));
        }
    }
    ranges
}

/// Reads a dataset from the text of a file. The first line is the header
/// and is skipped. Every other line must have `columns` fields separated by
/// commas; the first is the country, and the one at `value_column`, counted
/// from 0, is the value. The first line that has another number of fields,
/// or whose value is no number, ends the reading with a
/// [`GraphError::ParseError`] that names the line, counted from 1.
pub fn read_dataset(text: &str, columns: usize, value_column: usize) -> (r: Result<
    Vec<MetricRecord>,
    GraphError,
>)
    requires
        value_column < columns,
    ensures
        match r {
            Ok(records) => dataset(text@, columns, value_column) == Ok::<
                Seq<(Seq<char>, int)>,
                GraphError,
            >(record_view(records@)),
            Err(e) => dataset(text@, columns, value_column) == Err::<
                Seq<(Seq<char>, int)>,
                GraphError,
            >(e),
        },
{
    let chars = to_chars(text);
    let found = line_ranges(&chars);
    let ghost all = lines(text@);
    let n = found.len();
    let mut records: Vec<MetricRecord> = Vec::new();
    let mut i: usize = 1;
    proof {
        assert(record_view(records@) =~= Seq::<(Seq<char>, int)>::empty());
    }
    while i < n
        invariant
            1 <= i,
            n == found.len(),
            n == all.len(),
            i <= n || i == 1,
            value_column < columns,
            chars@ == text@,
            all == lines(text@),
            all == pieces(chars@, found@),
            ranges_within(found@, 0, chars.len() as int),
            rows(all, i as int, columns, value_column) == Ok::<Seq<(Seq<char>, int)>, GraphError>(
                record_view(records@),
            ),
        decreases n - i,
    {
        let (a, b) = found[i];
        let ghost line = chars@.subrange(a as int, b as int);
        proof {
            assert(all[i as int] == line);
        }
        let fields = split_ranges(&chars, a, b, ',');
        if fields.len() != columns {
            proof {
                assert(row(line, (i + 1) as usize, columns, value_column) is Err);
                assert(rows(all, i + 1, columns, value_column) is Err);
                lemma_rows_error_stays(all, i + 1, n as int, columns, value_column);
            }
            return Err(GraphError::ParseError { line: i + 1, reason: ParseReason::RowShape });
        }
        let (name_from, name_to) = fields[0];
        let (value_from, value_to) = fields[value_column];
        proof {
            let parts = split(line, ',');
            assert(parts[0] == chars@.subrange(name_from as int, name_to as int));
            assert(parts[value_column as int] == chars@.subrange(
                value_from as int,
                value_to as int,
            ));
        }
        match parse_number(&chars, value_from, value_to) {
            None => {
                proof {
                    assert(row(line, (i + 1) as usize, columns, value_column) is Err);
                    assert(rows(all, i + 1, columns, value_column) is Err);
                    lemma_rows_error_stays(all, i + 1, n as int, columns, value_column);
                }
                return Err(
                    GraphError::ParseError { line: i + 1, reason: ParseReason::InvalidNumber },
                );
            },
            Some(value) => {
                let country = text.substring_char(name_from, name_to).to_owned();
                let ghost before = record_view(records@);
                records.push(MetricRecord { country, value });
                proof {
                    assert(record_view(records@) =~= before.push((country@, value as int)));
                }
            },
        }
        i += 1;
    }
    proof {
        if n == 0 {
            assert(rows(all, 0, columns, value_column) == rows(all, 1, columns, value_column));
        }
        assert(rows(all, n as int, columns, value_column) == rows(
            all,
            i as int,
            columns,
            value_column,
        ));
    }
    Ok(records)
}

} // verus!
