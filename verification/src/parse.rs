//! The textual form of the seeds and of the stages.
//!
//! ```text
//! seeds: <start> <count> <start> <count> ...
//!
//! <from>-to-<to> map:
//! <destination start> <source start> <length>
//! ...
//! ```
//!
//! A stage block ends at a line without words or at the end of the text.

use crate::text::{chars_of, number, parse_number, split_words, words};
use vstd::prelude::*;

verus! {

/// One stage as it is written down: the names of the two domains and the
/// `(destination start, source start, length)` triples.
#[derive(Debug)]
pub struct StageMap {
    pub from: String,
    pub to: String,
    pub mappings: Vec<(u64, u64, u64)>,
}

/// Why a text is not what it should be.
#[derive(Debug, Clone, Copy, PartialEq, Eq)]
pub enum ParseError {
    /// The line of seeds does not start with the word `seeds:`.
    NoSeedsMarker,
    /// The word with this index in the line of seeds is no number.
    BadSeed(usize),
    /// The line of seeds ends in the middle of a pair.
    HalfSeed,
    /// The line with this index should name a stage, as `<from>-to-<to>`,
    /// and does not.
    BadHeader(usize),
    /// The line with this index should start with three numbers and does
    /// not.
    BadRow(usize),
}

/// The word that opens the line of seeds.
pub open spec fn seeds_marker() -> Seq<char> {
    seq!['s', 'e', 'e', 'd', 's', ':']
}

/// The index of the first word from `k` on that is no number, if there is
/// one.
pub open spec fn first_bad(ws: Seq<Seq<char>>, k: int) -> Option<int>
    decreases ws.len() - k,
{
    if k < 0 || k >= ws.len() {
        None
    } else if number(ws[k]) is None {
        Some(k)
    } else {
        first_bad(ws, k + 1)
    }
}

/// What the line of seeds holds: after the word `seeds:`, numbers in pairs
/// of start and count.
pub open spec fn seeds_of(line: Seq<char>) -> Result<Seq<(u64, u64)>, ParseError> {
    let ws = words(line);
    if ws.len() == 0 || ws[0] != seeds_marker() {
        Err(ParseError::NoSeedsMarker)
    } else if first_bad(ws, 1) is Some {
        Err(ParseError::BadSeed(first_bad(ws, 1).unwrap() as usize))
    } else if (ws.len() - 1) % 2 != 0 {
        Err(ParseError::HalfSeed)
    } else {
        Ok(
            Seq::new(
                ((ws.len() - 1) / 2) as nat,
                |i: int| (number(ws[2 * i + 1]).unwrap(), number(ws[2 * i + 2]).unwrap()),
            ),
        )
    }
}

/// The seeds of a view of pairs, if the reading went well.
pub open spec fn seeds_view(r: Result<Vec<(u64, u64)>, ParseError>) -> Result<Seq<(u64, u64)>, ParseError> {
    match r {
        Ok(v) => Ok(v@),
        Err(e) => Err(e),
    }
}

/// Reads the line of seeds.
pub fn parse_seeds(line: &str) -> (seeds: Result<Vec<(u64, u64)>, ParseError>)
    ensures
        seeds_view(seeds) == seeds_of(line@),
{
    let chars = chars_of(line);
    let found = split_words(&chars);
    let ghost ws = words(line@);
    if found.len() == 0 {
        return Err(ParseError::NoSeedsMarker);
    }
    let (a, b) = found[0];
    proof {
        assert(chars@.subrange(a as int, b as int) == ws[0]);
    }
    if !(b - a == 6 && chars[a] == 's' && chars[a + 1] == 'e' && chars[a + 2] == 'e' && chars[a + 3] == 'd'
        && chars[a + 4] == 's' && chars[a + 5] == ':') {
        proof {
            if ws[0] == seeds_marker() {
                assert(ws[0].len() == 6);
                assert(ws[0][0] == chars@[a as int]);
                assert(ws[0][1] == chars@[a + 1]);
                assert(ws[0][2] == chars@[a + 2]);
                assert(ws[0][3] == chars@[a + 3]);
                assert(ws[0][4] == chars@[a + 4]);
                assert(ws[0][5] == chars@[a + 5]);
            }
        }
        return Err(ParseError::NoSeedsMarker);
    }
    proof {
        assert(ws[0] =~= seeds_marker()) by {
            assert(ws[0][0] == chars@[a as int]);
            assert(ws[0][1] == chars@[a + 1]);
            assert(ws[0][2] == chars@[a + 2]);
            assert(ws[0][3] == chars@[a + 3]);
            assert(ws[0][4] == chars@[a + 4]);
            assert(ws[0][5] == chars@[a + 5]);
        }
    }
    let mut numbers: Vec<u64> = Vec::new();
    let mut k: usize = 1;
    while k < found.len()
        invariant
            1 <= k <= found@.len(),
            ws == words(line@),
            ws[0] == seeds_marker(),
            chars@ == line@,
            found@.len() == ws.len(),
            forall|k: int|
                0 <= k < found@.len() ==> (#[trigger] found@[k]).0 < found@[k].1 <= chars@.len() && chars@.subrange(
                    found@[k].0 as int,
                    found@[k].1 as int,
                ) == ws[k],
            first_bad(ws, k as int) == first_bad(ws, 1),
            numbers@.len() == k - 1,
            forall|j: int| 0 <= j < k - 1 ==> number(ws[j + 1]) == Some(#[trigger] numbers@[j]),
        decreases found@.len() - k,
    {
        let (from, to) = found[k];
        proof {
            assert(chars@.subrange(from as int, to as int) == ws[k as int]);
        }
        match parse_number(&chars, from, to) {
            None => {
                return Err(ParseError::BadSeed(k));
            },
            Some(n) => {
                numbers.push(n);
            },
        }
        k = k + 1;
    }
    if numbers.len() % 2 != 0 {
        return Err(ParseError::HalfSeed);
    }
    let mut seeds: Vec<(u64, u64)> = Vec::new();
    let mut i: usize = 0;
    while i < numbers.len() / 2
        invariant
            i <= numbers@.len() / 2,
            numbers@.len() % 2 == 0,
            seeds@.len() == i,
            forall|j: int| 0 <= j < i ==> #[trigger] seeds@[j] == (numbers@[2 * j], numbers@[2 * j + 1]),
        decreases numbers@.len() / 2 - i,
    {
        seeds.push((numbers[2 * i], numbers[2 * i + 1]));
        i = i + 1;
    }
    proof {
        let want = Seq::new(
            ((ws.len() - 1) / 2) as nat,
            |i: int| (number(ws[2 * i + 1]).unwrap(), number(ws[2 * i + 2]).unwrap()),
        );
        assert(seeds@ =~= want);
    }
    Ok(seeds)
}

/// The four characters between the two names of a stage.
pub open spec fn separator() -> Seq<char> {
    seq!['-', 't', 'o', '-']
}

/// The index of the first `-to-` in the word from `k` on, if there is one.
pub open spec fn find_separator(w: Seq<char>, k: int) -> Option<int>
    decreases w.len() - k,
{
    if k < 0 || k + 4 > w.len() {
        None
    } else if w.subrange(k, k + 4) == separator() {
        Some(k)
    } else {
        find_separator(w, k + 1)
    }
}

/// The two names in a word `<from>-to-<to>`: what stands before the first
/// `-to-`, and what stands behind it, up to the next `-to-` if there is
/// one.
pub open spec fn stage_names(w: Seq<char>) -> Option<(Seq<char>, Seq<char>)> {
    match find_separator(w, 0) {
        None => None,
        Some(k) => {
            let rest = w.skip(k + 4);
            match find_separator(rest, 0) {
                None => Some((w.take(k), rest)),
                Some(m) => Some((w.take(k), rest.take(m))),
            }
        },
    }
}

/// The triple at the start of the line: its first three words, if they are
/// numbers.
pub open spec fn row_of(line: Seq<char>) -> Option<(u64, u64, u64)> {
    let ws = words(line);
    if ws.len() >= 3 && number(ws[0]) is Some && number(ws[1]) is Some && number(ws[2]) is Some {
        Some((number(ws[0]).unwrap(), number(ws[1]).unwrap(), number(ws[2]).unwrap()))
    } else {
        None
    }
}

/// The rows from line `i` on, up to the first line without words or the end
/// of the text, with the index of the line at which they end; or the index
/// of the first line among them that is no row.
pub open spec fn rows_from(lines: Seq<Seq<char>>, i: int) -> Result<(Seq<(u64, u64, u64)>, int), int>
    decreases lines.len() - i,
{
    if i < 0 || i >= lines.len() || words(lines[i]).len() == 0 {
        Ok((Seq::empty(), i))
    } else if row_of(lines[i]) is None {
        Err(i)
    } else {
        match rows_from(lines, i + 1) {
            Ok((rows, end)) => Ok((seq![row_of(lines[i]).unwrap()] + rows, end)),
            Err(bad) => Err(bad),
        }
    }
}

/// A stage block as it stands in the text: the two names, the triples, and
/// the index of the line at which reading goes on.
pub type Block = (Seq<char>, Seq<char>, Seq<(u64, u64, u64)>, int);

/// What stands in the text from line `start` on: nothing, where the text
/// ends or the line has no words; else a stage block, that is a line whose
/// first word names the stage and the rows that follow it.  The line
/// without words that ends the block is read with it.
pub open spec fn block_at(lines: Seq<Seq<char>>, start: int) -> Result<Option<Block>, ParseError> {
    if start < 0 || start >= lines.len() || words(lines[start]).len() == 0 {
        Ok(None)
    } else {
        match stage_names(words(lines[start])[0]) {
            None => Err(ParseError::BadHeader(start as usize)),
            Some((from, to)) => match rows_from(lines, start + 1) {
                Err(bad) => Err(ParseError::BadRow(bad as usize)),
                Ok((rows, end)) => Ok(
                    Some(
                        (
                            from,
                            to,
                            rows,
                            if end < lines.len() {
                                end + 1
                            } else {
                                end
                            },
                        ),
                    ),
                ),
            },
        }
    }
}

/// The text of each line.
pub open spec fn texts(lines: Seq<String>) -> Seq<Seq<char>> {
    Seq::new(lines.len(), |i: int| lines[i]@)
}

/// What was read, in the terms of [`block_at`].
pub open spec fn block_view(r: Result<Option<(StageMap, usize)>, ParseError>) -> Result<Option<Block>, ParseError> {
    match r {
        Ok(Some((stage, next))) => Ok(Some((stage.from@, stage.to@, stage.mappings@, next as int))),
        Ok(None) => Ok(None),
        Err(e) => Err(e),
    }
}

/// Looks for the first `-to-` in the word between the two indices; the
/// index that it returns counts from the start of the word.
fn find_to(line: &Vec<char>, from: usize, to: usize) -> (at: Option<usize>)
    requires
        from <= to <= line@.len(),
    ensures
        match at {
            Some(k) => find_separator(line@.subrange(from as int, to as int), 0) == Some(k as int) && k + 4 <= to
                - from,
            None => find_separator(line@.subrange(from as int, to as int), 0) is None,
        },
{
    let ghost w = line@.subrange(from as int, to as int);
    let mut k: usize = 0;
    while to - from >= 4 && k <= to - from - 4
        invariant
            from <= to <= line@.len(),
            w == line@.subrange(from as int, to as int),
            k <= to - from,
            find_separator(w, k as int) == find_separator(w, 0),
        decreases to - from - k,
    {
        proof {
            assert(w[k as int] == line@[from + k]);
            assert(w[k + 1] == line@[from + k + 1]);
            assert(w[k + 2] == line@[from + k + 2]);
            assert(w[k + 3] == line@[from + k + 3]);
            let part = w.subrange(k as int, k + 4);
            assert(part[0] == w[k as int]);
            assert(part[1] == w[k + 1]);
            assert(part[2] == w[k + 2]);
            assert(part[3] == w[k + 3]);
        }
        if line[from + k] == '-' && line[from + k + 1] == 't' && line[from + k + 2] == 'o' && line[from + k + 3]
            == '-' {
            proof {
                assert(w.subrange(k as int, k + 4) =~= separator());
            }
            return Some(k);
        }
        k = k + 1;
    }
    None
}

/// Reads the stage block that starts at line `start`.
///
/// Returns `None` where the text ends at `start` or the line has no words.
/// Else the first word of the line names the stage, as `<from>-to-<to>`
/// (what else stands in the line is not looked at), and every line after it
/// is a row of three numbers (what follows them in the line is not looked
/// at), up to the first line without words or the end of the text.  The
/// block comes with the index of the line at which reading goes on: behind
/// the line without words, if there is one.
pub fn parse_map_block(lines: &Vec<String>, start: usize) -> (block: Result<Option<(StageMap, usize)>, ParseError>)
    ensures
        block_view(block) == block_at(texts(lines@), start as int),
{
    let ghost all = texts(lines@);
    if start >= lines.len() {
        return Ok(None);
    }
    proof {
        assert(all[start as int] == lines@[start as int]@);
    }
    let head = lines[start].as_str();
    let chars = chars_of(head);
    let found = split_words(&chars);
    if found.len() == 0 {
        return Ok(None);
    }
    let (a, b) = found[0];
    let ghost w = words(all[start as int])[0];
    proof {
        assert(chars@.subrange(a as int, b as int) == w);
    }
    let k = match find_to(&chars, a, b) {
        Some(k) => k,
        None => {
            return Err(ParseError::BadHeader(start));
        },
    };
    let ghost rest = w.skip(k + 4);
    proof {
        assert(chars@.subrange(a + k + 4, b as int) =~= rest);
    }
    let end_of_to = match find_to(&chars, a + k + 4, b) {
        Some(m) => a + k + 4 + m,
        None => b,
    };
    let from = head.substring_char(a, a + k).to_owned();
    let to = head.substring_char(a + k + 4, end_of_to).to_owned();
    proof {
        assert(head@.subrange(a as int, a + k) =~= w.take(k as int));
        match find_separator(rest, 0) {
            None => {
                assert(head@.subrange(a + k + 4, end_of_to as int) =~= rest);
            },
            Some(m) => {
                assert(head@.subrange(a + k + 4, end_of_to as int) =~= rest.take(m));
            },
        }
        assert(stage_names(w) == Some((from@, to@)));
    }
    let mut mappings: Vec<(u64, u64, u64)> = Vec::new();
    let mut i: usize = start + 1;
    loop
        invariant
            start < i <= lines@.len(),
            all == texts(lines@),
            words(all[start as int]).len() > 0,
            stage_names(words(all[start as int])[0]) == Some((from@, to@)),
            match rows_from(all, i as int) {
                Ok((rows, end)) => rows_from(all, start + 1) == Ok::<(Seq<(u64, u64, u64)>, int), int>(
                    (mappings@ + rows, end),
                ),
                Err(bad) => rows_from(all, start + 1) == Err::<(Seq<(u64, u64, u64)>, int), int>(bad),
            },
        ensures
            start < i <= lines@.len(),
            rows_from(all, start + 1) == Ok::<(Seq<(u64, u64, u64)>, int), int>((mappings@, i as int)),
        decreases lines@.len() - i,
    {
        if i >= lines.len() {
            proof {
                assert(mappings@ + Seq::<(u64, u64, u64)>::empty() =~= mappings@);
            }
            break ;
        }
        proof {
            assert(all[i as int] == lines@[i as int]@);
        }
        let row = chars_of(lines[i].as_str());
        let cells = split_words(&row);
        if cells.len() == 0 {
            proof {
                assert(mappings@ + Seq::<(u64, u64, u64)>::empty() =~= mappings@);
            }
            break ;
        }
        if cells.len() < 3 {
            return Err(ParseError::BadRow(i));
        }
        let ghost ws = words(all[i as int]);
        proof {
            assert(row@.subrange(cells@[0].0 as int, cells@[0].1 as int) == ws[0]);
            assert(row@.subrange(cells@[1].0 as int, cells@[1].1 as int) == ws[1]);
            assert(row@.subrange(cells@[2].0 as int, cells@[2].1 as int) == ws[2]);
        }
        let first = parse_number(&row, cells[0].0, cells[0].1);
        let second = parse_number(&row, cells[1].0, cells[1].1);
        let third = parse_number(&row, cells[2].0, cells[2].1);
        match (first, second, third) {
            (Some(destination), Some(source), Some(length)) => {
                proof {
                    let triple = (destination, source, length);
                    assert(row_of(all[i as int]) == Some(triple));
                    match rows_from(all, i + 1) {
                        Ok((rows, end)) => {
                            assert(mappings@.push(triple) + rows =~= mappings@ + (seq![triple] + rows));
                        },
                        Err(bad) => {},
                    }
                }
                mappings.push((destination, source, length));
            },
            _ => {
                return Err(ParseError::BadRow(i));
            },
        }
        i = i + 1;
    }
    let next = if i < lines.len() {
        i + 1
    } else {
        i
    };
    Ok(Some((StageMap { from, to, mappings }, next)))
}

} // verus!
