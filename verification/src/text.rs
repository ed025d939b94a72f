//! Words and numbers in a line of text.

use vstd::prelude::*;

verus! {

/// The characters that separate words: those that Unicode calls white
/// space.  They are the controls from tab to carriage return (tab, line
/// feed, vertical tab, form feed, carriage return), the blank, next line,
/// the no-break blank, the Ogham space mark, the blanks of fixed width from
/// en quad to hair space, the line and the paragraph separator, the narrow
/// no-break blank, the medium mathematical blank and the ideographic blank.
pub open spec fn is_space(c: char) -> bool {
    ||| '\u{9}' <= c <= '\u{D}'
    ||| c == ' '
    ||| c == '\u{85}'
    ||| c == '\u{A0}'
    ||| c == '\u{1680}'
    ||| '\u{2000}' <= c <= '\u{200A}'
    ||| c == '\u{2028}'
    ||| c == '\u{2029}'
    ||| c == '\u{202F}'
    ||| c == '\u{205F}'
    ||| c == '\u{3000}'
}

/// Where the word that starts at `i` ends: at the first separator from `i`
/// on, or at the end of the line.
pub open spec fn word_end(s: Seq<char>, i: int) -> int
    decreases s.len() - i,
{
    if i < 0 || i >= s.len() || is_space(s[i]) {
        i
    } else {
        word_end(s, i + 1)
    }
}

/// The words of the line from index `i` on.
pub open spec fn words_from(s: Seq<char>, i: int) -> Seq<Seq<char>>
    decreases s.len() - i,
{
    if i < 0 || i >= s.len() {
        Seq::empty()
    } else if is_space(s[i]) {
        words_from(s, i + 1)
    } else if i < word_end(s, i) <= s.len() {
        seq![s.subrange(i, word_end(s, i))] + words_from(s, word_end(s, i))
    } else {
        Seq::empty()
    }
}

/// The words of the line: its maximal runs of characters that are not
/// separators.
pub open spec fn words(s: Seq<char>) -> Seq<Seq<char>> {
    words_from(s, 0)
}

/// The character is a decimal digit.
pub open spec fn is_digit(c: char) -> bool {
    '0' <= c <= '9'
}

/// Every character is a decimal digit.
pub open spec fn all_digits(w: Seq<char>) -> bool {
    forall|i: int| 0 <= i < w.len() ==> is_digit(#[trigger] w[i])
}

/// The number that the decimal digits spell.
pub open spec fn digits_value(w: Seq<char>) -> int
    decreases w.len(),
{
    if w.len() == 0 {
        0
    } else {
        10 * digits_value(w.drop_last()) + (w.last() as int - '0' as int)
    }
}

/// The digits of a word that is meant as a number: the word without a
/// leading `+`.
pub open spec fn digits_of(w: Seq<char>) -> Seq<char> {
    if w.len() > 0 && w[0] == '+' {
        w.skip(1)
    } else {
        w
    }
}

/// The `u64` that the word spells: one or more decimal digits, a `+` before
/// them or not, with a value that fits.  `None` for any other word.
pub open spec fn number(w: Seq<char>) -> Option<u64> {
    let d = digits_of(w);
    if d.len() > 0 && all_digits(d) && digits_value(d) <= u64::MAX {
        Some(digits_value(d) as u64)
    } else {
        None
    }
}

/// The end of a word lies between its start and the end of the line, no
/// separator stands before it, and one stands at it unless the line ends.
pub proof fn lemma_word_end(s: Seq<char>, i: int)
    requires
        0 <= i <= s.len(),
    ensures
        i <= word_end(s, i) <= s.len(),
        forall|k: int| i <= k < word_end(s, i) ==> !is_space(#[trigger] s[k]),
        word_end(s, i) < s.len() ==> is_space(s[word_end(s, i)]),
    decreases s.len() - i,
{
    if i < s.len() && !is_space(s[i]) {
        lemma_word_end(s, i + 1);
    }
}

/// More digits spell no smaller a number.
pub proof fn lemma_digits_grow(w: Seq<char>, n: int)
    requires
        all_digits(w),
        0 <= n <= w.len(),
    ensures
        0 <= digits_value(w.take(n)) <= digits_value(w),
    decreases w.len() - n,
{
    if n == w.len() {
        assert(w.take(n) =~= w);
        lemma_digits_positive(w);
    } else {
        lemma_digits_grow(w, n + 1);
        assert(w.take(n + 1).drop_last() =~= w.take(n));
        assert(is_digit(w[n]));
        assert(w.take(n + 1).last() == w[n]);
        lemma_digits_positive(w.take(n));
    }
}

/// Digits spell a number that is not negative.
pub proof fn lemma_digits_positive(w: Seq<char>)
    requires
        all_digits(w),
    ensures
        0 <= digits_value(w),
    decreases w.len(),
{
    if w.len() > 0 {
        assert(is_digit(w.last()));
        assert forall|i: int| 0 <= i < w.drop_last().len() implies is_digit(#[trigger] w.drop_last()[i]) by {
            assert(w.drop_last()[i] == w[i]);
        }
        lemma_digits_positive(w.drop_last());
    }
}

/// Whether the character separates words.
pub fn separates(c: char) -> (yes: bool)
    ensures
        yes == is_space(c),
{
    let control = '\u{9}' <= c && c <= '\u{D}';
    let fixed_width = '\u{2000}' <= c && c <= '\u{200A}';
    let separator = c == '\u{2028}' || c == '\u{2029}';
    let blank = c == ' ' || c == '\u{A0}' || c == '\u{1680}' || c == '\u{202F}' || c == '\u{205F}' || c == '\u{3000}';
    control || fixed_width || separator || blank || c == '\u{85}'
}

/// The characters of the text, one by one.
pub fn chars_of(s: &str) -> (v: Vec<char>)
    ensures
        v@ == s@,
{
    broadcast use vstd::string::axiom_spec_iter;

    let mut v: Vec<char> = Vec::new();
    for c in it: s.chars()
        invariant
            it.seq() == s@,
            v@ == s@.take(it.index() as int),
    {
        v.push(c);
        proof {
            assert(v@ =~= s@.take(it.index() + 1));
        }
    }
    proof {
        assert(s@.take(s@.len() as int) =~= s@);
    }
    v
}

/// The words of the line, each as the pair of indices at which it starts
/// and ends.
pub fn split_words(line: &Vec<char>) -> (found: Vec<(usize, usize)>)
    ensures
        found@.len() == words(line@).len(),
        forall|k: int|
            0 <= k < found@.len() ==> (#[trigger] found@[k]).0 < found@[k].1 <= line@.len() && line@.subrange(
                found@[k].0 as int,
                found@[k].1 as int,
            ) == words(line@)[k],
{
    let mut found: Vec<(usize, usize)> = Vec::new();
    let ghost mut seen: Seq<Seq<char>> = Seq::empty();
    let mut i: usize = 0;
    while i < line.len()
        invariant
            i <= line@.len(),
            seen + words_from(line@, i as int) == words(line@),
            found@.len() == seen.len(),
            forall|k: int|
                0 <= k < found@.len() ==> (#[trigger] found@[k]).0 < found@[k].1 <= line@.len() && line@.subrange(
                    found@[k].0 as int,
                    found@[k].1 as int,
                ) == seen[k],
        decreases line@.len() - i,
    {
        let c = line[i];
        if separates(c) {
            i = i + 1;
        } else {
            let start = i;
            proof {
                lemma_word_end(line@, start as int);
            }
            while i < line.len() && !separates(line[i])
                invariant
                    start <= i <= line@.len(),
                    word_end(line@, i as int) == word_end(line@, start as int),
                decreases line@.len() - i,
            {
                i = i + 1;
            }
            proof {
                let word = line@.subrange(start as int, i as int);
                assert(seen.push(word) + words_from(line@, i as int) =~= seen + (seq![word] + words_from(
                    line@,
                    i as int,
                )));
                seen = seen.push(word);
            }
            found.push((start, i));
        }
    }
    proof {
        assert(seen + words_from(line@, i as int) =~= seen);
    }
    found
}

/// Reads the word between the two indices as a number.
pub fn parse_number(line: &Vec<char>, from: usize, to: usize) -> (value: Option<u64>)
    requires
        from <= to <= line@.len(),
    ensures
        value == number(line@.subrange(from as int, to as int)),
{
    let ghost w = line@.subrange(from as int, to as int);
    let first = if from < to && line[from] == '+' {
        from + 1
    } else {
        from
    };
    let ghost d = digits_of(w);
    proof {
        assert(from < to ==> w[0] == line@[from as int]);
        assert(d =~= line@.subrange(first as int, to as int));
    }
    if first == to {
        return None;
    }
    let mut value: u64 = 0;
    let mut i: usize = first;
    while i < to
        invariant
            from <= first <= i <= to <= line@.len(),
            d == line@.subrange(first as int, to as int),
            d == digits_of(line@.subrange(from as int, to as int)),
            forall|k: int| 0 <= k < i - first ==> is_digit(#[trigger] d[k]),
            value == digits_value(d.take(i - first)),
        decreases to - i,
    {
        let c = line[i];
        proof {
            assert(d[i - first] == c);
        }
        if !('0' <= c && c <= '9') {
            proof {
                assert(!is_digit(d[i - first]));
            }
            return None;
        }
        let digit = (c as u32 - '0' as u32) as u64;
        proof {
            let next = d.take(i - first + 1);
            assert(next.drop_last() =~= d.take(i - first));
            assert(next.last() == c);
            assert(digits_value(next) == 10 * value + digit);
            if all_digits(d) {
                lemma_digits_grow(d, i - first + 1);
            }
        }
        if value > (u64::MAX - digit) / 10 {
            proof {
                assert(10 * value + digit > u64::MAX);
            }
            return None;
        }
        value = value * 10 + digit;
        i = i + 1;
    }
    proof {
        assert(d.take(to - first) =~= d);
    }
    Some(value)
}

} // verus!
