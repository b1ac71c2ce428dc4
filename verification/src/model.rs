//! The mathematical model of filenames and archive paths.
//!
//! A path is a sequence of characters in which `/` separates components; the
//! classifier only ever looks at the final component (the file name). The
//! file name decomposes as `<stem>.<extension>` at its last dot, the stem as
//! `<category><separator><date>` at its first separator, and the date as the
//! eight digits `DDMMYYYY`. [`spec_classify`] gives the whole classification
//! as one function from a file name to either the decomposed fields or the
//! first error encountered, and [`spec_destination`] composes the archive
//! path from those fields.

use vstd::prelude::*;
use crate::constants::{SEPARATOR, DATE_LENGTH, VALID_DAYS, VALID_MONTHS, VALID_YEARS};
use crate::error::ProcessError;

verus! {

/// Index of the last occurrence of `c` in `s`, or `-1` if `c` does not occur.
pub open spec fn last_index_of(s: Seq<char>, c: char) -> int
    decreases s.len(),
{
    if s.len() == 0 {
        -1
    } else if s.last() == c {
        s.len() - 1
    } else {
        last_index_of(s.drop_last(), c)
    }
}

/// Index of the first occurrence of `c` in `s`, or `-1` if `c` does not occur.
pub open spec fn first_index_of(s: Seq<char>, c: char) -> int
    decreases s.len(),
{
    if s.len() == 0 {
        -1
    } else if s[0] == c {
        0
    } else if first_index_of(s.drop_first(), c) == -1 {
        -1
    } else {
        1 + first_index_of(s.drop_first(), c)
    }
}

/// `last_index_of` finds the last occurrence: at the returned index stands
/// `c`, and `c` occurs nowhere later; `-1` means `c` occurs nowhere at all.
pub proof fn lemma_last_index_of(s: Seq<char>, c: char)
    ensures
        last_index_of(s, c) == -1 ==> forall|i: int| 0 <= i < s.len() ==> s[i] != c,
        last_index_of(s, c) != -1 ==> {
            let k = last_index_of(s, c);
            &&& 0 <= k < s.len()
            &&& s[k] == c
            &&& forall|i: int| k < i < s.len() ==> s[i] != c
        },
    decreases s.len(),
{
    if s.len() > 0 && s.last() != c {
        lemma_last_index_of(s.drop_last(), c);
        let t = s.drop_last();
        let k = last_index_of(t, c);
        if k == -1 {
            assert forall|i: int| 0 <= i < s.len() implies s[i] != c by {
                if i < s.len() - 1 {
                    assert(s[i] == t[i]);
                }
            }
        } else {
            assert(s[k] == t[k]);
            assert forall|i: int| k < i < s.len() implies s[i] != c by {
                if i < s.len() - 1 {
                    assert(s[i] == t[i]);
                }
            }
        }
    }
}

/// An index at which `c` stands, with no later occurrence, is the last one.
pub proof fn lemma_last_index_of_is(s: Seq<char>, c: char, k: int)
    requires
        0 <= k < s.len(),
        s[k] == c,
        forall|i: int| k < i < s.len() ==> s[i] != c,
    ensures
        last_index_of(s, c) == k,
{
    lemma_last_index_of(s, c);
}

/// `first_index_of` finds the first occurrence: at the returned index stands
/// `c`, and `c` occurs nowhere earlier; `-1` means `c` occurs nowhere at all.
pub proof fn lemma_first_index_of(s: Seq<char>, c: char)
    ensures
        first_index_of(s, c) == -1 ==> forall|i: int| 0 <= i < s.len() ==> s[i] != c,
        first_index_of(s, c) != -1 ==> {
            let k = first_index_of(s, c);
            &&& 0 <= k < s.len()
            &&& s[k] == c
            &&& forall|i: int| 0 <= i < k ==> s[i] != c
        },
    decreases s.len(),
{
    if s.len() > 0 && s[0] != c {
        lemma_first_index_of(s.drop_first(), c);
        let t = s.drop_first();
        let k = first_index_of(t, c);
        if k == -1 {
            assert forall|i: int| 0 <= i < s.len() implies s[i] != c by {
                if i > 0 {
                    assert(s[i] == t[i - 1]);
                }
            }
        } else {
            assert(s[k + 1] == t[k]);
            assert forall|i: int| 0 <= i < k + 1 implies s[i] != c by {
                if i > 0 {
                    assert(s[i] == t[i - 1]);
                }
            }
        }
    }
}

/// An index at which `c` stands, with no earlier occurrence, is the first one.
pub proof fn lemma_first_index_of_is(s: Seq<char>, c: char, k: int)
    requires
        0 <= k < s.len(),
        s[k] == c,
        forall|i: int| 0 <= i < k ==> s[i] != c,
    ensures
        first_index_of(s, c) == k,
{
    lemma_first_index_of(s, c);
}

/// The final component of a path: the text after its last `/`, or the whole
/// path if it holds no `/`.
pub open spec fn spec_file_name(path: Seq<char>) -> Seq<char> {
    let k = last_index_of(path, '/');
    if k == -1 {
        path
    } else {
        path.subrange(k + 1, path.len() as int)
    }
}

/// The directory part of a path: the text before its last `/`, or the empty
/// string if it holds no `/`.
pub open spec fn spec_parent(path: Seq<char>) -> Seq<char> {
    let k = last_index_of(path, '/');
    if k == -1 {
        Seq::empty()
    } else {
        path.subrange(0, k)
    }
}

/// A file name has an extension when a `.` occurs past its first character;
/// a name that starts with its only `.` (a hidden file) has none.
pub open spec fn spec_has_extension(name: Seq<char>) -> bool {
    last_index_of(name, '.') >= 1
}

/// The extension of a file name: the text after its last `.`.
pub open spec fn spec_extension(name: Seq<char>) -> Seq<char>
    recommends
        spec_has_extension(name),
{
    name.subrange(last_index_of(name, '.') + 1, name.len() as int)
}

/// The stem of a file name: the text before its last `.`, or the whole name
/// if it has no extension.
pub open spec fn spec_stem(name: Seq<char>) -> Seq<char> {
    if spec_has_extension(name) {
        name.subrange(0, last_index_of(name, '.'))
    } else {
        name
    }
}

/// Whether a stem contains the separator character.
pub open spec fn spec_has_separator(stem: Seq<char>) -> bool {
    first_index_of(stem, SEPARATOR) != -1
}

/// The category: the text before the first separator of a stem.
pub open spec fn spec_category(stem: Seq<char>) -> Seq<char>
    recommends
        spec_has_separator(stem),
{
    stem.subrange(0, first_index_of(stem, SEPARATOR))
}

/// The encoded date: the second separator-delimited segment of a stem — the
/// text between the first separator and the next one, or the stem's end.
/// Exactly one separator occurrence is consumed; text after a further
/// separator, if present, is not examined.
pub open spec fn spec_date_part(stem: Seq<char>) -> Seq<char>
    recommends
        spec_has_separator(stem),
{
    let rest = stem.subrange(first_index_of(stem, SEPARATOR) + 1, stem.len() as int);
    if first_index_of(rest, SEPARATOR) == -1 {
        rest
    } else {
        rest.subrange(0, first_index_of(rest, SEPARATOR))
    }
}

/// Whether `c` is an ASCII digit.
pub open spec fn is_digit(c: char) -> bool {
    48 <= c as int <= 57
}

/// The numeric value of an ASCII digit.
pub open spec fn digit_value(c: char) -> nat
    recommends
        is_digit(c),
{
    (c as int - 48) as nat
}

/// Whether every character of `s` is an ASCII digit.
pub open spec fn all_digits(s: Seq<char>) -> bool {
    forall|i: int| 0 <= i < s.len() ==> is_digit(#[trigger] s[i])
}

/// The numeric value of a digit string read in the usual way, most
/// significant digit first. Meaningful only when `all_digits(s)` holds.
pub open spec fn str_value(s: Seq<char>) -> nat
    decreases s.len(),
{
    if s.len() == 0 {
        0
    } else {
        str_value(s.drop_last()) * 10 + digit_value(s.last())
    }
}

/// A string passes the range check for ceiling `max` when it is a non-empty
/// digit string whose value does not exceed `max`. There is no lower bound:
/// `00` passes every check.
pub open spec fn spec_in_range(s: Seq<char>, max: nat) -> bool {
    &&& s.len() > 0
    &&& all_digits(s)
    &&& str_value(s) <= max
}

/// A well-formed encoded date: exactly [`DATE_LENGTH`] characters, all of
/// them ASCII digits.
pub open spec fn spec_valid_format(date: Seq<char>) -> bool {
    &&& date.len() == DATE_LENGTH
    &&& all_digits(date)
}

/// The fields a valid filename decomposes into: the category, the three date
/// fields as they stand in the name (leading zeros kept), and the extension.
pub struct Classified {
    pub category: Seq<char>,
    pub day: Seq<char>,
    pub month: Seq<char>,
    pub year: Seq<char>,
    pub extension: Seq<char>,
}

/// Classification of one file name: either its decomposed fields or the
/// first error encountered, checking in strict order the extension, the
/// separator, the date format and the date field ranges.
pub open spec fn spec_classify(name: Seq<char>) -> Result<Classified, ProcessError> {
    if !spec_has_extension(name) {
        Err(ProcessError::Extension)
    } else {
        let stem = spec_stem(name);
        if !spec_has_separator(stem) {
            Err(ProcessError::Separator)
        } else {
            let date = spec_date_part(stem);
            if !spec_valid_format(date) {
                Err(ProcessError::Date)
            } else {
                let c = Classified {
                    category: spec_category(stem),
                    day: date.subrange(0, 2),
                    month: date.subrange(2, 4),
                    year: date.subrange(4, DATE_LENGTH as int),
                    extension: spec_extension(name),
                };
                if str_value(c.day) <= VALID_DAYS && str_value(c.month) <= VALID_MONTHS
                    && str_value(c.year) <= VALID_YEARS {
                    Ok(c)
                } else {
                    Err(ProcessError::Date)
                }
            }
        }
    }
}

/// The archive destination for classified fields:
/// `<target>/<year>/<month>/<day>/<category>.<extension>`.
pub open spec fn spec_destination(target: Seq<char>, c: Classified) -> Seq<char> {
    target + seq!['/'] + c.year + seq!['/'] + c.month + seq!['/'] + c.day + seq!['/'] + c.category
        + seq!['.'] + c.extension
}

/// The directory the archive destination lies in:
/// `<target>/<year>/<month>/<day>`.
pub open spec fn spec_destination_dir(target: Seq<char>, c: Classified) -> Seq<char> {
    target + seq!['/'] + c.year + seq!['/'] + c.month + seq!['/'] + c.day
}

/// What classifying a whole path yields: the directory the source file lies
/// in, paired with its archive destination — or the classification error.
pub open spec fn spec_extract_dst_path(path: Seq<char>, target: Seq<char>) -> Result<
    (Seq<char>, Seq<char>),
    ProcessError,
> {
    match spec_classify(spec_file_name(path)) {
        Ok(c) => Ok((spec_parent(path), spec_destination(target, c))),
        Err(e) => Err(e),
    }
}

/// A well-formed filename always classifies. For every non-empty category
/// free of the separator, every day, month and year within their ceilings
/// (two, two and four digits), and every extension free of `.`, the name
/// `<category><separator><DDMMYYYY>.<extension>` — with no `/` anywhere —
/// yields exactly those fields, and its destination under any target root is
/// `<target>/<YYYY>/<MM>/<DD>/<category>.<extension>`.
pub proof fn lemma_classify_valid_filename(
    category: Seq<char>,
    day: Seq<char>,
    month: Seq<char>,
    year: Seq<char>,
    ext: Seq<char>,
    target: Seq<char>,
)
    requires
        category.len() > 0,
        forall|i: int| 0 <= i < category.len() ==> #[trigger] category[i] != SEPARATOR,
        forall|i: int| 0 <= i < category.len() ==> #[trigger] category[i] != '/',
        day.len() == 2,
        all_digits(day),
        str_value(day) <= VALID_DAYS,
        month.len() == 2,
        all_digits(month),
        str_value(month) <= VALID_MONTHS,
        year.len() == 4,
        all_digits(year),
        str_value(year) <= VALID_YEARS,
        forall|i: int| 0 <= i < ext.len() ==> #[trigger] ext[i] != '.',
        forall|i: int| 0 <= i < ext.len() ==> #[trigger] ext[i] != '/',
    ensures
        ({
            let name = category + seq![SEPARATOR] + day + month + year + seq!['.'] + ext;
            let fields = Classified { category, day, month, year, extension: ext };
            &&& spec_classify(name) == Ok::<Classified, ProcessError>(fields)
            &&& spec_extract_dst_path(name, target) == Ok::<(Seq<char>, Seq<char>), ProcessError>(
                (Seq::<char>::empty(), spec_destination(target, fields)),
            )
        }),
{
    let date = day + month + year;
    let name = category + seq![SEPARATOR] + day + month + year + seq!['.'] + ext;
    let cl = category.len() as int;
    let dot = cl + 9;

    assert forall|i: int| 0 <= i < cl implies name[i] == category[i] by {}
    assert(name[cl] == SEPARATOR);
    assert forall|i: int| 0 <= i < 8 implies name[cl + 1 + i] == date[i] by {}
    assert(name[dot] == '.');
    assert forall|i: int| 0 <= i < ext.len() implies name[dot + 1 + i] == ext[i] by {}
    assert(name.len() == cl + 10 + ext.len());

    // The name holds no `/`: digits, the separator and the dot are not `/`,
    // and the category and extension are required free of it.
    assert forall|i: int| 0 <= i < name.len() implies name[i] != '/' by {
        if cl + 1 <= i < cl + 9 {
            assert(is_digit(date[i - cl - 1]));
        } else if i > dot {
            assert(name[i] == ext[i - dot - 1]);
        }
    }
    lemma_last_index_of(name, '/');
    assert(last_index_of(name, '/') == -1);
    assert(spec_file_name(name) == name);
    assert(spec_parent(name) =~= Seq::<char>::empty());

    // The last dot of the name is the one written before the extension.
    assert forall|i: int| dot < i < name.len() implies name[i] != '.' by {
        assert(name[i] == ext[i - dot - 1]);
    }
    lemma_last_index_of_is(name, '.', dot);
    assert(spec_has_extension(name));
    let stem = spec_stem(name);
    assert(stem =~= category + seq![SEPARATOR] + date);
    assert(spec_extension(name) =~= ext);

    // The first separator of the stem is the one written after the category.
    assert(stem[cl] == SEPARATOR);
    assert forall|i: int| 0 <= i < cl implies stem[i] != SEPARATOR by {
        assert(stem[i] == category[i]);
    }
    lemma_first_index_of_is(stem, SEPARATOR, cl);
    assert(spec_has_separator(stem));
    assert(spec_category(stem) =~= category);

    // The text after the first separator is the date, which holds no further
    // separator: all its characters are digits.
    let rest = stem.subrange(cl + 1, stem.len() as int);
    assert(rest =~= date);
    assert forall|i: int| 0 <= i < 8 implies is_digit(#[trigger] date[i]) by {
        if i < 2 {
            assert(date[i] == day[i]);
        } else if i < 4 {
            assert(date[i] == month[i - 2]);
        } else {
            assert(date[i] == year[i - 4]);
        }
    }
    lemma_first_index_of(rest, SEPARATOR);
    assert(first_index_of(rest, SEPARATOR) == -1);
    let date_part = spec_date_part(stem);
    assert(date_part == rest);

    // The date is eight digits, and its slices are the given fields.
    assert(spec_valid_format(date_part));
    assert(date_part.subrange(0, 2) =~= day);
    assert(date_part.subrange(2, 4) =~= month);
    assert(date_part.subrange(4, DATE_LENGTH as int) =~= year);
}

/// Reading one more digit never shrinks the value: the value of a longer
/// prefix of `s` is at least the value of a shorter one.
pub proof fn lemma_str_value_take_monotone(s: Seq<char>, i: int, j: int)
    requires
        0 <= i <= j <= s.len(),
    ensures
        str_value(s.take(i)) <= str_value(s.take(j)),
    decreases j - i,
{
    if i < j {
        lemma_str_value_take_monotone(s, i, j - 1);
        assert(s.take(j).drop_last() =~= s.take(j - 1));
        assert(str_value(s.take(j)) == str_value(s.take(j - 1)) * 10 + digit_value(s.take(j).last()));
    }
}

} // verus!
