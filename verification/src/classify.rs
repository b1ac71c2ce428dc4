//! The filename classifier: from a source path to the archive destination.
//!
//! [`extract_dst_path`] is the whole pipeline; the steps it runs in strict,
//! first-failure-wins order are public as well: [`extract_suffix`] takes the
//! extension, [`split_into_parent_date`] splits the stem at the separator,
//! [`validate`] checks the date's shape, and [`parse`] slices and
//! range-checks its fields. Every function is pure: no filesystem is touched.

use vstd::prelude::*;
use vstd::string::StrSliceExecFns;
use vstd::string::StringExecFns;
use crate::constants::{SEPARATOR, DATE_LENGTH, VALID_DAYS, VALID_MONTHS, VALID_YEARS};
use crate::error::ProcessError;
use crate::model::{
    last_index_of, first_index_of, lemma_last_index_of, lemma_last_index_of_is,
    lemma_first_index_of, lemma_first_index_of_is, spec_file_name, spec_parent,
    spec_has_extension, spec_extension, spec_stem, spec_has_separator, spec_category,
    spec_date_part, is_digit, all_digits, str_value, spec_in_range, spec_valid_format,
    spec_classify, spec_destination, spec_extract_dst_path, lemma_str_value_take_monotone,
};

verus! {

/// Finds the last occurrence of `c` in `s`, scanning from the end.
fn find_last(s: &str, c: char) -> (r: Option<usize>)
    ensures
        match r {
            Some(k) => last_index_of(s@, c) == k as int,
            None => last_index_of(s@, c) == -1,
        },
{
    let n = s.unicode_len();
    let mut i: usize = n;
    while i > 0
        invariant
            i <= n == s@.len(),
            forall|j: int| i <= j < s@.len() ==> s@[j] != c,
        decreases i,
    {
        i = i - 1;
        if s.get_char(i) == c {
            proof {
                lemma_last_index_of_is(s@, c, i as int);
            }
            return Some(i);
        }
    }
    proof {
        lemma_last_index_of(s@, c);
    }
    None
}

/// Finds the first occurrence of `c` in `s`, scanning from the start.
fn find_first(s: &str, c: char) -> (r: Option<usize>)
    ensures
        match r {
            Some(k) => first_index_of(s@, c) == k as int,
            None => first_index_of(s@, c) == -1,
        },
{
    let n = s.unicode_len();
    let mut i: usize = 0;
    while i < n
        invariant
            i <= n == s@.len(),
            forall|j: int| 0 <= j < i ==> s@[j] != c,
        decreases n - i,
    {
        if s.get_char(i) == c {
            proof {
                lemma_first_index_of_is(s@, c, i as int);
            }
            return Some(i);
        }
        i = i + 1;
    }
    proof {
        lemma_first_index_of(s@, c);
    }
    None
}

/// The final component of a path: the text after its last `/`, or the whole
/// path when it holds none.
fn file_name_of<'a>(path: &'a str) -> (r: &'a str)
    ensures
        r@ == spec_file_name(path@),
{
    let n = path.unicode_len();
    match find_last(path, '/') {
        Some(k) => {
            proof {
                lemma_last_index_of(path@, '/');
            }
            path.substring_char(k + 1, n)
        },
        None => path,
    }
}

/// The directory part of a path: the text before its last `/`, or the empty
/// string when it holds none.
fn parent_of<'a>(path: &'a str) -> (r: &'a str)
    ensures
        r@ == spec_parent(path@),
{
    match find_last(path, '/') {
        Some(k) => {
            proof {
                lemma_last_index_of(path@, '/');
            }
            path.substring_char(0, k)
        },
        None => {
            proof {
                reveal_strlit("");
                assert(""@ =~= Seq::<char>::empty());
            }
            ""
        },
    }
}

/// The stem of a path's file name: the file name without its extension.
fn stem_of<'a>(path: &'a str) -> (r: &'a str)
    ensures
        r@ == spec_stem(spec_file_name(path@)),
{
    let name = file_name_of(path);
    match find_last(name, '.') {
        Some(k) if k >= 1 => {
            proof {
                lemma_last_index_of(name@, '.');
            }
            name.substring_char(0, k)
        },
        _ => name,
    }
}

/// Extracts the extension of the path's file name: the text after its last
/// `.`. Fails when the name holds no `.` past its first character.
pub fn extract_suffix<'a>(path: &'a str) -> (r: Result<&'a str, ProcessError>)
    ensures
        match r {
            Ok(s) => spec_has_extension(spec_file_name(path@)) && s@ == spec_extension(
                spec_file_name(path@),
            ),
            Err(e) => !spec_has_extension(spec_file_name(path@)) && e == ProcessError::Extension,
        },
{
    let name = file_name_of(path);
    let n = name.unicode_len();
    match find_last(name, '.') {
        Some(k) if k >= 1 => {
            proof {
                lemma_last_index_of(name@, '.');
            }
            Ok(name.substring_char(k + 1, n))
        },
        _ => Err(ProcessError::extension()),
    }
}

/// Splits the stem of the path's file name at its first separator into the
/// category and the encoded date: the first and second separator-delimited
/// segments. Text after a further separator, if present, is not examined.
/// Fails when the stem holds no separator.
pub fn split_into_parent_date<'a>(path: &'a str) -> (r: Result<(&'a str, &'a str), ProcessError>)
    ensures
        match r {
            Ok(t) => {
                let stem = spec_stem(spec_file_name(path@));
                &&& spec_has_separator(stem)
                &&& t.0@ == spec_category(stem)
                &&& t.1@ == spec_date_part(stem)
            },
            Err(e) => !spec_has_separator(spec_stem(spec_file_name(path@))) && e
                == ProcessError::Separator,
        },
{
    let stem = stem_of(path);
    let n = stem.unicode_len();
    match find_first(stem, SEPARATOR) {
        Some(k) => {
            proof {
                lemma_first_index_of(stem@, SEPARATOR);
            }
            let category = stem.substring_char(0, k);
            let rest = stem.substring_char(k + 1, n);
            let date = match find_first(rest, SEPARATOR) {
                Some(m) => {
                    proof {
                        lemma_first_index_of(rest@, SEPARATOR);
                    }
                    rest.substring_char(0, m)
                },
                None => rest,
            };
            Ok((category, date))
        },
        None => Err(ProcessError::separator()),
    }
}

/// Decides whether `input` passes the range check for ceiling `max`: a
/// non-empty string of ASCII digits whose value is at most `max`. There is no
/// lower bound, so `"00"` passes.
pub fn is_valid_range(input: &str, max: u16) -> (r: bool)
    ensures
        r == spec_in_range(input@, max as nat),
{
    let n = input.unicode_len();
    if n == 0 {
        return false;
    }
    let mut i: usize = 0;
    let mut value: u32 = 0;
    while i < n
        invariant
            i <= n == input@.len(),
            all_digits(input@.take(i as int)),
            value == str_value(input@.take(i as int)),
            value <= max,
        decreases n - i,
    {
        let c = input.get_char(i);
        let code = c as u32;
        if code < 48 || code > 57 {
            assert(!is_digit(input@[i as int]));
            return false;
        }
        let next = value * 10 + (code - 48);
        proof {
            assert(input@.take(i + 1).drop_last() =~= input@.take(i as int));
            assert(input@.take(i + 1).last() == input@[i as int]);
        }
        if next > max as u32 {
            proof {
                lemma_str_value_take_monotone(input@, i + 1, input@.len() as int);
                assert(input@.take(input@.len() as int) =~= input@);
            }
            return false;
        }
        value = next;
        i = i + 1;
    }
    proof {
        assert(input@.take(n as int) =~= input@);
    }
    true
}

/// Decides whether `date` has the shape of an encoded date: exactly
/// [`DATE_LENGTH`] characters, all of them ASCII digits.
pub fn is_valid_fmt(date: &str) -> (r: bool)
    ensures
        r == spec_valid_format(date@),
{
    let n = date.unicode_len();
    if n != DATE_LENGTH {
        return false;
    }
    let mut i: usize = 0;
    while i < n
        invariant
            i <= n == date@.len(),
            forall|j: int| 0 <= j < i ==> is_digit(#[trigger] date@[j]),
        decreases n - i,
    {
        let code = date.get_char(i) as u32;
        if code < 48 || code > 57 {
            assert(!is_digit(date@[i as int]));
            return false;
        }
        i = i + 1;
    }
    true
}

/// Checks the shape of an encoded date, handing it back unchanged on
/// success. Fails when the date is not exactly eight ASCII digits.
pub fn validate<'a>(date: &'a str) -> (r: Result<&'a str, ProcessError>)
    ensures
        match r {
            Ok(d) => spec_valid_format(date@) && d@ == date@,
            Err(e) => !spec_valid_format(date@) && e == ProcessError::Date,
        },
{
    if is_valid_fmt(date) {
        Ok(date)
    } else {
        Err(ProcessError::date())
    }
}

/// Slices an encoded date into its day, month and year fields and checks
/// each against its ceiling. Fails when any field is not a number within
/// range.
pub fn parse<'a>(date: &'a str) -> (r: Result<(&'a str, &'a str, &'a str), ProcessError>)
    requires
        date@.len() >= 4,
    ensures
        match r {
            Ok(t) => {
                &&& t.0@ == date@.subrange(0, 2)
                &&& t.1@ == date@.subrange(2, 4)
                &&& t.2@ == date@.subrange(4, date@.len() as int)
                &&& spec_in_range(t.0@, VALID_DAYS as nat)
                &&& spec_in_range(t.1@, VALID_MONTHS as nat)
                &&& spec_in_range(t.2@, VALID_YEARS as nat)
            },
            Err(e) => {
                &&& e == ProcessError::Date
                &&& !(spec_in_range(date@.subrange(0, 2), VALID_DAYS as nat) && spec_in_range(
                    date@.subrange(2, 4),
                    VALID_MONTHS as nat,
                ) && spec_in_range(date@.subrange(4, date@.len() as int), VALID_YEARS as nat))
            },
        },
{
    let n = date.unicode_len();
    let day = date.substring_char(0, 2);
    let month = date.substring_char(2, 4);
    let year = date.substring_char(4, n);

    if is_valid_range(day, VALID_DAYS) && is_valid_range(month, VALID_MONTHS) && is_valid_range(
        year,
        VALID_YEARS,
    ) {
        Ok((day, month, year))
    } else {
        Err(ProcessError::date())
    }
}

/// Classifies one source path against a target root: on success, the
/// directory the source lies in together with the archive destination
/// `<target>/<year>/<month>/<day>/<category>.<extension>`; otherwise the
/// first classification error, in the order extension, separator, date
/// shape, date ranges.
pub fn extract_dst_path(path: &str, target: &str) -> (r: Result<(String, String), ProcessError>)
    ensures
        match r {
            Ok(t) => {
                &&& spec_extract_dst_path(path@, target@) is Ok
                &&& t.0@ == spec_extract_dst_path(path@, target@)->Ok_0.0
                &&& t.1@ == spec_extract_dst_path(path@, target@)->Ok_0.1
            },
            Err(e) => spec_extract_dst_path(path@, target@) == Err::<(Seq<char>, Seq<char>),
                ProcessError,
            >(e),
        },
{
    let ghost name = spec_file_name(path@);
    let suffix = match extract_suffix(path) {
        Ok(s) => s,
        Err(e) => {
            return Err(e);
        },
    };
    let parent = parent_of(path);

    let (about, date) = match split_into_parent_date(path) {
        Ok(t) => t,
        Err(e) => {
            return Err(e);
        },
    };
    let date = match validate(date) {
        Ok(d) => d,
        Err(e) => {
            return Err(e);
        },
    };
    let (day, month, year) = match parse(date) {
        Ok(t) => t,
        Err(e) => {
            proof {
                lemma_fields_in_range_iff_classified(name);
            }
            return Err(e);
        },
    };
    proof {
        lemma_fields_in_range_iff_classified(name);
    }

    let mut destination = String::from_str(target);
    destination.append("/");
    destination.append(year);
    destination.append("/");
    destination.append(month);
    destination.append("/");
    destination.append(day);
    destination.append("/");
    destination.append(about);
    destination.append(".");
    destination.append(suffix);

    proof {
        reveal_strlit("/");
        reveal_strlit(".");
        assert("/"@ =~= seq!['/']);
        assert("."@ =~= seq!['.']);
        let c = spec_classify(name)->Ok_0;
        assert(destination@ =~= spec_destination(target@, c));
    }

    Ok((String::from_str(parent), destination))
}

/// Once a file name has an extension, a separator and a well-shaped date,
/// classification succeeds exactly when the three date fields pass their
/// range checks; the classified fields are then the slices of the name.
proof fn lemma_fields_in_range_iff_classified(name: Seq<char>)
    requires
        spec_has_extension(name),
        spec_has_separator(spec_stem(name)),
        spec_valid_format(spec_date_part(spec_stem(name))),
    ensures
        ({
            let date = spec_date_part(spec_stem(name));
            let day = date.subrange(0, 2);
            let month = date.subrange(2, 4);
            let year = date.subrange(4, date.len() as int);
            &&& (spec_classify(name) is Ok <==> spec_in_range(day, VALID_DAYS as nat)
                && spec_in_range(month, VALID_MONTHS as nat) && spec_in_range(
                year,
                VALID_YEARS as nat,
            ))
            &&& spec_classify(name) is Err ==> spec_classify(name)->Err_0 == ProcessError::Date
            &&& spec_classify(name) is Ok ==> {
                let c = spec_classify(name)->Ok_0;
                &&& c.category == spec_category(spec_stem(name))
                &&& c.day == day
                &&& c.month == month
                &&& c.year == year
                &&& c.extension == spec_extension(name)
            }
        }),
{
    let date = spec_date_part(spec_stem(name));
    assert(date.len() == DATE_LENGTH);
    assert forall|i: int| 0 <= i < 2 implies is_digit(#[trigger] date.subrange(0, 2)[i]) by {
        assert(date.subrange(0, 2)[i] == date[i]);
    }
    assert forall|i: int| 0 <= i < 2 implies is_digit(#[trigger] date.subrange(2, 4)[i]) by {
        assert(date.subrange(2, 4)[i] == date[i + 2]);
    }
    assert forall|i: int| 0 <= i < date.len() - 4 implies is_digit(
        #[trigger] date.subrange(4, date.len() as int)[i],
    ) by {
        assert(date.subrange(4, date.len() as int)[i] == date[i + 4]);
    }
}

} // verus!
