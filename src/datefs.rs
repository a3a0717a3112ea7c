//! Locating entries in the journal directory by their canonical names.
use vstd::prelude::*;
use crate::date::{CalendarDate, decoded, encode, encoded, name_fields, push_char, valid_date};

verus! {

/// Why a journal directory could not be read as a set of entries.
#[derive(Debug)]
pub enum DateFSError {
    /// The journal root does not exist or cannot be listed.
    BaseMissing,
    /// A file name that is not the canonical name of an entry, or a file that
    /// cannot be read or created.
    InvalidFile(String),
    /// A well-formed name whose numbers are not a real date.
    InvalidDate(i32, u8, u8),
    /// Any other failure of the operating system, with its description.
    OSError(String),
}

/// What decoding the name `s` gives: the date it is the canonical name of,
/// `InvalidDate` for a well-formed name that is no real date, else
/// `InvalidFile` carrying the name.
pub open spec fn decode_outcome(s: Seq<char>, r: Result<CalendarDate, DateFSError>) -> bool {
    match name_fields(s) {
        None => r matches Err(DateFSError::InvalidFile(f)) && f@ == s,
        Some((y, m, d)) => if valid_date(y, m, d) {
            r == Ok::<CalendarDate, DateFSError>(decoded(s)->0)
        } else {
            r matches Err(DateFSError::InvalidDate(ey, em, ed)) && ey == y && em == m && ed == d
        },
    }
}

/// Decodes an entry's file name into the date it names.
pub fn extract_date(name: &str) -> (r: Result<CalendarDate, DateFSError>)
    ensures
        decode_outcome(name@, r),
        r is Ok <==> decoded(name@) is Some,
        r is Ok ==> r->Ok_0 == decoded(name@)->0 && r->Ok_0.wf(),
{
    let n = name.unicode_len();
    if n != 13 || name.get_char(4) != '-' || name.get_char(7) != '-' || name.get_char(10) != '.'
        || name.get_char(11) != 'm' || name.get_char(12) != 'd' {
        return Err(DateFSError::InvalidFile(String::from_str(name)));
    }
    let d0 = char_digit(name, 0);
    let d1 = char_digit(name, 1);
    let d2 = char_digit(name, 2);
    let d3 = char_digit(name, 3);
    let d5 = char_digit(name, 5);
    let d6 = char_digit(name, 6);
    let d8 = char_digit(name, 8);
    let d9 = char_digit(name, 9);
    match (d0, d1, d2, d3, d5, d6, d8, d9) {
        (Some(a), Some(b), Some(c), Some(d), Some(e), Some(f), Some(g), Some(h)) => {
            let year: i32 = a as i32 * 1000 + b as i32 * 100 + c as i32 * 10 + d as i32;
            let month: u8 = e * 10 + f;
            let day: u8 = g * 10 + h;
            match CalendarDate::new(year, month, day) {
                Some(date) => Ok(date),
                None => Err(DateFSError::InvalidDate(year, month, day)),
            }
        },
        _ => Err(DateFSError::InvalidFile(String::from_str(name))),
    }
}

fn char_digit(name: &str, i: usize) -> (r: Option<u8>)
    requires
        i < name@.len(),
    ensures
        r matches Some(v) ==> crate::date::digit_value(name@[i as int]) == Some(v as int) && v < 10,
        r is None ==> crate::date::digit_value(name@[i as int]) is None,
{
    crate::date::char_to_digit(name.get_char(i))
}

/// `o` is the latest date strictly before `bound` among the dates that the
/// names `names` stand for, or `None` where none of them is before `bound`.
pub open spec fn is_latest_before(names: Seq<String>, bound: CalendarDate, o: Option<CalendarDate>) -> bool {
    match o {
        None => forall|i: int| 0 <= i < names.len() ==> !(#[trigger] decoded(names[i]@))->0.lt(bound),
        Some(d) => {
            &&& d.lt(bound)
            &&& exists|i: int| 0 <= i < names.len() && #[trigger] decoded(names[i]@) == Some(d)
            &&& forall|i: int|
                0 <= i < names.len() && (#[trigger] decoded(names[i]@))->0.lt(bound) ==> !d.lt(
                    decoded(names[i]@)->0,
                )
        },
    }
}

/// Finds, among the file names of a journal directory, the latest entry
/// strictly before `bound`. Every name must be the canonical name of an entry:
/// the first that is not makes the whole call fail with its decoding error.
pub fn previous_before(names: &Vec<String>, bound: &CalendarDate) -> (r: Result<
    Option<CalendarDate>,
    DateFSError,
>)
    ensures
        r is Ok <==> forall|i: int| 0 <= i < names@.len() ==> (#[trigger] decoded(names@[i]@)) is Some,
        r matches Ok(o) ==> is_latest_before(names@, *bound, o),
        r matches Ok(o) ==> (o matches Some(d) ==> d.wf()),
        r is Err ==> exists|i: int|
            0 <= i < names@.len() && (#[trigger] decoded(names@[i]@)) is None && decode_outcome(
                names@[i]@,
                Err(r->Err_0),
            ) && forall|j: int| 0 <= j < i ==> (#[trigger] decoded(names@[j]@)) is Some,
        forall|i: int|
            #![trigger names@[i]]
            0 <= i < names@.len() && name_fields(names@[i]@) is None && (forall|j: int|
                0 <= j < names@.len() && j != i ==> (#[trigger] decoded(names@[j]@)) is Some)
                ==> (r matches Err(DateFSError::InvalidFile(f)) && f@ == names@[i]@),
{
    let mut best: Option<CalendarDate> = None;
    let mut i: usize = 0;
    while i < names.len()
        invariant
            i <= names@.len(),
            forall|j: int| 0 <= j < i ==> (#[trigger] decoded(names@[j]@)) is Some,
            is_latest_before(names@.take(i as int), *bound, best),
            best matches Some(d) ==> d.wf(),
        decreases names@.len() - i,
    {
        let ghost prefix = names@.take(i as int);
        assert(names@.take(i + 1) =~= prefix.push(names@[i as int]));
        match extract_date(names[i].as_str()) {
            Err(e) => {
                proof {
                    let r: Result<Option<CalendarDate>, DateFSError> = Err(e);
                    assert forall|k: int|
                        #![trigger names@[k]]
                        0 <= k < names@.len() && name_fields(names@[k]@) is None && (forall|j: int|
                            0 <= j < names@.len() && j != k ==> (#[trigger] decoded(names@[j]@)) is Some)
                        implies (r matches Err(DateFSError::InvalidFile(f)) && f@ == names@[k]@) by {
                        if k != i {
                            assert(decoded(names@[i as int]@) is Some);
                        }
                    }
                }
                return Err(e);
            },
            Ok(d) => {
                let take = d.is_before(bound) && match best {
                    None => true,
                    Some(b) => b.is_before(&d),
                };
                if take {
                    best = Some(d);
                }
                proof {
                    let next = names@.take(i + 1);
                    assert(decoded(next[i as int]@) == Some(d));
                    assert forall|j: int| 0 <= j < i implies next[j] == prefix[j] by {}
                    if take {
                        assert forall|j: int| 0 <= j < next.len() && (#[trigger] decoded(next[j]@))->0.lt(*bound)
                            implies !d.lt(decoded(next[j]@)->0) by {
                            if j < i {
                                assert(decoded(prefix[j]@)->0.lt(*bound));
                            }
                        }
                    } else {
                        match best {
                            Some(b) => {
                                let k = choose|k: int| 0 <= k < prefix.len() && #[trigger] decoded(prefix[k]@) == Some(b);
                                assert(decoded(next[k]@) == Some(b));
                            },
                            None => {},
                        }
                    }
                }
            },
        }
        i = i + 1;
    }
    assert(names@.take(i as int) =~= names@);
    assert forall|k: int| #![trigger names@[k]] 0 <= k < names@.len() implies name_fields(names@[k]@) is Some by {
        assert(decoded(names@[k]@) is Some);
    }
    Ok(best)
}

/// `name` placed directly under the directory `base`.
pub open spec fn joined_path(base: Seq<char>, name: Seq<char>) -> Seq<char> {
    if base.len() == 0 || base.last() == '/' {
        base + name
    } else {
        base + seq!['/'] + name
    }
}

/// The path of the entry for `date` in the journal root `base_path`.
pub fn construct_path(base_path: &str, date: &CalendarDate) -> (r: String)
    requires
        date.wf(),
    ensures
        r@ == joined_path(base_path@, encoded(*date)),
{
    let mut r = String::from_str(base_path);
    let n = base_path.unicode_len();
    if n > 0 && base_path.get_char(n - 1) != '/' {
        push_char(&mut r, '/');
    }
    let name = encode(date);
    r.append(name.as_str());
    r
}

} // verus!
