//! Dotted version numbers and their order.
use crate::error::ResourceError;
use crate::text::{chars_of, parse_i32, read_i32};
use std::cmp::Ordering;
use vstd::prelude::*;

verus! {

/// The parts of `s` that the dots in it separate. A text without a dot is
/// one part; two dots in a row hold an empty part between them.
pub open spec fn split_dots(s: Seq<char>) -> Seq<Seq<char>>
    decreases s.len(),
{
    if s.len() == 0 {
        seq![Seq::<char>::empty()]
    } else {
        let init = split_dots(s.drop_last());
        if s.last() == '.' {
            init.push(Seq::<char>::empty())
        } else {
            init.update(init.len() - 1, init.last().push(s.last()))
        }
    }
}

/// Whether every part of the version `s` is an integer of 32 bits.
pub open spec fn is_version(s: Seq<char>) -> bool {
    forall|i: int| 0 <= i < split_dots(s).len() ==> parse_i32(#[trigger] split_dots(s)[i]) is Some
}

/// The numbers of the version `s`, one for each part.
pub open spec fn version_numbers(s: Seq<char>) -> Seq<i32> {
    split_dots(s).map_values(|part: Seq<char>| parse_i32(part).unwrap())
}

/// The number at place `i` of a version, zero where the version is shorter.
pub open spec fn number_at(v: Seq<i32>, i: int) -> int {
    if 0 <= i < v.len() {
        v[i] as int
    } else {
        0
    }
}

/// The order of two versions from place `i` on: -1 where `a` is lower,
/// 0 where they are equal, 1 where `a` is higher. The first place at which
/// they differ decides.
pub open spec fn sign_from(a: Seq<i32>, b: Seq<i32>, i: int) -> int
    decreases
        (if a.len() > b.len() {
            a.len()
        } else {
            b.len()
        }) - i,
{
    if i < 0 || (i >= a.len() && i >= b.len()) {
        0
    } else if number_at(a, i) < number_at(b, i) {
        -1
    } else if number_at(a, i) > number_at(b, i) {
        1
    } else {
        sign_from(a, b, i + 1)
    }
}

/// The order of two versions.
pub open spec fn version_sign(a: Seq<char>, b: Seq<char>) -> int {
    sign_from(version_numbers(a), version_numbers(b), 0)
}

/// The parts of `s` that the dots in it separate.
fn split_version(s: &str) -> (parts: Vec<Vec<char>>)
    ensures
        parts@.map_values(|p: Vec<char>| p@) == split_dots(s@),
{
    let chars = chars_of(s);
    let n: usize = chars.len();
    let mut parts: Vec<Vec<char>> = Vec::new();
    let mut cur: Vec<char> = Vec::new();
    let mut i: usize = 0;
    assert(chars@.subrange(0, 0) =~= Seq::<char>::empty());
    assert(parts@.map_values(|p: Vec<char>| p@).push(cur@) =~= split_dots(chars@.subrange(0, 0)));
    while i < n
        invariant
            n == chars@.len(),
            i <= n,
            parts@.map_values(|p: Vec<char>| p@).push(cur@) == split_dots(
                chars@.subrange(0, i as int),
            ),
        decreases n - i,
    {
        let c = chars[i];
        let ghost done = parts@.map_values(|p: Vec<char>| p@);
        let ghost before = chars@.subrange(0, i as int);
        let ghost after = chars@.subrange(0, i + 1);
        proof {
            assert(after.drop_last() =~= before);
            assert(after.last() == c);
        }
        if c == '.' {
            let ghost old_cur = cur@;
            parts.push(cur);
            cur = Vec::new();
            proof {
                assert(parts@.map_values(|p: Vec<char>| p@) =~= done.push(old_cur));
                assert(cur@ =~= Seq::<char>::empty());
            }
        } else {
            let ghost old_cur = cur@;
            cur.push(c);
            proof {
                assert(done.push(old_cur).update(done.len() as int, old_cur.push(c)) =~= done.push(
                    cur@,
                ));
            }
        }
        i += 1;
    }
    proof {
        assert(chars@.subrange(0, n as int) =~= chars@);
        assert(parts@.push(cur).map_values(|p: Vec<char>| p@) =~= parts@.map_values(
            |p: Vec<char>| p@,
        ).push(cur@));
    }
    parts.push(cur);
    parts
}

/// The numbers of the version `s`, if every part of it is an integer.
pub fn parse_version(s: &str) -> (r: Option<Vec<i32>>)
    ensures
        r is Some <==> is_version(s@),
        r is Some ==> r.unwrap()@ == version_numbers(s@),
{
    let parts = split_version(s);
    let n: usize = parts.len();
    let ghost texts = split_dots(s@);
    let mut numbers: Vec<i32> = Vec::new();
    let mut i: usize = 0;
    while i < n
        invariant
            n == parts@.len(),
            i <= n,
            texts == split_dots(s@),
            parts@.map_values(|p: Vec<char>| p@) == texts,
            numbers@.len() == i,
            forall|k: int| 0 <= k < i ==> parse_i32(#[trigger] texts[k]) == Some(numbers@[k]),
        decreases n - i,
    {
        assert(parts@.map_values(|p: Vec<char>| p@)[i as int] == parts@[i as int]@);
        match read_i32(&parts[i]) {
            Some(v) => {
                numbers.push(v);
            },
            None => {
                assert(parse_i32(texts[i as int]) is None);
                return None;
            },
        }
        i += 1;
    }
    assert(numbers@ =~= version_numbers(s@));
    Some(numbers)
}

/// Compares two version number lists place by place.
pub fn compare_numbers(a: &Vec<i32>, b: &Vec<i32>) -> (sign: i8)
    ensures
        sign == sign_from(a@, b@, 0),
        -1 <= sign <= 1,
{
    let na: usize = a.len();
    let nb: usize = b.len();
    let n: usize = if na > nb {
        na
    } else {
        nb
    };
    let mut i: usize = 0;
    while i < n
        invariant
            na == a@.len(),
            nb == b@.len(),
            n == if na > nb { na } else { nb },
            i <= n,
            sign_from(a@, b@, 0) == sign_from(a@, b@, i as int),
        decreases n - i,
    {
        let x: i32 = if i < na {
            a[i]
        } else {
            0
        };
        let y: i32 = if i < nb {
            b[i]
        } else {
            0
        };
        if x < y {
            return -1;
        }
        if x > y {
            return 1;
        }
        i += 1;
    }
    0
}

/// Compares two dotted versions number by number from the left; a version
/// with fewer numbers counts as having zeros after them. A version with a
/// part that is not an integer is malformed.
pub fn compareVersion(version1: &str, version2: &str) -> (r: Result<Ordering, ResourceError>)
    ensures
        r is Ok <==> is_version(version1@) && is_version(version2@),
        r is Err ==> r == Err::<Ordering, ResourceError>(ResourceError::MalformedVersion),
        r == Ok::<Ordering, ResourceError>(Ordering::Less) ==> version_sign(version1@, version2@)
            == -1,
        r == Ok::<Ordering, ResourceError>(Ordering::Equal) ==> version_sign(version1@, version2@)
            == 0,
        r == Ok::<Ordering, ResourceError>(Ordering::Greater) ==> version_sign(
            version1@,
            version2@,
        ) == 1,
{
    let left = match parse_version(version1) {
        Some(v) => v,
        None => {
            return Err(ResourceError::MalformedVersion);
        },
    };
    let right = match parse_version(version2) {
        Some(v) => v,
        None => {
            return Err(ResourceError::MalformedVersion);
        },
    };
    let sign: i8 = compare_numbers(&left, &right);
    if sign < 0 {
        Ok(Ordering::Less)
    } else if sign > 0 {
        Ok(Ordering::Greater)
    } else {
        Ok(Ordering::Equal)
    }
}

} // verus!
