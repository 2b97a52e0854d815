//! The formats a schedule can be dumped in, and their names.

use vstd::prelude::*;
use std::str::FromStr;
use vstd::string::StringSliceAdditionalSpecFns;

verus! {

/// The format of a schedule dump: the debug listing or a Graphviz `.dot` graph.
#[derive(Copy, Clone, Debug, PartialEq, Eq, Structural, PartialOrd, Ord, Hash)]
pub enum ScheduleDumpFormat {
    Debug,
    Dot,
}

impl Default for ScheduleDumpFormat {
    fn default() -> (r: Self)
        ensures
            r == ScheduleDumpFormat::Debug,
    {
        ScheduleDumpFormat::Debug
    }
}

/// The byte with ASCII upper-case letters mapped to lower case.
pub open spec fn ascii_lower(c: u8) -> u8 {
    if 65 <= c <= 90 {
        (c + 32) as u8
    } else {
        c
    }
}

/// The two byte strings are equal up to ASCII case.
pub open spec fn eq_ignoring_ascii_case(a: Seq<u8>, b: Seq<u8>) -> bool {
    a.len() == b.len() && forall|i: int| 0 <= i < a.len() ==> ascii_lower(a[i]) == ascii_lower(b[i])
}

fn to_ascii_lower(c: u8) -> (r: u8)
    ensures
        r == ascii_lower(c),
{
    if 65 <= c && c <= 90 {
        c + 32
    } else {
        c
    }
}

/// Whether `a` and `b` are equal up to ASCII case, byte by byte.
pub fn eq_ignore_ascii_case(a: &str, b: &str) -> (r: bool)
    ensures
        r == eq_ignoring_ascii_case(a.spec_bytes(), b.spec_bytes()),
{
    let x = a.as_bytes();
    let y = b.as_bytes();
    if x.len() != y.len() {
        return false;
    }
    let mut i: usize = 0;
    while i < x.len()
        invariant
            0 <= i <= x@.len(),
            x@ == a.spec_bytes(),
            y@ == b.spec_bytes(),
            x@.len() == y@.len(),
            forall|j: int| 0 <= j < i ==> ascii_lower(x@[j]) == ascii_lower(y@[j]),
        decreases x@.len() - i,
    {
        if to_ascii_lower(x[i]) != to_ascii_lower(y[i]) {
            return false;
        }
        i += 1;
    }
    true
}

/// The format named `s`, in any ASCII case: `debug` or `dot`.
pub fn parse_format(s: &str) -> (r: Result<ScheduleDumpFormat, &'static str>)
    ensures
        eq_ignoring_ascii_case("debug".spec_bytes(), s.spec_bytes()) ==> r == Ok::<
            ScheduleDumpFormat,
            &'static str,
        >(ScheduleDumpFormat::Debug),
        !eq_ignoring_ascii_case("debug".spec_bytes(), s.spec_bytes()) && eq_ignoring_ascii_case(
            "dot".spec_bytes(),
            s.spec_bytes(),
        ) ==> r == Ok::<ScheduleDumpFormat, &'static str>(ScheduleDumpFormat::Dot),
        !eq_ignoring_ascii_case("debug".spec_bytes(), s.spec_bytes()) && !eq_ignoring_ascii_case(
            "dot".spec_bytes(),
            s.spec_bytes(),
        ) ==> r is Err,
{
    if eq_ignore_ascii_case("debug", s) {
        Ok(ScheduleDumpFormat::Debug)
    } else if eq_ignore_ascii_case("dot", s) {
        Ok(ScheduleDumpFormat::Dot)
    } else {
        Err("Unknown schedule dump format")
    }
}

impl FromStr for ScheduleDumpFormat {
    type Err = &'static str;

    fn from_str(s: &str) -> (r: Result<Self, Self::Err>)
        ensures
            eq_ignoring_ascii_case("debug".spec_bytes(), s.spec_bytes()) ==> r == Ok::<
                ScheduleDumpFormat,
                &'static str,
            >(ScheduleDumpFormat::Debug),
            !eq_ignoring_ascii_case("debug".spec_bytes(), s.spec_bytes())
                && eq_ignoring_ascii_case("dot".spec_bytes(), s.spec_bytes()) ==> r == Ok::<
                ScheduleDumpFormat,
                &'static str,
            >(ScheduleDumpFormat::Dot),
            !eq_ignoring_ascii_case("debug".spec_bytes(), s.spec_bytes())
                && !eq_ignoring_ascii_case("dot".spec_bytes(), s.spec_bytes()) ==> r is Err,
    {
        parse_format(s)
    }
}

} // verus!
