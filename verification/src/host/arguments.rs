//! Options that more than one tool takes.
use crate::host::abi;
use crate::host::device;
use crate::host::device::Config;
use crate::host::units;
use crate::text;
use vstd::prelude::*;
use vstd::string::StringExecFns;

verus! {

/// The value of an option, as the arguments give it.
pub open spec fn value(args: Seq<String>, flag: Seq<char>) -> Option<Seq<char>> {
    units::value_in(args, flag.push('='))
}

/// A number no smaller than `floor`.
pub open spec fn number(v: Seq<char>, what: Seq<char>, floor: u32) -> Result<u32, Seq<char>> {
    match text::unsigned(v) {
        Some(n) if n <= u32::MAX => Ok(
            if n < floor {
                floor
            } else {
                n as u32
            },
        ),
        _ => Err("`"@ + v + "` is not a valid "@ + what),
    }
}

/// A numeric option, or what stands for it where it is absent.
pub open spec fn number_of(
    args: Seq<String>,
    flag: Seq<char>,
    what: Seq<char>,
    absent: u32,
    floor: u32,
) -> Result<u32, Seq<char>> {
    match value(args, flag) {
        Some(v) => number(v, what, floor),
        None => Ok(absent),
    }
}

pub open spec fn size_of(args: Seq<String>, flag: Seq<char>) -> Result<nat, Seq<char>> {
    match value(args, flag) {
        Some(v) => units::size_in(v),
        None => Ok(0),
    }
}

pub open spec fn backend_of(args: Seq<String>) -> Result<u32, Seq<char>> {
    match value(args, "--backend"@) {
        Some(v) => match device::backend_named(v) {
            Some(b) => Ok(b),
            None => Err("`"@ + v + "` is not a backend (see --help)"@),
        },
        None => Ok(abi::BACKEND_NONE),
    }
}

pub open spec fn tier_of(args: Seq<String>) -> Result<u32, Seq<char>> {
    match value(args, "--tier"@) {
        Some(v) => match device::tier_named(v) {
            Some(t) => Ok(t),
            None => Err("`"@ + v + "` is not a tier (see --help)"@),
        },
        None => Ok(0),
    }
}

pub open spec fn is_yes(v: Seq<char>) -> bool {
    v == "1"@ || v == "on"@ || v == "true"@
}

/// What is wrong with a value.
pub open spec fn fault<T>(r: Result<T, Seq<char>>) -> Option<Seq<char>> {
    match r {
        Ok(_) => None,
        Err(e) => Some(e),
    }
}

/// The first of two faults.
pub open spec fn first(a: Option<Seq<char>>, b: Option<Seq<char>>) -> Option<Seq<char>> {
    if a is Some {
        a
    } else {
        b
    }
}

pub open spec fn same_text(a: Option<String>, b: Option<Seq<char>>) -> bool {
    match a {
        Some(t) => b == Some(t@),
        None => b is None,
    }
}

pub fn read_number(v: &str, what: &str, floor: u32) -> (r: Result<u32, String>)
    ensures
        match r {
            Ok(n) => number(v@, what@, floor) == Ok::<u32, Seq<char>>(n),
            Err(e) => number(v@, what@, floor) == Err::<u32, Seq<char>>(e@),
        },
{
    match units::parse_u32(v, what) {
        Ok(n) => Ok(
            if n < floor {
                floor
            } else {
                n
            },
        ),
        Err(e) => Err(e),
    }
}

pub fn number_from(args: &[String], flag: &str, what: &str, absent: u32, floor: u32) -> (r: Result<
    u32,
    String,
>)
    ensures
        match r {
            Ok(n) => number_of(args@, flag@, what@, absent, floor) == Ok::<u32, Seq<char>>(n),
            Err(e) => number_of(args@, flag@, what@, absent, floor) == Err::<u32, Seq<char>>(e@),
        },
{
    match units::value_of(args, flag) {
        Some(v) => read_number(v, what, floor),
        None => Ok(absent),
    }
}

pub fn size_from(args: &[String], flag: &str) -> (r: Result<u64, String>)
    ensures
        match r {
            Ok(n) => size_of(args@, flag@) == Ok::<nat, Seq<char>>(n as nat),
            Err(e) => size_of(args@, flag@) == Err::<nat, Seq<char>>(e@),
        },
{
    match units::value_of(args, flag) {
        Some(v) => units::parse_size(v),
        None => Ok(0),
    }
}

pub fn quoted(v: &str, what: &str) -> (e: String)
    ensures
        e@ == "`"@ + v@ + what@,
{
    let mut e = String::from_str("`");
    e.append(v);
    e.append(what);
    e
}

pub fn backend_from(args: &[String]) -> (r: Result<u32, String>)
    ensures
        match r {
            Ok(n) => backend_of(args@) == Ok::<u32, Seq<char>>(n),
            Err(e) => backend_of(args@) == Err::<u32, Seq<char>>(e@),
        },
{
    match units::value_of(args, "--backend") {
        Some(v) => match Config::backend_from_name(v) {
            Some(b) => Ok(b),
            None => Err(quoted(v, "` is not a backend (see --help)")),
        },
        None => Ok(abi::BACKEND_NONE),
    }
}

pub fn tier_from(args: &[String]) -> (r: Result<u32, String>)
    ensures
        match r {
            Ok(n) => tier_of(args@) == Ok::<u32, Seq<char>>(n),
            Err(e) => tier_of(args@) == Err::<u32, Seq<char>>(e@),
        },
{
    match units::value_of(args, "--tier") {
        Some(v) => match Config::tier_from_name(v) {
            Some(t) => Ok(t),
            None => Err(quoted(v, "` is not a tier (see --help)")),
        },
        None => Ok(0),
    }
}

pub fn text_from(args: &[String], flag: &str) -> (r: Option<String>)
    ensures
        same_text(r, value(args@, flag@)),
{
    match units::value_of(args, flag) {
        Some(v) => Some(String::from_str(v)),
        None => None,
    }
}

} // verus!
