//! Reading the command-line arguments of the `add`, `sub` and `sum` commands.
use vstd::prelude::*;
use vstd::string::*;

use crate::date::{parse_date, Date, Ymd};
use crate::text::{parse_u16, u16_of};

verus! {

pub open spec fn not_a_date_text(arg: Seq<char>) -> Seq<char> {
    "Parse arguments error: \""@ + arg + "\" cannot be interpreted as a date"@
}

pub open spec fn not_an_integer_text(arg: Seq<char>) -> Seq<char> {
    "Parse arguments error: \""@ + arg + "\" cannot be interpreted as an integer"@
}

pub open spec fn add_sub_missing_text() -> Seq<char> {
    "Parse arguments error: not enough arguments for \"add\" or \"sub\" function"@
}

pub open spec fn sum_missing_text() -> Seq<char> {
    "Parse arguments error: not enough arguments for \"sum\" function"@
}

fn not_a_date(arg: &String) -> (r: String)
    ensures
        r@ == not_a_date_text(arg@),
{
    let mut s = String::from_str("Parse arguments error: \"");
    s.append(arg.as_str());
    s.append("\" cannot be interpreted as a date");
    s
}

fn parse_date_arg(arg: &String) -> (r: Result<Date, String>)
    ensures
        match r {
            Ok(d) => parse_date(arg@) == Ok::<Ymd, &'static str>(d@),
            Err(e) => parse_date(arg@) is Err && e@ == not_a_date_text(arg@),
        },
{
    let parsed = Date::new_from_string(arg.as_str());
    match parsed {
        Ok(d) => Ok(d),
        Err(_) => Err(not_a_date(arg)),
    }
}

/// Reads a date, an activity and a number of minutes from the first three
/// arguments, in that order; further arguments are ignored.
pub fn parse_add_sub_args(other_args: Vec<String>) -> (r: Result<(Date, String, u16), String>)
    ensures
        other_args@.len() < 3 ==> (r matches Err(e) && e@ == add_sub_missing_text()),
        other_args@.len() >= 3 && parse_date(other_args@[0]@) is Err ==> (r matches Err(e) && e@
            == not_a_date_text(other_args@[0]@)),
        other_args@.len() >= 3 && parse_date(other_args@[0]@) is Ok && u16_of(other_args@[2]@) is None
            ==> (r matches Err(e) && e@ == not_an_integer_text(other_args@[2]@)),
        other_args@.len() >= 3 && parse_date(other_args@[0]@) is Ok && u16_of(other_args@[2]@) is Some
            ==> (r matches Ok(t) && parse_date(other_args@[0]@) == Ok::<Ymd, &'static str>(t.0@)
            && t.1@ == other_args@[1]@ && u16_of(other_args@[2]@) == Some(t.2)),
{
    if other_args.len() < 3 {
        return Err(
            String::from_str("Parse arguments error: not enough arguments for \"add\" or \"sub\" function"),
        );
    }
    let date = parse_date_arg(&other_args[0])?;
    let activity = other_args[1].clone();
    let minutes = match parse_u16(other_args[2].as_str()) {
        Some(m) => m,
        None => {
            let mut s = String::from_str("Parse arguments error: \"");
            s.append(other_args[2].as_str());
            s.append("\" cannot be interpreted as an integer");
            return Err(s);
        },
    };
    Ok((date, activity, minutes))
}

/// Reads the range of a summary: one date for a single day, or a start date
/// and an end date; further arguments are ignored.
pub fn parse_sum_args(other_args: Vec<String>) -> (r: Result<(Date, Date), String>)
    ensures
        other_args@.len() == 0 ==> (r matches Err(e) && e@ == sum_missing_text()),
        other_args@.len() >= 1 && parse_date(other_args@[0]@) is Err ==> (r matches Err(e) && e@
            == not_a_date_text(other_args@[0]@)),
        other_args@.len() == 1 && parse_date(other_args@[0]@) is Ok ==> (r matches Ok(t)
            && parse_date(other_args@[0]@) == Ok::<Ymd, &'static str>(t.0@) && t.1 == t.0),
        other_args@.len() >= 2 && parse_date(other_args@[0]@) is Ok && parse_date(other_args@[1]@) is Err
            ==> (r matches Err(e) && e@ == not_a_date_text(other_args@[1]@)),
        other_args@.len() >= 2 && parse_date(other_args@[0]@) is Ok && parse_date(other_args@[1]@) is Ok
            ==> (r matches Ok(t) && parse_date(other_args@[0]@) == Ok::<Ymd, &'static str>(t.0@)
            && parse_date(other_args@[1]@) == Ok::<Ymd, &'static str>(t.1@)),
{
    if other_args.len() == 0 {
        return Err(String::from_str("Parse arguments error: not enough arguments for \"sum\" function"));
    }
    let start_date = parse_date_arg(&other_args[0])?;
    if other_args.len() == 1 {
        return Ok((start_date, start_date));
    }
    let end_date = parse_date_arg(&other_args[1])?;
    Ok((start_date, end_date))
}

} // verus!
