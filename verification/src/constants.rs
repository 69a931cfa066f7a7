use vstd::prelude::*;

verus! {

// The IRIs of the custom functions that the expression compiler
// dispatches by full string comparison.

pub open spec fn datetime_as_nanos_iri() -> Seq<char> {
    "https://github.com/DataTreehouse/chrontext#DateTimeAsNanos"@
}

pub open spec fn datetime_as_seconds_iri() -> Seq<char> {
    "https://github.com/DataTreehouse/chrontext#DateTimeAsSeconds"@
}

pub open spec fn nanos_as_datetime_iri() -> Seq<char> {
    "https://github.com/DataTreehouse/chrontext#NanosAsDateTime"@
}

pub open spec fn seconds_as_datetime_iri() -> Seq<char> {
    "https://github.com/DataTreehouse/chrontext#SecondsAsDateTime"@
}

pub open spec fn modulus_iri() -> Seq<char> {
    "https://github.com/DataTreehouse/chrontext#modulus"@
}

pub open spec fn floor_datetime_to_seconds_interval_iri() -> Seq<char> {
    "https://github.com/DataTreehouse/chrontext#FloorDateTimeToSecondsInterval"@
}

pub fn datetime_as_nanos() -> (s: &'static str)
    ensures
        s@ == datetime_as_nanos_iri(),
{
    "https://github.com/DataTreehouse/chrontext#DateTimeAsNanos"
}

pub fn datetime_as_seconds() -> (s: &'static str)
    ensures
        s@ == datetime_as_seconds_iri(),
{
    "https://github.com/DataTreehouse/chrontext#DateTimeAsSeconds"
}

pub fn nanos_as_datetime() -> (s: &'static str)
    ensures
        s@ == nanos_as_datetime_iri(),
{
    "https://github.com/DataTreehouse/chrontext#NanosAsDateTime"
}

pub fn seconds_as_datetime() -> (s: &'static str)
    ensures
        s@ == seconds_as_datetime_iri(),
{
    "https://github.com/DataTreehouse/chrontext#SecondsAsDateTime"
}

pub fn modulus() -> (s: &'static str)
    ensures
        s@ == modulus_iri(),
{
    "https://github.com/DataTreehouse/chrontext#modulus"
}

pub fn floor_datetime_to_seconds_interval() -> (s: &'static str)
    ensures
        s@ == floor_datetime_to_seconds_interval_iri(),
{
    "https://github.com/DataTreehouse/chrontext#FloorDateTimeToSecondsInterval"
}

} // verus!
