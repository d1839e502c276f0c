use vstd::prelude::*;

verus! {

/// The instant an RFC 3339 text denotes, in nanoseconds since the Unix
/// epoch, where the text parses at all: parsing depends on the text alone.
pub uninterp spec fn ts_of(s: Seq<char>) -> Option<i128>;

/// Relies on time::OffsetDateTime::parse with the well-known RFC 3339
/// description, and on unix_timestamp_nanos: the result is a function of
/// the text alone.
#[verifier::external_body]
pub fn parse_iso(ts: &str) -> (r: Option<i128>)
    ensures
        r == ts_of(ts@),
{
    time::OffsetDateTime::parse(ts, &time::format_description::well_known::Rfc3339).ok().map(
        |t| t.unix_timestamp_nanos(),
    )
}

} // verus!
