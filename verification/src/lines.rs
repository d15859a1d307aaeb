//! Reading ranges from lines of text, one range per line.

use vstd::prelude::*;

verus! {

use crate::block::wf_block;
use crate::range::Range;
use crate::range_interest::RangeInterest;
use crate::std_range::{range_text_block, range_text_parseable, IpRange, RangeParseError};

/// Whether a line holds a valid range text.
pub open spec fn line_ok(l: Seq<char>) -> bool {
    range_text_parseable(l) && wf_block(range_text_block(l))
}

/// Parse one range per line and push each onto `ranges` with the given
/// flag.  Stops at the first bad line with its parse error, leaving the
/// ranges of the lines before it appended.
pub fn parse_single_line_ranges(
    lines: &Vec<String>,
    ranges: &mut Vec<RangeInterest<IpRange>>,
    interesting: bool,
) -> (r: Result<(), RangeParseError>)
    ensures
        (r is Ok) == (forall|i: int| 0 <= i < lines@.len() ==> line_ok(#[trigger] lines@[i]@)),
        final(ranges)@.len() >= old(ranges)@.len(),
        forall|j: int|
            0 <= j < old(ranges)@.len() ==> #[trigger] final(ranges)@[j] == old(ranges)@[j],
        forall|j: int|
            old(ranges)@.len() <= j < final(ranges)@.len() ==> {
                let e = #[trigger] final(ranges)@[j];
                let l = lines@[j - old(ranges)@.len()]@;
                e.ok() && e.sel() == interesting && e.blk() == range_text_block(l) && line_ok(l)
            },
        r is Ok ==> final(ranges)@.len() == old(ranges)@.len() + lines@.len(),
        !(r is Ok) ==> {
            let k = final(ranges)@.len() - old(ranges)@.len();
            0 <= k < lines@.len() && !line_ok(lines@[k]@)
        },
{
    let ghost s0 = old(ranges)@;
    let n = lines.len();
    let mut i: usize = 0;
    while i < n
        invariant
            s0 == old(ranges)@,
            i <= n == lines@.len(),
            ranges@.len() == s0.len() + i,
            forall|j: int| 0 <= j < s0.len() ==> #[trigger] ranges@[j] == s0[j],
            forall|j: int|
                s0.len() <= j < ranges@.len() ==> {
                    let e = #[trigger] ranges@[j];
                    let l = lines@[j - s0.len()]@;
                    e.ok() && e.sel() == interesting && e.blk() == range_text_block(l) && line_ok(
                        l,
                    )
                },
            forall|j: int| 0 <= j < i ==> line_ok(#[trigger] lines@[j]@),
        decreases n - i,
    {
        let line: &String = &lines[i];
        match IpRange::from_text(line.as_str()) {
            Ok(rg) => {
                ranges.push(RangeInterest::new(rg, interesting));
                proof {
                    rg.lemma_inv();
                }
            },
            Err(e) => {
                return Err(e);
            },
        }
        i += 1;
    }
    Ok(())
}

} // verus!
