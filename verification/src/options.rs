//! The plain request data of the command-line layer, and the metadata
//! that range sources attach to their ranges.  The command-line front
//! end wraps these types with its argument-parser derives and converts;
//! the filter layer reduces the metadata of each range group to the
//! selected flag before the ranges reach the merge engine.

use vstd::prelude::*;

verus! {

use crate::std_range::IpRange;

/// The cloud services whose published ranges can be fetched and read.
#[derive(Clone, Copy, Debug, PartialEq, Eq, Structural)]
pub enum CloudName {
    Aws,
    Azure,
    Cloudflare,
    Digitalocean,
    Fastly,
    Gcp,
    Github,
    Google,
}

/// A metadata value attached to a range group: the filter layer sees
/// these under the names the range source gave them.
pub enum MetadataValue {
    Boolean(bool),
    Text(String),
    I64(i64),
    Table(Vec<(MetadataValue, MetadataValue)>),
}

/// A group of ranges sharing one set of metadata, as a range source
/// produces them.
pub struct RangesWithMetadata {
    metadata: Vec<(String, MetadataValue)>,
    ranges: Vec<IpRange>,
}

impl RangesWithMetadata {
    /// The metadata of the group.
    pub closed spec fn md(&self) -> Seq<(String, MetadataValue)> {
        self.metadata@
    }

    /// The ranges of the group.
    pub closed spec fn rs(&self) -> Seq<IpRange> {
        self.ranges@
    }

    /// Create a new group.
    pub fn new(metadata: Vec<(String, MetadataValue)>, ranges: Vec<IpRange>) -> (r:
        RangesWithMetadata)
        ensures
            r.md() == metadata@,
            r.rs() == ranges@,
    {
        RangesWithMetadata { metadata, ranges }
    }

    /// Take the group apart.
    pub fn into_parts(self) -> (r: (Vec<(String, MetadataValue)>, Vec<IpRange>))
        ensures
            r.0@ == self.md(),
            r.1@ == self.rs(),
    {
        let RangesWithMetadata { metadata, ranges } = self;
        (metadata, ranges)
    }
}

/// Download the source file that contains the IP ranges the service
/// uses.
#[derive(Clone, Debug)]
pub struct CloudGetOptions {
    /// Cloud service.
    pub service: CloudName,
}

/// Load IP ranges for the service from a file, merge, and output.
#[derive(Clone, Debug)]
pub struct CloudMergeOptions {
    /// Cloud service.
    pub service: CloudName,
    /// File to load the IP ranges from; standard input if "-".
    pub file: String,
    /// Filter program to limit the ranges read.
    pub filter: Option<String>,
    /// Path of a file containing the filter program.
    pub filter_file: Option<String>,
    /// Filter program to select the ranges of interest.
    pub select: Option<String>,
    /// Path of a file containing the select program.
    pub select_file: Option<String>,
    /// Files of extra ranges that may help minimize the set.
    pub extra_ranges_files: Vec<String>,
    /// A minimum IPv4 network size; smaller ranges are widened to it.
    pub min_ipv4_network_size: Option<u8>,
    /// A minimum IPv6 network size; smaller ranges are widened to it.
    pub min_ipv6_network_size: Option<u8>,
}

/// Download IP ranges for the service, merge, and output.
#[derive(Clone, Debug)]
pub struct CloudGetMergeOptions {
    /// Cloud service.
    pub service: CloudName,
    /// Filter program to limit the ranges read.
    pub filter: Option<String>,
    /// Path of a file containing the filter program.
    pub filter_file: Option<String>,
    /// Filter program to select the ranges of interest.
    pub select: Option<String>,
    /// Path of a file containing the select program.
    pub select_file: Option<String>,
    /// Files of extra ranges that may help minimize the set.
    pub extra_ranges_files: Vec<String>,
    /// A minimum IPv4 network size; smaller ranges are widened to it.
    pub min_ipv4_network_size: Option<u8>,
    /// A minimum IPv6 network size; smaller ranges are widened to it.
    pub min_ipv6_network_size: Option<u8>,
}

/// Load IP ranges for the service from a file and print them.
#[derive(Clone, Debug)]
pub struct CloudReadOptions {
    /// Cloud service.
    pub service: CloudName,
    /// File to load the IP ranges from; standard input if "-".
    pub file: String,
    /// Filter program to limit the ranges read.
    pub filter: Option<String>,
    /// Path of a file containing the filter program.
    pub filter_file: Option<String>,
}

/// Download IP ranges for the service and print them.
#[derive(Clone, Debug)]
pub struct CloudGetReadOptions {
    /// Cloud service.
    pub service: CloudName,
    /// Filter program to limit the ranges read.
    pub filter: Option<String>,
    /// Path of a file containing the filter program.
    pub filter_file: Option<String>,
}

/// Print the filter parameters a service's metadata offers.
#[derive(Clone, Debug)]
pub struct CloudFilterHelpOptions {
    /// Cloud service.
    pub service: CloudName,
}

/// Merge IP ranges read line by line, and print the minimized set.
#[derive(Clone, Debug)]
pub struct MergeOptions {
    /// The file to read ranges from; standard input if "-".
    pub file: String,
    /// Files of extra ranges that may help minimize the set.
    pub extra_ranges_files: Vec<String>,
    /// A minimum IPv4 network size; smaller ranges are widened to it.
    pub min_ipv4_network_size: Option<u8>,
    /// A minimum IPv6 network size; smaller ranges are widened to it.
    pub min_ipv6_network_size: Option<u8>,
}

} // verus!
