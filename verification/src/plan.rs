//! The plan of a run: which groups are worked on, in which order, under
//! which remote subpath and which local name.  The caller walks the jobs one
//! group at a time, each group's scheduler run finishing, flush included,
//! before the next starts.

use crate::bytestr::{split_sep, views, COMMA};
use crate::groups::{
    all_library_groups, parse_comma_separated_list, translate_group, translate_group_spec,
    GroupError,
};
use vstd::prelude::*;
use vstd::string::StringSliceAdditionalSpecFns;

verus! {

/// One of the two alternate archive roots.  A site only selects where
/// remote paths resolve; it never changes what the files mean.
#[derive(Debug, Clone, Copy, PartialEq, Eq, Structural)]
pub enum Site {
    Genbank,
    Refseq,
}

/// The path segment a site stands for under the archive.
pub open spec fn site_name_spec(s: Site) -> Seq<u8> {
    match s {
        Site::Genbank => "genbank".spec_bytes(),
        Site::Refseq => "refseq".spec_bytes(),
    }
}

impl Site {
    /// The site's name, as it appears in remote paths, local directories
    /// and metadata keys.
    pub fn name(&self) -> (r: Vec<u8>)
        ensures
            r@ == site_name_spec(*self),
    {
        match self {
            Site::Genbank => "genbank".as_bytes_vec(),
            Site::Refseq => "refseq".as_bytes_vec(),
        }
    }
}

/// What is done for each group of a run.
#[derive(Debug, Clone, Copy, PartialEq, Eq, Structural)]
pub enum Mode {
    /// Catalog, download and verify: the default.
    Acquire,
    /// Catalog and checksum confirmation only, no aggregation.
    VerifyOnly,
    /// Merge what the metadata document already calls verified; no fetching.
    Aggregate,
}

/// One group's job.  The local name keys the metadata document and names the
/// library directory; only the remote subpath is translated.
pub struct GroupJob {
    pub local_name: Vec<u8>,
    pub remote_subpath: Vec<u8>,
}

/// Turns a comma-separated group request into the ordered jobs of a run.
/// The request is accepted exactly when every element names a library group;
/// each job keeps the requested name for the local side and resolves the
/// remote side through the group translation.
pub fn plan_groups(group_list: &[u8]) -> (r: Result<Vec<GroupJob>, GroupError>)
    ensures
        r is Ok <==> all_library_groups(group_list@),
        r matches Ok(jobs) ==> {
            let segs = split_sep(group_list@, COMMA);
            &&& jobs@.len() == segs.len()
            &&& forall|k: int|
                0 <= k < segs.len() ==> (#[trigger] jobs@[k]).local_name@ == segs[k]
                    && jobs@[k].remote_subpath@ == translate_group_spec(segs[k])
        },
{
    if crate::groups::validate_group(group_list).is_err() {
        return Err(GroupError::NotInLibrary);
    }
    let parts = parse_comma_separated_list(group_list);
    let ghost segs = split_sep(group_list@, COMMA);
    let mut jobs: Vec<GroupJob> = Vec::new();
    let mut i: usize = 0;
    while i < parts.len()
        invariant
            i <= parts@.len(),
            views(parts@) == segs,
            segs == split_sep(group_list@, COMMA),
            jobs@.len() == i,
            forall|k: int|
                0 <= k < i ==> (#[trigger] jobs@[k]).local_name@ == segs[k]
                    && jobs@[k].remote_subpath@ == translate_group_spec(segs[k]),
        decreases parts@.len() - i,
    {
        let part = parts[i].as_slice();
        proof {
            assert(part@ == views(parts@)[i as int]);
        }
        let remote_subpath = translate_group(part);
        let local_name = vstd::slice::slice_to_vec(part);
        jobs.push(GroupJob { local_name, remote_subpath });
        i += 1;
    }
    Ok(jobs)
}

} // verus!
