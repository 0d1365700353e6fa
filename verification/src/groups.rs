//! Taxonomic group names: validation against the fixed library set, splitting
//! a comma-separated request, and the remote-path translation of `human`.
//!
//! Translation only affects where a group is looked up remotely; the local
//! library directory and every metadata key keep the original group name.

use crate::bytestr::{bytes_eq, split_bytes, split_sep, views, COMMA};
use vstd::prelude::*;
use vstd::string::StringSliceAdditionalSpecFns;

verus! {

/// The fixed set of groups the library mirrors.
pub open spec fn is_library_group(s: Seq<u8>) -> bool {
    ||| s == "archaea".spec_bytes()
    ||| s == "bacteria".spec_bytes()
    ||| s == "viral".spec_bytes()
    ||| s == "fungi".spec_bytes()
    ||| s == "plant".spec_bytes()
    ||| s == "human".spec_bytes()
    ||| s == "protozoa".spec_bytes()
}

/// Every comma-separated element of `s` is a library group.
pub open spec fn all_library_groups(s: Seq<u8>) -> bool {
    forall|k: int|
        0 <= k < split_sep(s, COMMA).len() ==> is_library_group(#[trigger] split_sep(s, COMMA)[k])
}

#[derive(Debug, Clone, Copy, PartialEq, Eq, Structural)]
pub enum GroupError {
    NotInLibrary,
}

/// Decides membership in the library group set.
pub fn is_library_group_name(t: &[u8]) -> (r: bool)
    ensures
        r == is_library_group(t@),
{
    bytes_eq(t, "archaea".as_bytes()) || bytes_eq(t, "bacteria".as_bytes()) || bytes_eq(
        t,
        "viral".as_bytes(),
    ) || bytes_eq(t, "fungi".as_bytes()) || bytes_eq(t, "plant".as_bytes()) || bytes_eq(
        t,
        "human".as_bytes(),
    ) || bytes_eq(t, "protozoa".as_bytes())
}

/// Splits a requested group list at commas; segments are kept verbatim.
pub fn parse_comma_separated_list(s: &[u8]) -> (r: Vec<Vec<u8>>)
    ensures
        views(r@) == split_sep(s@, COMMA),
{
    split_bytes(s, COMMA)
}

/// Accepts a comma-separated group request exactly when every element names a
/// library group; a valid request is returned verbatim.
pub fn validate_group(group: &[u8]) -> (r: Result<Vec<u8>, GroupError>)
    ensures
        r is Ok <==> all_library_groups(group@),
        r matches Ok(g) ==> g@ == group@,
{
    let parts = parse_comma_separated_list(group);
    let ghost segs = split_sep(group@, COMMA);
    let mut i: usize = 0;
    while i < parts.len()
        invariant
            i <= parts@.len(),
            views(parts@) == segs,
            segs == split_sep(group@, COMMA),
            forall|k: int| 0 <= k < i ==> is_library_group(#[trigger] segs[k]),
        decreases parts@.len() - i,
    {
        if !is_library_group_name(parts[i].as_slice()) {
            proof {
                assert(segs[i as int] == views(parts@)[i as int]);
            }
            return Err(GroupError::NotInLibrary);
        }
        proof {
            assert(segs[i as int] == views(parts@)[i as int]);
        }
        i += 1;
    }
    Ok(vstd::slice::slice_to_vec(group))
}

/// The name of the group that is translated before remote resolution.
pub open spec fn human_name() -> Seq<u8> {
    "human".spec_bytes()
}

/// The nested vertebrate-mammalian species subpath that `human` resolves to.
pub open spec fn human_remote_subpath() -> Seq<u8> {
    "vertebrate_mammalian/Homo_sapiens".spec_bytes()
}

/// Where a group is resolved under a remote site root: `human` maps to its
/// nested species subpath, every other group to its own name.
pub open spec fn translate_group_spec(g: Seq<u8>) -> Seq<u8> {
    if g == human_name() {
        human_remote_subpath()
    } else {
        g
    }
}

/// Resolves a group name to the remote subpath it is fetched from.  The local
/// library directory for the group is not affected by this translation.
pub fn translate_group(group: &[u8]) -> (r: Vec<u8>)
    ensures
        r@ == translate_group_spec(group@),
{
    if bytes_eq(group, "human".as_bytes()) {
        "vertebrate_mammalian/Homo_sapiens".as_bytes_vec()
    } else {
        vstd::slice::slice_to_vec(group)
    }
}

} // verus!
