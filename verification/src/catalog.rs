//! The remote catalog: what a site publishes for one group, parsed from the
//! archive's file listing and its checksum manifest.
//!
//! A listing line holds a file name, optionally followed by a tab and a
//! decimal size.  A checksum line holds a digest, spaces, and the file's
//! relative path (an optional `./` prefix is dropped).  A listed file absent
//! from the checksum manifest gets an empty expected digest and is treated as
//! unverifiable by the scheduler.  The catalog is strictly ordered by name,
//! so every later merge is deterministic.

use crate::bytestr::{
    bytes_eq, lemma_sorted_unique_strict, lemma_unique_keys_transfer, split_bytes, split_sep,
    strictly_sorted, unique_keys, views, Named, NEWLINE, SPACE, TAB,
};
use crate::numfmt::{all_digits, dec_val, parse_u64};
use vstd::prelude::*;
use vstd::string::StringSliceAdditionalSpecFns;

verus! {

/// The byte `'/'`.
pub const SLASH: u8 = 47;

/// The byte `'.'`.
pub const DOT: u8 = 46;

/// One remote file of a group's catalog snapshot.
pub struct RemoteEntry {
    /// The per-organism file name, unique within a snapshot.
    pub name: Vec<u8>,
    /// The subpath under the site root: group path, slash, name.
    pub remote_path: Vec<u8>,
    /// The size the listing announced, where it announced one.
    pub expected_size: Option<u64>,
    /// The published digest in hex, or empty when the checksum manifest does
    /// not cover this file.
    pub expected_digest: Vec<u8>,
}

impl Named for RemoteEntry {
    open spec fn key(&self) -> Seq<u8> {
        self.name@
    }

    fn name_bytes(&self) -> &[u8] {
        self.name.as_slice()
    }
}

/// One line of the checksum manifest, parsed.
pub struct ChecksumEntry {
    pub path: Vec<u8>,
    pub digest: Vec<u8>,
}

/// The (path, digest) views of parsed checksum lines.
pub open spec fn cs_models(s: Seq<ChecksumEntry>) -> Seq<(Seq<u8>, Seq<u8>)> {
    s.map_values(|e: ChecksumEntry| (e.path@, e.digest@))
}

/// The length of the prefix of `s` before the first `sep`.
pub open spec fn prefix_len(s: Seq<u8>, sep: u8) -> int
    decreases s.len(),
{
    if s.len() == 0 {
        0
    } else if s[0] == sep {
        0
    } else {
        1 + prefix_len(s.skip(1), sep)
    }
}

pub proof fn lemma_prefix_len_bound(s: Seq<u8>, sep: u8)
    ensures
        0 <= prefix_len(s, sep) <= s.len(),
    decreases s.len(),
{
    if s.len() > 0 && s[0] != sep {
        lemma_prefix_len_bound(s.skip(1), sep);
    }
}

/// Scans for the first `sep`, mirroring `prefix_len`.
pub fn scan_prefix(s: &[u8], sep: u8) -> (j: usize)
    ensures
        j == prefix_len(s@, sep),
        j <= s@.len(),
    decreases s@.len(),
{
    if s.len() == 0 {
        0
    } else if s[0] == sep {
        0
    } else {
        let t = vstd::slice::slice_subrange(s, 1, s.len());
        proof {
            assert(t@ =~= s@.skip(1));
        }
        1 + scan_prefix(t, sep)
    }
}

/// What is left after leading spaces.
pub open spec fn after_spaces(s: Seq<u8>) -> Seq<u8>
    decreases s.len(),
{
    if s.len() > 0 && s[0] == SPACE {
        after_spaces(s.skip(1))
    } else {
        s
    }
}

/// Drops leading spaces, mirroring `after_spaces`.
pub fn skip_spaces(s: &[u8]) -> (r: &[u8])
    ensures
        r@ == after_spaces(s@),
    decreases s@.len(),
{
    if s.len() > 0 && s[0] == SPACE {
        let t = vstd::slice::slice_subrange(s, 1, s.len());
        proof {
            assert(t@ =~= s@.skip(1));
        }
        skip_spaces(t)
    } else {
        s
    }
}

/// Drops a leading `./`, the way archive checksum manifests write paths.
pub open spec fn strip_dot_slash(s: Seq<u8>) -> Seq<u8> {
    if s.len() >= 2 && s[0] == DOT && s[1] == SLASH {
        s.skip(2)
    } else {
        s
    }
}

fn strip_dot_slash_bytes(s: &[u8]) -> (r: &[u8])
    ensures
        r@ == strip_dot_slash(s@),
{
    if s.len() >= 2 && s[0] == DOT && s[1] == SLASH {
        let t = vstd::slice::slice_subrange(s, 2, s.len());
        proof {
            assert(t@ =~= s@.skip(2));
        }
        t
    } else {
        s
    }
}

/// The digest a checksum line publishes.
pub open spec fn cl_digest(l: Seq<u8>) -> Seq<u8> {
    l.take(prefix_len(l, SPACE))
}

/// The path a checksum line covers.
pub open spec fn cl_path(l: Seq<u8>) -> Seq<u8> {
    strip_dot_slash(after_spaces(l.skip(prefix_len(l, SPACE))))
}

/// The (path, digest) pairs of a checksum manifest, empty lines skipped.
pub open spec fn checksum_pairs(lines: Seq<Seq<u8>>) -> Seq<(Seq<u8>, Seq<u8>)>
    decreases lines.len(),
{
    if lines.len() == 0 {
        Seq::empty()
    } else if lines[0].len() > 0 {
        seq![(cl_path(lines[0]), cl_digest(lines[0]))].add(checksum_pairs(lines.skip(1)))
    } else {
        checksum_pairs(lines.skip(1))
    }
}

/// The digest published for `name`, or empty when no line covers it.
pub open spec fn lookup_digest(pairs: Seq<(Seq<u8>, Seq<u8>)>, name: Seq<u8>) -> Seq<u8>
    decreases pairs.len(),
{
    if pairs.len() == 0 {
        Seq::empty()
    } else if pairs[0].0 == name {
        pairs[0].1
    } else {
        lookup_digest(pairs.skip(1), name)
    }
}

/// Parses the checksum manifest into its (path, digest) entries.
pub fn parse_checksums(checksums: &[u8]) -> (r: Vec<ChecksumEntry>)
    ensures
        cs_models(r@) == checksum_pairs(split_sep(checksums@, NEWLINE)),
{
    let lines = split_bytes(checksums, NEWLINE);
    let ghost lv = views(lines@);
    let mut r: Vec<ChecksumEntry> = Vec::new();
    let mut i: usize = 0;
    proof {
        assert(lv.skip(0) =~= lv);
        assert(cs_models(r@) + checksum_pairs(lv) =~= checksum_pairs(lv));
    }
    while i < lines.len()
        invariant
            i <= lines@.len(),
            lv == views(lines@),
            checksum_pairs(lv) == cs_models(r@) + checksum_pairs(lv.skip(i as int)),
        decreases lines@.len() - i,
    {
        let line = lines[i].as_slice();
        proof {
            assert(lv.skip(i as int)[0] == line@);
            assert(lv.skip(i as int).skip(1) =~= lv.skip(i as int + 1));
        }
        if line.len() > 0 {
            let j = scan_prefix(line, SPACE);
            let digest = vstd::slice::slice_to_vec(vstd::slice::slice_subrange(line, 0, j));
            let rest = vstd::slice::slice_subrange(line, j, line.len());
            proof {
                assert(digest@ =~= line@.take(prefix_len(line@, SPACE)));
                assert(rest@ =~= line@.skip(prefix_len(line@, SPACE)));
            }
            let path = vstd::slice::slice_to_vec(strip_dot_slash_bytes(skip_spaces(rest)));
            r.push(ChecksumEntry { path, digest });
            proof {
                assert(cs_models(r@) =~= cs_models(r@.drop_last()) + seq![
                    (cl_path(line@), cl_digest(line@)),
                ]);
                assert(cs_models(r@) + checksum_pairs(lv.skip(i as int + 1))
                    =~= cs_models(r@.drop_last()) + checksum_pairs(lv.skip(i as int)));
            }
        }
        i += 1;
    }
    proof {
        assert(lv.skip(i as int) =~= Seq::<Seq<u8>>::empty());
        assert(cs_models(r@) + checksum_pairs(lv.skip(i as int)) =~= cs_models(r@));
    }
    r
}

/// Finds the digest published for `name`.
fn find_digest(cs: &Vec<ChecksumEntry>, name: &[u8]) -> (r: Vec<u8>)
    ensures
        r@ == lookup_digest(cs_models(cs@), name@),
{
    let ghost models = cs_models(cs@);
    let mut k: usize = 0;
    proof {
        assert(models.skip(0) =~= models);
    }
    while k < cs.len()
        invariant
            k <= cs@.len(),
            models == cs_models(cs@),
            lookup_digest(models, name@) == lookup_digest(models.skip(k as int), name@),
        decreases cs@.len() - k,
    {
        proof {
            assert(models.skip(k as int)[0] == (cs@[k as int].path@, cs@[k as int].digest@));
            assert(models.skip(k as int).skip(1) =~= models.skip(k as int + 1));
        }
        if bytes_eq(cs[k].path.as_slice(), name) {
            return vstd::slice::slice_to_vec(cs[k].digest.as_slice());
        }
        k += 1;
    }
    proof {
        assert(models.skip(k as int) =~= Seq::<(Seq<u8>, Seq<u8>)>::empty());
    }
    Vec::new()
}

/// The name a listing line announces.
pub open spec fn line_name(l: Seq<u8>) -> Seq<u8> {
    l.take(prefix_len(l, TAB))
}

/// The size a listing line announces after a tab, where it is a decimal
/// number that fits.
pub open spec fn line_size(l: Seq<u8>) -> Option<u64> {
    if prefix_len(l, TAB) < l.len() {
        let t = l.skip(prefix_len(l, TAB) + 1);
        if t.len() > 0 && all_digits(t) && dec_val(t) <= u64::MAX {
            Some(dec_val(t) as u64)
        } else {
            None
        }
    } else {
        None
    }
}

/// Whether a listing line announces `nm`: its name part must be nonempty.
pub open spec fn lists_name(l: Seq<u8>, nm: Seq<u8>) -> bool {
    line_name(l).len() > 0 && line_name(l) == nm
}

/// Whether any listing line announces `nm`.
pub open spec fn listed(lines: Seq<Seq<u8>>, nm: Seq<u8>) -> bool {
    exists|k: int| 0 <= k < lines.len() && lists_name(#[trigger] lines[k], nm)
}

/// The size announced by the first listing line for `nm`.
pub open spec fn listed_size(lines: Seq<Seq<u8>>, nm: Seq<u8>) -> Option<u64>
    decreases lines.len(),
{
    if lines.len() == 0 {
        None
    } else if lists_name(lines[0], nm) {
        line_size(lines[0])
    } else {
        listed_size(lines.skip(1), nm)
    }
}

/// The first listing line for `nm` settles its recorded size.
proof fn lemma_first_listing(lines: Seq<Seq<u8>>, nm: Seq<u8>, i: int)
    requires
        0 <= i < lines.len(),
        lists_name(lines[i], nm),
        forall|k: int| 0 <= k < i ==> !lists_name(#[trigger] lines[k], nm),
    ensures
        listed_size(lines, nm) == line_size(lines[i]),
    decreases i,
{
    if i == 0 {
    } else {
        assert(!lists_name(lines[0], nm));
        assert(lines.skip(1)[i - 1] == lines[i]);
        assert forall|k: int| 0 <= k < i - 1 implies !lists_name(#[trigger] lines.skip(1)[k], nm) by {
            assert(lines.skip(1)[k] == lines[k + 1]);
        }
        lemma_first_listing(lines.skip(1), nm, i - 1);
    }
}

/// One entry of the catalog, tied to what the two manifests say about its
/// name.
pub open spec fn entry_matches(
    e: RemoteEntry,
    lines: Seq<Seq<u8>>,
    pairs: Seq<(Seq<u8>, Seq<u8>)>,
    group_path: Seq<u8>,
) -> bool {
    &&& e.name@.len() > 0
    &&& listed(lines, e.name@)
    &&& e.remote_path@ == group_path + seq![SLASH] + e.name@
    &&& e.expected_size == listed_size(lines, e.name@)
    &&& e.expected_digest@ == lookup_digest(pairs, e.name@)
}

/// Whether some catalog entry carries `nm`.
pub open spec fn catalog_has_name(s: Seq<RemoteEntry>, nm: Seq<u8>) -> bool {
    exists|t: int| 0 <= t < s.len() && (#[trigger] s[t]).name@ == nm
}

fn has_name(r: &Vec<RemoteEntry>, name: &[u8]) -> (b: bool)
    ensures
        b == catalog_has_name(r@, name@),
{
    let mut t: usize = 0;
    while t < r.len()
        invariant
            t <= r@.len(),
            forall|u: int| 0 <= u < t ==> (#[trigger] r@[u]).name@ != name@,
        decreases r@.len() - t,
    {
        if bytes_eq(r[t].name.as_slice(), name) {
            return true;
        }
        t += 1;
    }
    false
}

fn join_path(group_path: &[u8], name: &[u8]) -> (r: Vec<u8>)
    ensures
        r@ == group_path@ + seq![SLASH] + name@,
{
    let mut r = vstd::slice::slice_to_vec(group_path);
    r.push(SLASH);
    let mut n = vstd::slice::slice_to_vec(name);
    r.append(&mut n);
    proof {
        assert(r@ =~= group_path@ + seq![SLASH] + name@);
    }
    r
}

/// Builds the catalog snapshot of one (site, group): every name the listing
/// announces, exactly once, in strictly increasing name order, each entry
/// carrying the remote subpath under `group_path`, the announced size, and
/// the digest the checksum manifest publishes for it.
pub fn list_group(listing: &[u8], checksums: &[u8], group_path: &[u8]) -> (r: Vec<RemoteEntry>)
    ensures
        strictly_sorted(r@),
        forall|t: int|
            0 <= t < r@.len() ==> entry_matches(
                #[trigger] r@[t],
                split_sep(listing@, NEWLINE),
                checksum_pairs(split_sep(checksums@, NEWLINE)),
                group_path@,
            ),
        forall|k: int|
            0 <= k < split_sep(listing@, NEWLINE).len() && line_name(
                #[trigger] split_sep(listing@, NEWLINE)[k],
            ).len() > 0 ==> catalog_has_name(r@, line_name(split_sep(listing@, NEWLINE)[k])),
{
    let cs = parse_checksums(checksums);
    let lines = split_bytes(listing, NEWLINE);
    let ghost lv = views(lines@);
    let ghost pairs = checksum_pairs(split_sep(checksums@, NEWLINE));
    let mut r: Vec<RemoteEntry> = Vec::new();
    let mut i: usize = 0;
    while i < lines.len()
        invariant
            i <= lines@.len(),
            lv == views(lines@),
            lv == split_sep(listing@, NEWLINE),
            pairs == checksum_pairs(split_sep(checksums@, NEWLINE)),
            cs_models(cs@) == pairs,
            unique_keys(r@),
            forall|t: int|
                0 <= t < r@.len() ==> entry_matches(#[trigger] r@[t], lv, pairs, group_path@),
            forall|k: int|
                0 <= k < i && line_name(#[trigger] lv[k]).len() > 0 ==> catalog_has_name(
                    r@,
                    line_name(lv[k]),
                ),
        decreases lines@.len() - i,
    {
        let line = lines[i].as_slice();
        let j = scan_prefix(line, TAB);
        if j > 0 {
            let name = vstd::slice::slice_to_vec(vstd::slice::slice_subrange(line, 0, j));
            proof {
                assert(name@ =~= line_name(line@));
            }
            if !has_name(&r, name.as_slice()) {
                let expected_size: Option<u64> = if j < line.len() {
                    let szs = vstd::slice::slice_subrange(line, j + 1, line.len());
                    proof {
                        assert(szs@ =~= line@.skip(prefix_len(line@, TAB) + 1));
                    }
                    parse_u64(szs)
                } else {
                    None
                };
                let expected_digest = find_digest(&cs, name.as_slice());
                let remote_path = join_path(group_path, name.as_slice());
                let ghost pre = r@;
                proof {
                    assert forall|k: int| 0 <= k < i implies !lists_name(#[trigger] lv[k], name@) by {
                        if lv[k].len() > 0 && line_name(lv[k]) == name@ {
                            assert(catalog_has_name(pre, line_name(lv[k])));
                        }
                    }
                    lemma_first_listing(lv, name@, i as int);
                }
                r.push(RemoteEntry { name, remote_path, expected_size, expected_digest });
                proof {
                    assert(r@[r@.len() - 1].name@ == line_name(lv[i as int]));
                    assert(lists_name(lv[i as int], r@[r@.len() - 1].name@));
                    assert(entry_matches(r@[r@.len() - 1], lv, pairs, group_path@));
                    assert forall|t: int| 0 <= t < r@.len() implies entry_matches(
                        #[trigger] r@[t],
                        lv,
                        pairs,
                        group_path@,
                    ) by {
                        if t < r@.len() - 1 {
                            assert(r@[t] == pre[t]);
                        }
                    }
                    assert forall|t1: int, t2: int| 0 <= t1 < t2 < r@.len() implies (
                    #[trigger] r@[t1]).key() != (#[trigger] r@[t2]).key() by {
                        if t2 == r@.len() - 1 {
                            assert(!catalog_has_name(pre, name@));
                            assert(pre[t1].name@ != name@);
                        } else {
                            assert(r@[t1] == pre[t1] && r@[t2] == pre[t2]);
                        }
                    }
                    assert forall|k: int| 0 <= k <= i && line_name(#[trigger] lv[k]).len() > 0
                        implies catalog_has_name(r@, line_name(lv[k])) by {
                        if k < i {
                            assert(catalog_has_name(pre, line_name(lv[k])));
                            let t = choose|t: int|
                                0 <= t < pre.len() && (#[trigger] pre[t]).name@ == line_name(lv[k]);
                            assert(r@[t].name@ == line_name(lv[k]));
                        } else {
                            assert(r@[r@.len() - 1].name@ == line_name(lv[k]));
                        }
                    }
                }
            } else {
                proof {
                    assert(catalog_has_name(r@, line_name(lv[i as int])));
                }
            }
        }
        i += 1;
    }
    let ghost pre_sort = r@;
    crate::bytestr::sort_by_key(&mut r);
    proof {
        broadcast use vstd::seq_lib::group_to_multiset_ensures;

        lemma_unique_keys_transfer(pre_sort, r@);
        lemma_sorted_unique_strict(r@);
        assert forall|t: int| 0 <= t < r@.len() implies entry_matches(
            #[trigger] r@[t],
            lv,
            pairs,
            group_path@,
        ) by {
            assert(r@.contains(r@[t]));
            assert(pre_sort.to_multiset().count(r@[t]) > 0);
            assert(pre_sort.contains(r@[t]));
            let u = choose|u: int| 0 <= u < pre_sort.len() && pre_sort[u] == r@[t];
            assert(entry_matches(pre_sort[u], lv, pairs, group_path@));
        }
        assert forall|k: int|
            0 <= k < lv.len() && line_name(#[trigger] lv[k]).len() > 0 implies catalog_has_name(
            r@,
            line_name(lv[k]),
        ) by {
            assert(catalog_has_name(pre_sort, line_name(lv[k])));
            let t = choose|t: int|
                0 <= t < pre_sort.len() && (#[trigger] pre_sort[t]).name@ == line_name(lv[k]);
            assert(pre_sort.contains(pre_sort[t]));
            assert(r@.to_multiset().count(pre_sort[t]) > 0);
            assert(r@.contains(pre_sort[t]));
            let u = choose|u: int| 0 <= u < r@.len() && r@[u] == pre_sort[t];
            assert(r@[u].name@ == line_name(lv[k]));
        }
    }
    r
}

/// The taxonomy dump: the one entry the taxonomy fetch works on.  The same
/// interface shape as a group's catalog, with no per-group fan-out; the
/// digest comes from the site's checksum manifest for the dump directory.
pub fn list_taxonomy(checksums: &[u8]) -> (r: Vec<RemoteEntry>)
    ensures
        r@.len() == 1,
        r@[0].name@ == "taxdump.tar.gz".spec_bytes(),
        r@[0].remote_path@ == "taxonomy/taxdump.tar.gz".spec_bytes(),
        r@[0].expected_size is None,
        r@[0].expected_digest@ == lookup_digest(
            checksum_pairs(split_sep(checksums@, NEWLINE)),
            "taxdump.tar.gz".spec_bytes(),
        ),
{
    let cs = parse_checksums(checksums);
    let name = "taxdump.tar.gz".as_bytes_vec();
    let expected_digest = find_digest(&cs, name.as_slice());
    let remote_path = "taxonomy/taxdump.tar.gz".as_bytes_vec();
    let mut r: Vec<RemoteEntry> = Vec::new();
    r.push(RemoteEntry { name, remote_path, expected_size: None, expected_digest });
    r
}

} // verus!
