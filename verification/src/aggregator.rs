//! The library aggregator: merges a group's verified per-organism files into
//! one consolidated sequence file, in the catalog's lexicographic name
//! order, whatever order their fetches completed in.  Files not verified are
//! skipped and reported, not merged.  Compressed sources are inflated before
//! merging; record boundaries inside the content are not touched.

use crate::bytestr::{
    lemma_sort_of, lemma_sorted_unique, lemma_unique_keys_transfer, sort_by_key, sort_of,
    unique_keys, views, Named,
};
use crate::catalog::DOT;
use vstd::prelude::*;

verus! {

/// The byte `'g'`.
pub const LOWER_G: u8 = 103;

/// The byte `'z'`.
pub const LOWER_Z: u8 = 122;

/// One local file of a group, as the caller read it from the library
/// directory: its catalog name, its raw bytes, and whether its metadata
/// record says it was verified.
pub struct GroupFile {
    pub name: Vec<u8>,
    pub content: Vec<u8>,
    pub verified: bool,
}

impl Named for GroupFile {
    open spec fn key(&self) -> Seq<u8> {
        self.name@
    }

    fn name_bytes(&self) -> &[u8] {
        self.name.as_slice()
    }
}

/// What a gzip stream inflates to: a function of the stream's bytes alone.
pub uninterp spec fn gunzip_of(b: Seq<u8>) -> Seq<u8>;

/// Relies on flate2's GzDecoder: inflating a byte stream depends on the
/// bytes alone; a malformed stream is refused, never misread.
#[verifier::external_body]
fn gunzip(b: &[u8]) -> (r: Option<Vec<u8>>)
    ensures
        r matches Some(v) ==> v@ == gunzip_of(b@),
{
    let mut d = flate2::read::GzDecoder::new(b);
    let mut out = Vec::new();
    match std::io::Read::read_to_end(&mut d, &mut out) {
        Ok(_) => Some(out),
        Err(_) => None,
    }
}

/// A name of the compressed form the archive serves: it ends in `.gz`.
pub open spec fn is_gz(name: Seq<u8>) -> bool {
    name.len() >= 3 && name[name.len() - 3] == DOT && name[name.len() - 2] == LOWER_G
        && name[name.len() - 1] == LOWER_Z
}

fn is_gz_name(name: &[u8]) -> (r: bool)
    ensures
        r == is_gz(name@),
{
    let n = name.len();
    n >= 3 && name[n - 3] == DOT && name[n - 2] == LOWER_G && name[n - 1] == LOWER_Z
}

/// What a file contributes to the consolidated output: its bytes, inflated
/// first when the source is compressed.
pub open spec fn effective_content(f: GroupFile) -> Seq<u8> {
    if is_gz(f.name@) {
        gunzip_of(f.content@)
    } else {
        f.content@
    }
}

/// The verified files, in order.
pub open spec fn included(s: Seq<GroupFile>) -> Seq<GroupFile>
    decreases s.len(),
{
    if s.len() == 0 {
        Seq::empty()
    } else if s[0].verified {
        seq![s[0]] + included(s.skip(1))
    } else {
        included(s.skip(1))
    }
}

/// The files left out, in order.
pub open spec fn excluded(s: Seq<GroupFile>) -> Seq<GroupFile>
    decreases s.len(),
{
    if s.len() == 0 {
        Seq::empty()
    } else if !s[0].verified {
        seq![s[0]] + excluded(s.skip(1))
    } else {
        excluded(s.skip(1))
    }
}

/// The names of a file sequence.
pub open spec fn names_of(s: Seq<GroupFile>) -> Seq<Seq<u8>> {
    s.map_values(|f: GroupFile| f.name@)
}

/// The concatenation of the files' effective contents, in order.
pub open spec fn concat_eff(s: Seq<GroupFile>) -> Seq<u8>
    decreases s.len(),
{
    if s.len() == 0 {
        Seq::empty()
    } else {
        effective_content(s[0]) + concat_eff(s.skip(1))
    }
}

/// The consolidated output a group's files determine: the verified files'
/// effective contents, concatenated in increasing name order.
pub open spec fn aggregate_spec(files: Seq<GroupFile>) -> Seq<u8> {
    concat_eff(included(sort_of(files)))
}

/// Merging does not depend on the order the files arrive in: any two
/// arrangements of the same files, their names pairwise distinct, determine
/// the same consolidated output.
pub proof fn lemma_aggregation_deterministic(files1: Seq<GroupFile>, files2: Seq<GroupFile>)
    requires
        files1.to_multiset() == files2.to_multiset(),
        unique_keys(files1),
    ensures
        aggregate_spec(files1) == aggregate_spec(files2),
{
    lemma_sort_of(files1);
    lemma_sort_of(files2);
    let s1 = sort_of(files1);
    let s2 = sort_of(files2);
    lemma_unique_keys_transfer(files1, s1);
    assert(s1.to_multiset() == s2.to_multiset());
    lemma_sorted_unique(s1, s2);
}

/// A source that should have inflated but did not.
#[derive(Debug, Clone, Copy, PartialEq, Eq, Structural)]
pub enum AggregateError {
    BadCompressedFile,
}

/// The consolidated output and the run's account of it.
pub struct AggregateOutput {
    /// The merged sequence data, regenerated in full.
    pub output: Vec<u8>,
    /// The names merged in, in merge order.
    pub included: Vec<Vec<u8>>,
    /// The names left out for want of verification, in name order.
    pub omitted: Vec<Vec<u8>>,
}

/// Merges a group's files.  The output is a function of the file set alone:
/// the files are put in increasing name order first, the verified ones'
/// effective contents are concatenated, and the unverified ones are only
/// reported.  An error names the one cause this function cannot rule out:
/// a compressed source that would not inflate.
pub fn aggregate(files: Vec<GroupFile>) -> (r: Result<AggregateOutput, AggregateError>)
    requires
        unique_keys(files@),
    ensures
        r matches Ok(o) ==> {
            &&& o.output@ == aggregate_spec(files@)
            &&& views(o.included@) == names_of(included(sort_of(files@)))
            &&& views(o.omitted@) == names_of(excluded(sort_of(files@)))
        },
        r is Err ==> exists|i: int|
            0 <= i < files@.len() && (#[trigger] files@[i]).verified && is_gz(files@[i].name@),
{
    let ghost orig = files@;
    let mut sorted = files;
    sort_by_key(&mut sorted);
    proof {
        lemma_sort_of(orig);
        lemma_unique_keys_transfer(orig, sort_of(orig));
        assert(sorted@.to_multiset() == sort_of(orig).to_multiset());
        lemma_sorted_unique(sort_of(orig), sorted@);
        assert(sorted@ == sort_of(orig));
    }
    let ghost sv = sorted@;
    let mut output: Vec<u8> = Vec::new();
    let mut included_names: Vec<Vec<u8>> = Vec::new();
    let mut omitted_names: Vec<Vec<u8>> = Vec::new();
    let mut rest = sorted;
    let mut i: usize = 0;
    let _n = rest.len();
    proof {
        assert(rest@ =~= sv.skip(0));
        assert(output@ + concat_eff(included(sv)) =~= concat_eff(included(sv)));
        assert(views(included_names@) + names_of(included(sv)) =~= names_of(included(sv)));
        assert(views(omitted_names@) + names_of(excluded(sv)) =~= names_of(excluded(sv)));
    }
    while rest.len() > 0
        invariant
            orig == files@,
            i + rest@.len() == sv.len(),
            sv.len() <= usize::MAX,
            rest@ == sv.skip(i as int),
            sv == sort_of(orig),
            orig.to_multiset() == sv.to_multiset(),
            concat_eff(included(sv)) == output@ + concat_eff(included(sv.skip(i as int))),
            names_of(included(sv)) == views(included_names@) + names_of(
                included(sv.skip(i as int)),
            ),
            names_of(excluded(sv)) == views(omitted_names@) + names_of(
                excluded(sv.skip(i as int)),
            ),
        decreases rest@.len(),
    {
        let f = rest.remove(0);
        proof {
            assert(f == sv.skip(i as int)[0]);
            assert(sv.skip(i as int).skip(1) =~= sv.skip(i as int + 1));
            assert(rest@ =~= sv.skip(i as int + 1));
        }
        if f.verified {
            let piece: Vec<u8> = if is_gz_name(f.name.as_slice()) {
                match gunzip(f.content.as_slice()) {
                    Some(v) => v,
                    None => {
                        proof {
                            broadcast use vstd::seq_lib::group_to_multiset_ensures;

                            assert(sv[i as int] == f);
                            assert(sv.contains(f));
                            assert(orig.to_multiset().count(f) > 0);
                            assert(orig.contains(f));
                            let j = choose|j: int| 0 <= j < orig.len() && orig[j] == f;
                            assert(orig[j].verified && is_gz(orig[j].name@));
                        }
                        return Err(AggregateError::BadCompressedFile);
                    },
                }
            } else {
                f.content
            };
            let ghost pre_out = output@;
            let ghost pre_inc = included_names@;
            let mut piece_m = piece;
            output.append(&mut piece_m);
            included_names.push(f.name);
            proof {
                assert(output@ =~= pre_out + effective_content(sv.skip(i as int)[0]));
                assert(views(included_names@) =~= views(pre_inc).push(f.name@));
                assert(included(sv.skip(i as int)) =~= seq![sv.skip(i as int)[0]] + included(
                    sv.skip(i as int + 1),
                ));
                let inc = included(sv.skip(i as int));
                assert(inc.len() >= 1 && inc[0] == f);
                assert(inc.skip(1) =~= included(sv.skip(i as int + 1)));
                assert(concat_eff(inc) == effective_content(f) + concat_eff(
                    included(sv.skip(i as int + 1)),
                ));
                assert(names_of(inc) =~= seq![f.name@] + names_of(included(sv.skip(i as int + 1))));
                assert(pre_out + (effective_content(sv.skip(i as int)[0]) + concat_eff(
                    included(sv.skip(i as int + 1)),
                )) =~= output@ + concat_eff(included(sv.skip(i as int + 1))));
                assert(views(pre_inc) + (seq![f.name@] + names_of(included(sv.skip(i as int + 1))))
                    =~= views(included_names@) + names_of(included(sv.skip(i as int + 1))));
                assert(names_of(included(sv.skip(i as int))) =~= seq![f.name@] + names_of(
                    included(sv.skip(i as int + 1)),
                ));
                assert(excluded(sv.skip(i as int)) == excluded(sv.skip(i as int + 1)));
            }
        } else {
            let ghost pre_om = omitted_names@;
            omitted_names.push(f.name);
            proof {
                assert(views(omitted_names@) =~= views(pre_om).push(f.name@));
                assert(excluded(sv.skip(i as int)) =~= seq![sv.skip(i as int)[0]] + excluded(
                    sv.skip(i as int + 1),
                ));
                let exc = excluded(sv.skip(i as int));
                assert(exc.len() >= 1 && exc[0] == f);
                assert(exc.skip(1) =~= excluded(sv.skip(i as int + 1)));
                assert(names_of(excluded(sv.skip(i as int))) =~= seq![f.name@] + names_of(
                    excluded(sv.skip(i as int + 1)),
                ));
                assert(views(pre_om) + (seq![f.name@] + names_of(excluded(sv.skip(i as int + 1))))
                    =~= views(omitted_names@) + names_of(excluded(sv.skip(i as int + 1))));
                assert(included(sv.skip(i as int)) == included(sv.skip(i as int + 1)));
            }
        }
        i += 1;
    }
    proof {
        assert(sv.skip(i as int) =~= Seq::<GroupFile>::empty());
        assert(output@ + concat_eff(included(sv.skip(i as int))) =~= output@);
        assert(views(included_names@) + names_of(included(sv.skip(i as int))) =~= views(
            included_names@,
        ));
        assert(views(omitted_names@) + names_of(excluded(sv.skip(i as int))) =~= views(
            omitted_names@,
        ));
    }
    Ok(AggregateOutput { output, included: included_names, omitted: omitted_names })
}

} // verus!
