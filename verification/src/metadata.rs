//! The metadata document: the persisted record of what has been fetched and
//! verified, keyed by (site, group, remote path).  It is the single source of
//! truth for "is this file already correctly downloaded", and it outlives
//! individual runs.
//!
//! The document serializes to a line-per-record text form; parsing it back is
//! proved to give the document back.  An unparsable document is reported as
//! corrupt, and the caller falls back to an empty one.

use crate::bytestr::{bytes_eq, lemma_split_append, lemma_split_no_sep, lemma_split_sep_free,
    lemma_split_sep_no_other, lemma_split_sep_pos, split_bytes, split_sep, views, NEWLINE, TAB};
use crate::numfmt::{all_digits, dec_digits, dec_val, format_u64, lemma_dec_round_trip, parse_u64};
use vstd::prelude::*;

verus! {

#[derive(Debug, Clone, Copy, PartialEq, Eq, Structural)]
pub enum FileState {
    /// Known remotely, nothing done yet.
    Pending,
    /// A fetch is under way.
    Fetching,
    /// Fetched, and the content matched the published digest.
    Verified,
    /// Fetched, but the archive published no digest to hold it to.
    Fetched,
    /// Fetched, and the content did not match the published digest.
    Mismatched,
    /// Given up after the attempt ceiling.
    Failed,
}

/// One record of the document.  An empty `last_digest` means none has been
/// recorded yet.
pub struct MetaRecord {
    pub site: Vec<u8>,
    pub group: Vec<u8>,
    pub remote_path: Vec<u8>,
    pub state: FileState,
    pub last_digest: Vec<u8>,
    pub attempts: u64,
}

/// The ghost shape of a record: every field as a plain value.
pub type RecModel = (Seq<u8>, Seq<u8>, Seq<u8>, FileState, Seq<u8>, u64);

pub open spec fn rec_model(r: MetaRecord) -> RecModel {
    (r.site@, r.group@, r.remote_path@, r.state, r.last_digest@, r.attempts)
}

pub open spec fn rec_models(rs: Seq<MetaRecord>) -> Seq<RecModel> {
    rs.map_values(|r: MetaRecord| rec_model(r))
}

/// The key a record is filed under.
pub open spec fn rec_key(r: MetaRecord) -> (Seq<u8>, Seq<u8>, Seq<u8>) {
    (r.site@, r.group@, r.remote_path@)
}

pub open spec fn model_key(m: RecModel) -> (Seq<u8>, Seq<u8>, Seq<u8>) {
    (m.0, m.1, m.2)
}

/// A byte string that may stand as a field of the serialized form.
pub open spec fn field_ok(s: Seq<u8>) -> bool {
    !s.contains(TAB) && !s.contains(NEWLINE)
}

/// A record whose textual fields can be serialized and read back.
pub open spec fn rec_ok(r: MetaRecord) -> bool {
    field_ok(r.site@) && field_ok(r.group@) && field_ok(r.remote_path@) && field_ok(r.last_digest@)
}

/// A well-formed document: serializable records, no key filed twice.
pub open spec fn doc_wf(rs: Seq<MetaRecord>) -> bool {
    &&& forall|i: int| 0 <= i < rs.len() ==> rec_ok(#[trigger] rs[i])
    &&& forall|i: int, j: int|
        0 <= i < j < rs.len() ==> rec_key(#[trigger] rs[i]) != rec_key(#[trigger] rs[j])
}

/// The record filed under `k`, scanning from the front.
pub open spec fn find_rec(rs: Seq<MetaRecord>, k: (Seq<u8>, Seq<u8>, Seq<u8>)) -> Option<MetaRecord>
    decreases rs.len(),
{
    if rs.len() == 0 {
        None
    } else if rec_key(rs[0]) == k {
        Some(rs[0])
    } else {
        find_rec(rs.skip(1), k)
    }
}

/// The persisted download state, as one document.
pub struct MetadataDocument {
    pub records: Vec<MetaRecord>,
}

/// An unreadable persisted document.
#[derive(Debug, Clone, Copy, PartialEq, Eq, Structural)]
pub enum MetadataError {
    Corrupt,
}

fn key_eq(r: &MetaRecord, site: &[u8], group: &[u8], path: &[u8]) -> (b: bool)
    ensures
        b == (rec_key(*r) == (site@, group@, path@)),
{
    let b = bytes_eq(r.site.as_slice(), site) && bytes_eq(r.group.as_slice(), group) && bytes_eq(
        r.remote_path.as_slice(),
        path,
    );
    proof {
        if b {
            assert(rec_key(*r) == (site@, group@, path@));
        }
    }
    b
}

/// When no record among the first `i` is filed under `k`, the search result
/// is decided by the rest.
proof fn lemma_find_skip(rs: Seq<MetaRecord>, k: (Seq<u8>, Seq<u8>, Seq<u8>), i: int)
    requires
        0 <= i <= rs.len(),
        forall|t: int| 0 <= t < i ==> rec_key(#[trigger] rs[t]) != k,
    ensures
        find_rec(rs, k) == find_rec(rs.skip(i), k),
    decreases i,
{
    if i > 0 {
        assert(rec_key(rs[0]) != k);
        assert forall|t: int| 0 <= t < i - 1 implies rec_key(#[trigger] rs.skip(1)[t]) != k by {
            assert(rs.skip(1)[t] == rs[t + 1]);
        }
        lemma_find_skip(rs.skip(1), k, i - 1);
        assert(rs.skip(1).skip(i - 1) =~= rs.skip(i));
        assert(find_rec(rs, k) == find_rec(rs.skip(1), k));
    } else {
        assert(rs.skip(0) =~= rs);
    }
}

impl MetadataDocument {
    /// The empty document a first run, or a corrupt load, starts from.
    pub fn new() -> (d: MetadataDocument)
        ensures
            d.records@.len() == 0,
            doc_wf(d.records@),
    {
        MetadataDocument { records: Vec::new() }
    }

    /// Looks a record up by its key.
    pub fn get(&self, site: &[u8], group: &[u8], path: &[u8]) -> (r: Option<&MetaRecord>)
        ensures
            match r {
                Some(rec) => find_rec(self.records@, (site@, group@, path@)) == Some(*rec),
                None => find_rec(self.records@, (site@, group@, path@)) is None,
            },
    {
        let ghost k = (site@, group@, path@);
        let mut i: usize = 0;
        while i < self.records.len()
            invariant
                i <= self.records@.len(),
                k == (site@, group@, path@),
                forall|t: int| 0 <= t < i ==> rec_key(#[trigger] self.records@[t]) != k,
            decreases self.records@.len() - i,
        {
            if key_eq(&self.records[i], site, group, path) {
                proof {
                    lemma_find_skip(self.records@, k, i as int);
                    assert(self.records@.skip(i as int)[0] == self.records@[i as int]);
                    assert(find_rec(self.records@, k) == Some(self.records@[i as int]));
                }
                return Some(&self.records[i]);
            }
            proof {
                assert(rec_key(self.records@[i as int]) != k);
            }
            i += 1;
        }
        proof {
            lemma_find_skip(self.records@, k, i as int);
            assert(self.records@.skip(i as int) =~= Seq::<MetaRecord>::empty());
        }
        None
    }

    /// Files `rec` under its key, replacing what was there.  Every other key
    /// keeps its record.
    pub fn upsert(&mut self, rec: MetaRecord)
        requires
            doc_wf(old(self).records@),
            rec_ok(rec),
        ensures
            doc_wf(final(self).records@),
            find_rec(final(self).records@, rec_key(rec)) == Some(rec),
            forall|k: (Seq<u8>, Seq<u8>, Seq<u8>)|
                k != rec_key(rec) ==> #[trigger] find_rec(final(self).records@, k) == find_rec(
                    old(self).records@,
                    k,
                ),
    {
        let ghost k = rec_key(rec);
        let ghost pre = self.records@;
        let mut i: usize = 0;
        while i < self.records.len()
            invariant
                i <= self.records@.len(),
                self.records@ == pre,
                pre == old(self).records@,
                doc_wf(pre),
                rec_ok(rec),
                k == rec_key(rec),
                forall|t: int| 0 <= t < i ==> rec_key(#[trigger] pre[t]) != k,
            decreases self.records@.len() - i,
        {
            let hit = key_eq(&self.records[i], rec.site.as_slice(), rec.group.as_slice(),
                rec.remote_path.as_slice());
            proof {
                assert((rec.site@, rec.group@, rec.remote_path@) == k);
                assert(hit == (rec_key(pre[i as int]) == k));
            }
            if hit {
                proof {
                    assert(rec_key(pre[i as int]) == k);
                }
                self.records.set(i, rec);
                proof {
                    let post = self.records@;
                    assert(post =~= pre.update(i as int, rec));
                    assert forall|t1: int, t2: int| 0 <= t1 < t2 < post.len() implies rec_key(
                        #[trigger] post[t1],
                    ) != rec_key(#[trigger] post[t2]) by {
                        assert(rec_key(post[t1]) == rec_key(pre[t1]));
                        assert(rec_key(post[t2]) == rec_key(pre[t2]));
                    }
                    assert forall|t: int| 0 <= t < i as int implies rec_key(#[trigger] post[t])
                        != k by {
                        assert(post[t] == pre[t]);
                    }
                    lemma_find_skip(post, k, i as int);
                    assert(post.skip(i as int)[0] == rec);
                    assert(find_rec(post, k) == Some(rec));
                    assert forall|k2: (Seq<u8>, Seq<u8>, Seq<u8>)| k2 != k implies
                        #[trigger] find_rec(post, k2) == find_rec(pre, k2) by {
                        lemma_find_update_other(pre, i as int, rec, k2);
                    }
                }
                return ;
            }
            i += 1;
        }
        proof {
            assert(forall|t: int| 0 <= t < pre.len() ==> rec_key(#[trigger] pre[t]) != k);
        }
        self.records.push(rec);
        proof {
            let post = self.records@;
            assert(post =~= pre.push(rec));
            assert forall|t1: int, t2: int| 0 <= t1 < t2 < post.len() implies rec_key(
                #[trigger] post[t1],
            ) != rec_key(#[trigger] post[t2]) by {
                if t2 == post.len() - 1 {
                    assert(rec_key(post[t1]) == rec_key(pre[t1]));
                } else {
                    assert(rec_key(post[t1]) == rec_key(pre[t1]));
                    assert(rec_key(post[t2]) == rec_key(pre[t2]));
                }
            }
            assert forall|t: int| 0 <= t < pre.len() implies rec_key(#[trigger] post[t]) != k by {
                assert(post[t] == pre[t]);
            }
            lemma_find_skip(post, k, pre.len() as int);
            assert(post.skip(pre.len() as int)[0] == rec);
            assert(find_rec(post, k) == Some(rec));
            assert forall|k2: (Seq<u8>, Seq<u8>, Seq<u8>)| k2 != k implies #[trigger] find_rec(
                post,
                k2,
            ) == find_rec(pre, k2) by {
                lemma_find_push_other(pre, rec, k2);
            }
        }
    }
}

/// Replacing the record at `i` by one filed under the same key leaves every
/// other key's search result alone.
proof fn lemma_find_update_other(
    rs: Seq<MetaRecord>,
    i: int,
    rec: MetaRecord,
    k2: (Seq<u8>, Seq<u8>, Seq<u8>),
)
    requires
        0 <= i < rs.len(),
        rec_key(rec) == rec_key(rs[i]),
        k2 != rec_key(rec),
    ensures
        find_rec(rs.update(i, rec), k2) == find_rec(rs, k2),
    decreases i,
{
    let post = rs.update(i, rec);
    if i == 0 {
        assert(post[0] == rec);
        assert(rec_key(post[0]) != k2);
        assert(rec_key(rs[0]) != k2);
        assert(post.skip(1) =~= rs.skip(1));
        assert(find_rec(post, k2) == find_rec(post.skip(1), k2));
        assert(find_rec(rs, k2) == find_rec(rs.skip(1), k2));
    } else {
        assert(post[0] == rs[0]);
        if rec_key(rs[0]) != k2 {
            assert(post.skip(1) =~= rs.skip(1).update(i - 1, rec));
            assert(rs.skip(1)[i - 1] == rs[i]);
            lemma_find_update_other(rs.skip(1), i - 1, rec, k2);
            assert(find_rec(post, k2) == find_rec(post.skip(1), k2));
            assert(find_rec(rs, k2) == find_rec(rs.skip(1), k2));
        }
    }
}

/// Filing a fresh record at the end leaves every other key's search result
/// alone.
proof fn lemma_find_push_other(
    rs: Seq<MetaRecord>,
    rec: MetaRecord,
    k2: (Seq<u8>, Seq<u8>, Seq<u8>),
)
    requires
        k2 != rec_key(rec),
    ensures
        find_rec(rs.push(rec), k2) == find_rec(rs, k2),
    decreases rs.len(),
{
    let post = rs.push(rec);
    if rs.len() == 0 {
        assert(post[0] == rec);
        assert(rec_key(post[0]) != k2);
        assert(post.skip(1) =~= Seq::<MetaRecord>::empty());
        assert(find_rec(post, k2) == find_rec(post.skip(1), k2));
    } else {
        assert(post[0] == rs[0]);
        if rec_key(rs[0]) != k2 {
            assert(post.skip(1) =~= rs.skip(1).push(rec));
            lemma_find_push_other(rs.skip(1), rec, k2);
            assert(find_rec(post, k2) == find_rec(post.skip(1), k2));
            assert(find_rec(rs, k2) == find_rec(rs.skip(1), k2));
        }
    }
}

/// The byte that stands for a state in the serialized form.
pub open spec fn state_byte(s: FileState) -> u8 {
    match s {
        FileState::Pending => 112,
        FileState::Fetching => 102,
        FileState::Verified => 118,
        FileState::Fetched => 100,
        FileState::Mismatched => 109,
        FileState::Failed => 120,
    }
}

/// The state a byte stands for, if any.
pub open spec fn byte_state(b: u8) -> Option<FileState> {
    if b == 112 {
        Some(FileState::Pending)
    } else if b == 102 {
        Some(FileState::Fetching)
    } else if b == 118 {
        Some(FileState::Verified)
    } else if b == 100 {
        Some(FileState::Fetched)
    } else if b == 109 {
        Some(FileState::Mismatched)
    } else if b == 120 {
        Some(FileState::Failed)
    } else {
        None
    }
}

fn state_code(s: FileState) -> (b: u8)
    ensures
        b == state_byte(s),
{
    match s {
        FileState::Pending => 112,
        FileState::Fetching => 102,
        FileState::Verified => 118,
        FileState::Fetched => 100,
        FileState::Mismatched => 109,
        FileState::Failed => 120,
    }
}

fn code_state(b: u8) -> (s: Option<FileState>)
    ensures
        s == byte_state(b),
{
    if b == 112 {
        Some(FileState::Pending)
    } else if b == 102 {
        Some(FileState::Fetching)
    } else if b == 118 {
        Some(FileState::Verified)
    } else if b == 100 {
        Some(FileState::Fetched)
    } else if b == 109 {
        Some(FileState::Mismatched)
    } else if b == 120 {
        Some(FileState::Failed)
    } else {
        None
    }
}

/// One record's line, fields joined by tabs, without the closing newline.
pub open spec fn ser_line(m: RecModel) -> Seq<u8> {
    m.0 + seq![TAB] + m.1 + seq![TAB] + m.2 + seq![TAB] + seq![state_byte(m.3)] + seq![TAB] + m.4
        + seq![TAB] + dec_digits(m.5 as nat)
}

/// One record's line, closed by a newline.
pub open spec fn ser_record(m: RecModel) -> Seq<u8> {
    ser_line(m) + seq![NEWLINE]
}

/// The whole document, record lines in order.
pub open spec fn ser_records(ms: Seq<RecModel>) -> Seq<u8>
    decreases ms.len(),
{
    if ms.len() == 0 {
        Seq::empty()
    } else {
        ser_record(ms[0]) + ser_records(ms.skip(1))
    }
}

/// Reading one line back, if it is a record line.
pub open spec fn parse_line(l: Seq<u8>) -> Option<RecModel> {
    let fs = split_sep(l, TAB);
    if fs.len() == 6 && fs[3].len() == 1 && byte_state(fs[3][0]) is Some && fs[5].len() > 0
        && all_digits(fs[5]) && dec_val(fs[5]) <= u64::MAX {
        Some((fs[0], fs[1], fs[2], byte_state(fs[3][0]).unwrap(), fs[4], dec_val(fs[5]) as u64))
    } else {
        None
    }
}

/// Reading lines back; one bad line spoils the document.
pub open spec fn parse_lines(ls: Seq<Seq<u8>>) -> Option<Seq<RecModel>>
    decreases ls.len(),
{
    if ls.len() == 0 {
        Some(Seq::empty())
    } else {
        match parse_line(ls[0]) {
            Option::None => None,
            Option::Some(m) => match parse_lines(ls.skip(1)) {
                Option::None => None,
                Option::Some(ms) => Some(seq![m] + ms),
            },
        }
    }
}

/// No key filed twice, at the model level.
pub open spec fn models_unique(ms: Seq<RecModel>) -> bool {
    forall|i: int, j: int|
        0 <= i < j < ms.len() ==> model_key(#[trigger] ms[i]) != model_key(#[trigger] ms[j])
}

/// What a persisted byte string means: the records, or nothing when the form
/// is corrupt (a missing final newline, a bad line, or a key filed twice).
pub open spec fn parse_doc(b: Seq<u8>) -> Option<Seq<RecModel>> {
    let ls = split_sep(b, NEWLINE);
    if ls.last().len() == 0 {
        match parse_lines(ls.drop_last()) {
            Option::None => None,
            Option::Some(ms) => if models_unique(ms) {
                Some(ms)
            } else {
                None
            },
        }
    } else {
        None
    }
}

impl MetadataDocument {
    /// Writes the document out, one record per line.  The caller persists
    /// the bytes atomically (write to a temporary file, then rename).
    pub fn serialize(&self) -> (r: Vec<u8>)
        ensures
            r@ == ser_records(rec_models(self.records@)),
    {
        let ghost ms = rec_models(self.records@);
        let mut out: Vec<u8> = Vec::new();
        let mut i: usize = 0;
        proof {
            assert(ms.skip(0) =~= ms);
            assert(out@ + ser_records(ms) =~= ser_records(ms));
        }
        while i < self.records.len()
            invariant
                i <= self.records@.len(),
                ms == rec_models(self.records@),
                ser_records(ms) == out@ + ser_records(ms.skip(i as int)),
            decreases self.records@.len() - i,
        {
            let ghost pre = out@;
            let ghost m = ms[i as int];
            let rcd = &self.records[i];
            let mut piece = vstd::slice::slice_to_vec(rcd.site.as_slice());
            out.append(&mut piece);
            out.push(TAB);
            let mut piece = vstd::slice::slice_to_vec(rcd.group.as_slice());
            out.append(&mut piece);
            out.push(TAB);
            let mut piece = vstd::slice::slice_to_vec(rcd.remote_path.as_slice());
            out.append(&mut piece);
            out.push(TAB);
            out.push(state_code(rcd.state));
            out.push(TAB);
            let mut piece = vstd::slice::slice_to_vec(rcd.last_digest.as_slice());
            out.append(&mut piece);
            out.push(TAB);
            let mut piece = format_u64(rcd.attempts);
            out.append(&mut piece);
            out.push(NEWLINE);
            proof {
                assert(m == rec_model(self.records@[i as int]));
                assert(out@ =~= pre + ser_record(m));
                assert(ms.skip(i as int)[0] == m);
                assert(ms.skip(i as int).skip(1) =~= ms.skip(i as int + 1));
                assert(ser_records(ms.skip(i as int)) == ser_record(m) + ser_records(
                    ms.skip(i as int + 1),
                ));
                assert(pre + ser_records(ms.skip(i as int)) =~= out@ + ser_records(
                    ms.skip(i as int + 1),
                ));
            }
            i += 1;
        }
        proof {
            assert(ms.skip(i as int) =~= Seq::<RecModel>::empty());
            assert(out@ + ser_records(ms.skip(i as int)) =~= out@);
        }
        out
    }
}

fn has_key(records: &Vec<MetaRecord>, site: &[u8], group: &[u8], path: &[u8]) -> (b: bool)
    ensures
        b == exists|t: int|
            0 <= t < records@.len() && rec_key(#[trigger] records@[t]) == (site@, group@, path@),
{
    let mut t: usize = 0;
    while t < records.len()
        invariant
            t <= records@.len(),
            forall|u: int| 0 <= u < t ==> rec_key(#[trigger] records@[u]) != (site@, group@, path@),
        decreases records@.len() - t,
    {
        if key_eq(&records[t], site, group, path) {
            proof {
                assert(rec_key(records@[t as int]) == (site@, group@, path@));
            }
            return true;
        }
        proof {
            assert(rec_key(records@[t as int]) != (site@, group@, path@));
        }
        t += 1;
    }
    false
}

/// Reads a persisted document back.  Fails exactly where the byte string is
/// not a serialized document; the caller then falls back to an empty one.
pub fn parse_document(bytes: &[u8]) -> (r: Result<MetadataDocument, MetadataError>)
    ensures
        r is Ok <==> parse_doc(bytes@) is Some,
        r matches Ok(d) ==> rec_models(d.records@) == parse_doc(bytes@).unwrap() && doc_wf(
            d.records@,
        ),
{
    let mut lines = split_bytes(bytes, NEWLINE);
    let ghost allv = views(lines@);
    proof {
        lemma_split_sep_pos(bytes@, NEWLINE);
        lemma_split_sep_free(bytes@, NEWLINE);
    }
    let last = lines.pop().unwrap();
    if last.len() != 0 {
        return Err(MetadataError::Corrupt);
    }
    let ghost lv = views(lines@);
    proof {
        assert(lv =~= allv.drop_last());
        assert(allv.last() == last@);
    }
    let n = lines.len();
    let mut doc = MetadataDocument { records: Vec::new() };
    let mut i: usize = 0;
    proof {
        assert(lv.skip(0) =~= lv);
        assert(rec_models(doc.records@) =~= Seq::<RecModel>::empty());
    }
    while i < n
        invariant
            i <= n,
            n == lines@.len(),
            lv == views(lines@),
            lv == split_sep(bytes@, NEWLINE).drop_last(),
            split_sep(bytes@, NEWLINE).last().len() == 0,
            forall|t: int|
                0 <= t < lv.len() ==> !(#[trigger] split_sep(bytes@, NEWLINE)[t]).contains(NEWLINE),
            doc_wf(doc.records@),
            parse_lines(lv.skip(i as int)) is Some ==> parse_lines(lv) == Some(
                rec_models(doc.records@) + parse_lines(lv.skip(i as int)).unwrap(),
            ),
            parse_lines(lv.skip(i as int)) is None ==> parse_lines(lv) is None,
        decreases n - i,
    {
        let line = lines[i].as_slice();
        proof {
            assert(lv[i as int] == line@);
            assert(split_sep(bytes@, NEWLINE)[i as int] == line@);
            assert(!line@.contains(NEWLINE));
            assert(lv.skip(i as int)[0] == line@);
            assert(lv.skip(i as int).skip(1) =~= lv.skip(i as int + 1));
            lemma_split_sep_free(line@, TAB);
            lemma_split_sep_no_other(line@, TAB, NEWLINE);
        }
        let mut fields = split_bytes(line, TAB);
        let ghost fv = views(fields@);
        if fields.len() != 6 {
            proof {
                assert(parse_line(line@) is None);
            }
            return Err(MetadataError::Corrupt);
        }
        let attempts = match parse_u64(fields[5].as_slice()) {
            Some(v) => v,
            None => {
                proof {
                    assert(fv[5] == fields@[5]@);
                    assert(parse_line(line@) is None);
                }
                return Err(MetadataError::Corrupt);
            },
        };
        let st_seg = &fields[4 - 1];
        let state = if st_seg.len() == 1 {
            match code_state(st_seg[0]) {
                Some(st) => st,
                None => {
                    proof {
                        assert(fv[3] == fields@[3]@);
                        assert(parse_line(line@) is None);
                    }
                    return Err(MetadataError::Corrupt);
                },
            }
        } else {
            proof {
                assert(fv[3] == fields@[3]@);
                assert(parse_line(line@) is None);
            }
            return Err(MetadataError::Corrupt);
        };
        let ghost m = parse_line(line@).unwrap();
        let attempts_seg = fields.pop().unwrap();
        let digest = fields.pop().unwrap();
        let _state_seg = fields.pop().unwrap();
        let path = fields.pop().unwrap();
        let group = fields.pop().unwrap();
        let site = fields.pop().unwrap();
        proof {
            assert(site@ == fv[0] && group@ == fv[1] && path@ == fv[2] && digest@ == fv[4]);
            assert(m == (fv[0], fv[1], fv[2], byte_state(fv[3][0]).unwrap(), fv[4], (dec_val(
                fv[5],
            ) as u64)));
            assert(m.3 == state);
            assert(m.5 == attempts);
        }
        if has_key(&doc.records, site.as_slice(), group.as_slice(), path.as_slice()) {
            proof {
                let t = choose|t: int|
                    0 <= t < doc.records@.len() && rec_key(#[trigger] doc.records@[t]) == (
                    site@,
                    group@,
                    path@,
                );
                assert(parse_lines(lv.skip(i as int)) matches Some(rest) ==> {
                    &&& parse_lines(lv) == Some(rec_models(doc.records@) + rest)
                    &&& rest[0] == m
                });
                if parse_lines(lv.skip(i as int)) is Some {
                    let full = parse_lines(lv).unwrap();
                    let rest = parse_lines(lv.skip(i as int)).unwrap();
                    assert(parse_lines(lv.skip(i as int + 1)) is Some);
                    assert(rest == seq![m] + parse_lines(lv.skip(i as int + 1)).unwrap());
                    assert(full[t] == rec_models(doc.records@)[t]);
                    assert(model_key(full[t]) == rec_key(doc.records@[t]));
                    assert(full[doc.records@.len() as int] == m);
                    assert(model_key(full[doc.records@.len() as int]) == (site@, group@, path@));
                    assert(!models_unique(full));
                    assert(parse_doc(bytes@) is None);
                }
            }
            return Err(MetadataError::Corrupt);
        }
        let ghost pre = doc.records@;
        let rec = MetaRecord {
            site,
            group,
            remote_path: path,
            state,
            last_digest: digest,
            attempts,
        };
        proof {
            assert(rec_ok(rec)) by {
                assert(fv[0] == split_sep(line@, TAB)[0]);
                assert(fv[1] == split_sep(line@, TAB)[1]);
                assert(fv[2] == split_sep(line@, TAB)[2]);
                assert(fv[4] == split_sep(line@, TAB)[4]);
            }
        }
        doc.records.push(rec);
        proof {
            assert(doc.records@ =~= pre.push(rec));
            assert(rec_model(rec) == m);
            assert forall|t1: int, t2: int| 0 <= t1 < t2 < doc.records@.len() implies rec_key(
                #[trigger] doc.records@[t1],
            ) != rec_key(#[trigger] doc.records@[t2]) by {
                if t2 == doc.records@.len() - 1 {
                    assert(doc.records@[t1] == pre[t1]);
                    assert(rec_key(pre[t1]) != (site@, group@, path@));
                } else {
                    assert(doc.records@[t1] == pre[t1] && doc.records@[t2] == pre[t2]);
                }
            }
            assert(rec_models(doc.records@) =~= rec_models(pre) + seq![m]);
            if parse_lines(lv.skip(i as int + 1)) is Some {
                assert(parse_lines(lv.skip(i as int)) == Some(
                    seq![m] + parse_lines(lv.skip(i as int + 1)).unwrap(),
                ));
                assert(rec_models(pre) + (seq![m] + parse_lines(lv.skip(i as int + 1)).unwrap())
                    =~= rec_models(doc.records@) + parse_lines(lv.skip(i as int + 1)).unwrap());
            } else {
                assert(parse_lines(lv.skip(i as int)) is None);
            }
        }
        i += 1;
    }
    proof {
        assert(lv.skip(i as int) =~= Seq::<Seq<u8>>::empty());
        assert(parse_lines(lv.skip(i as int)) == Some(Seq::<RecModel>::empty()));
        assert(rec_models(doc.records@) + Seq::<RecModel>::empty() =~= rec_models(doc.records@));
        assert(parse_lines(lv) == Some(rec_models(doc.records@)));
        assert forall|t1: int, t2: int|
            0 <= t1 < t2 < rec_models(doc.records@).len() implies model_key(
            #[trigger] rec_models(doc.records@)[t1],
        ) != model_key(#[trigger] rec_models(doc.records@)[t2]) by {
            assert(rec_models(doc.records@)[t1] == rec_model(doc.records@[t1]));
            assert(rec_models(doc.records@)[t2] == rec_model(doc.records@[t2]));
            assert(rec_key(doc.records@[t1]) != rec_key(doc.records@[t2]));
        }
        assert(parse_doc(bytes@) == Some(rec_models(doc.records@)));
    }
    Ok(doc)
}

/// The fields of a model that the serialized form can carry.
pub open spec fn model_ok(m: RecModel) -> bool {
    field_ok(m.0) && field_ok(m.1) && field_ok(m.2) && field_ok(m.4)
}

proof fn lemma_single_free(b: u8, c: u8)
    requires
        b != c,
    ensures
        !seq![b].contains(c),
{
    assert forall|j: int| 0 <= j < 1 implies seq![b][j] != c by {}
}

proof fn lemma_digits_free(s: Seq<u8>)
    requires
        all_digits(s),
    ensures
        !s.contains(TAB),
        !s.contains(NEWLINE),
{
    assert forall|j: int| 0 <= j < s.len() implies s[j] != TAB && s[j] != NEWLINE by {
        assert(crate::numfmt::is_digit(s[j]));
    }
}

/// A record's line reads back as the record, and holds no newline.
proof fn lemma_parse_ser_line(m: RecModel)
    requires
        model_ok(m),
    ensures
        parse_line(ser_line(m)) == Some(m),
        !ser_line(m).contains(NEWLINE),
{
    let sb = seq![state_byte(m.3)];
    let t = seq![TAB];
    let d = dec_digits(m.5 as nat);
    lemma_dec_round_trip(m.5 as nat);
    lemma_digits_free(d);
    lemma_single_free(state_byte(m.3), NEWLINE);
    lemma_single_free(state_byte(m.3), TAB);
    lemma_single_free(TAB, NEWLINE);
    let r4 = m.4 + t + d;
    let r3 = sb + t + r4;
    let r2 = m.2 + t + r3;
    let r1 = m.1 + t + r2;
    assert(ser_line(m) =~= m.0 + t + r1);
    crate::bytestr::lemma_concat_free(m.4 + t, d, NEWLINE);
    assert(m.4 + t =~= m.4.add(t));
    crate::bytestr::lemma_concat_free(m.4, t, NEWLINE);
    assert(!r4.contains(NEWLINE)) by {
        crate::bytestr::lemma_concat_free(m.4 + t, d, NEWLINE);
        assert(r4 =~= (m.4 + t) + d);
    }
    assert(!r3.contains(NEWLINE)) by {
        crate::bytestr::lemma_concat_free(sb, t, NEWLINE);
        crate::bytestr::lemma_concat_free(sb + t, r4, NEWLINE);
        assert(r3 =~= (sb + t) + r4);
    }
    assert(!r2.contains(NEWLINE)) by {
        crate::bytestr::lemma_concat_free(m.2, t, NEWLINE);
        crate::bytestr::lemma_concat_free(m.2 + t, r3, NEWLINE);
        assert(r2 =~= (m.2 + t) + r3);
    }
    assert(!r1.contains(NEWLINE)) by {
        crate::bytestr::lemma_concat_free(m.1, t, NEWLINE);
        crate::bytestr::lemma_concat_free(m.1 + t, r2, NEWLINE);
        assert(r1 =~= (m.1 + t) + r2);
    }
    assert(!ser_line(m).contains(NEWLINE)) by {
        crate::bytestr::lemma_concat_free(m.0, t, NEWLINE);
        crate::bytestr::lemma_concat_free(m.0 + t, r1, NEWLINE);
        assert(ser_line(m) =~= (m.0 + t) + r1);
    }
    lemma_split_append(m.0, r1, TAB);
    assert(m.0 + t + r1 =~= m.0 + seq![TAB] + r1);
    lemma_split_append(m.1, r2, TAB);
    lemma_split_append(m.2, r3, TAB);
    assert(!sb.contains(TAB));
    lemma_split_append(sb, r4, TAB);
    lemma_split_append(m.4, d, TAB);
    lemma_split_no_sep(d, TAB);
    let fs = split_sep(ser_line(m), TAB);
    assert(fs == seq![m.0] + (seq![m.1] + (seq![m.2] + (seq![sb] + (seq![m.4] + seq![d])))));
    assert(fs =~= seq![m.0, m.1, m.2, sb, m.4, d]);
    assert(fs.len() == 6);
    assert(fs[0] == m.0 && fs[1] == m.1 && fs[2] == m.2 && fs[3] == sb && fs[4] == m.4 && fs[5]
        == d);
    assert(byte_state(state_byte(m.3)) == Some(m.3));
    assert(parse_line(ser_line(m)) == Some((m.0, m.1, m.2, m.3, m.4, m.5)));
    assert(m == (m.0, m.1, m.2, m.3, m.4, m.5));
}

/// A serialized sequence of records splits into its lines and reads back as
/// the records.
proof fn lemma_parse_ser_records(ms: Seq<RecModel>)
    requires
        forall|t: int| 0 <= t < ms.len() ==> model_ok(#[trigger] ms[t]),
    ensures
        split_sep(ser_records(ms), NEWLINE).len() >= 1,
        split_sep(ser_records(ms), NEWLINE).last().len() == 0,
        parse_lines(split_sep(ser_records(ms), NEWLINE).drop_last()) == Some(ms),
    decreases ms.len(),
{
    if ms.len() == 0 {
        assert(ser_records(ms) =~= Seq::<u8>::empty());
        assert(split_sep(ser_records(ms), NEWLINE) =~= seq![Seq::<u8>::empty()]);
        assert(split_sep(ser_records(ms), NEWLINE).drop_last() =~= Seq::<Seq<u8>>::empty());
        assert(ms =~= Seq::<RecModel>::empty());
    } else {
        let m0 = ms[0];
        let tail = ms.skip(1);
        assert forall|t: int| 0 <= t < tail.len() implies model_ok(#[trigger] tail[t]) by {
            assert(tail[t] == ms[t + 1]);
        }
        lemma_parse_ser_records(tail);
        lemma_parse_ser_line(m0);
        let rest = ser_records(tail);
        assert(ser_records(ms) == ser_record(m0) + rest);
        assert(ser_records(ms) =~= ser_line(m0) + seq![NEWLINE] + rest);
        lemma_split_append(ser_line(m0), rest, NEWLINE);
        let sp = split_sep(ser_records(ms), NEWLINE);
        let spr = split_sep(rest, NEWLINE);
        assert(sp == seq![ser_line(m0)] + spr);
        assert(sp.last() == spr.last());
        assert(sp.drop_last() =~= seq![ser_line(m0)] + spr.drop_last());
        let dl = sp.drop_last();
        assert(dl[0] == ser_line(m0));
        assert(dl.skip(1) =~= spr.drop_last());
        assert(parse_lines(dl) == Some(seq![m0] + tail));
        assert(seq![m0] + tail =~= ms);
    }
}

/// Writing a well-formed document out and reading it back gives the same
/// records, in the same order: nothing is lost or invented across a flush
/// and a reload.
pub proof fn lemma_metadata_round_trip(rs: Seq<MetaRecord>)
    requires
        doc_wf(rs),
    ensures
        parse_doc(ser_records(rec_models(rs))) == Some(rec_models(rs)),
{
    let ms = rec_models(rs);
    assert forall|t: int| 0 <= t < ms.len() implies model_ok(#[trigger] ms[t]) by {
        assert(ms[t] == rec_model(rs[t]));
        assert(rec_ok(rs[t]));
    }
    lemma_parse_ser_records(ms);
    assert forall|i: int, j: int| 0 <= i < j < ms.len() implies model_key(#[trigger] ms[i])
        != model_key(#[trigger] ms[j]) by {
        assert(ms[i] == rec_model(rs[i]));
        assert(ms[j] == rec_model(rs[j]));
        assert(rec_key(rs[i]) != rec_key(rs[j]));
    }
    assert(models_unique(ms));
}

} // verus!
