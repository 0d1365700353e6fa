//! Byte-string utilities shared by the whole library: equality, lexicographic
//! order, splitting on a separator byte, and sorting by a name key.
//!
//! All paths, names and digests in this library are byte strings, so these
//! helpers carry most of the ordering and parsing arguments.

use vstd::prelude::*;
use vstd::multiset::Multiset;
use vstd::relations::sorted_by;

verus! {

/// The byte `','`.
pub const COMMA: u8 = 44;

/// The byte `'\n'`.
pub const NEWLINE: u8 = 10;

/// The byte `' '`.
pub const SPACE: u8 = 32;

/// The byte `'\t'`.
pub const TAB: u8 = 9;

/// Strict lexicographic order on byte sequences: the usual dictionary order,
/// with a proper prefix ordered before its extensions.
pub open spec fn lex_lt(a: Seq<u8>, b: Seq<u8>) -> bool
    decreases a.len(),
{
    if b.len() == 0 {
        false
    } else if a.len() == 0 {
        true
    } else if a[0] < b[0] {
        true
    } else if a[0] > b[0] {
        false
    } else {
        lex_lt(a.skip(1), b.skip(1))
    }
}

/// Reflexive closure of `lex_lt`.
pub open spec fn lex_leq(a: Seq<u8>, b: Seq<u8>) -> bool {
    lex_lt(a, b) || a == b
}

/// Any two byte sequences are comparable under `lex_lt`.
pub proof fn lemma_lex_total(a: Seq<u8>, b: Seq<u8>)
    ensures
        lex_lt(a, b) || lex_lt(b, a) || a == b,
    decreases a.len(),
{
    if a.len() == 0 || b.len() == 0 {
        if a.len() == 0 && b.len() == 0 {
            assert(a =~= b);
        }
    } else if a[0] == b[0] {
        lemma_lex_total(a.skip(1), b.skip(1));
        if !lex_lt(a, b) && !lex_lt(b, a) {
            assert(a.skip(1) =~= b.skip(1));
            assert(a =~= seq![a[0]].add(a.skip(1)));
            assert(b =~= seq![b[0]].add(b.skip(1)));
        }
    }
}

/// `lex_lt` is asymmetric.
pub proof fn lemma_lex_asym(a: Seq<u8>, b: Seq<u8>)
    ensures
        lex_lt(a, b) ==> !lex_lt(b, a),
    decreases a.len(),
{
    if a.len() > 0 && b.len() > 0 && a[0] == b[0] {
        lemma_lex_asym(a.skip(1), b.skip(1));
    }
}

/// `lex_lt` is transitive.
pub proof fn lemma_lex_trans(a: Seq<u8>, b: Seq<u8>, c: Seq<u8>)
    ensures
        lex_lt(a, b) && lex_lt(b, c) ==> lex_lt(a, c),
    decreases a.len(),
{
    if a.len() > 0 && b.len() > 0 && c.len() > 0 {
        lemma_lex_trans(a.skip(1), b.skip(1), c.skip(1));
    }
}

/// Equality of two byte slices, decided by scanning.
pub fn bytes_eq(a: &[u8], b: &[u8]) -> (r: bool)
    ensures
        r <==> a@ == b@,
{
    if a.len() != b.len() {
        return false;
    }
    let mut i: usize = 0;
    while i < a.len()
        invariant
            i <= a.len(),
            a.len() == b.len(),
            forall|j: int| 0 <= j < i ==> a@[j] == b@[j],
        decreases a.len() - i,
    {
        if a[i] != b[i] {
            return false;
        }
        i += 1;
    }
    proof {
        assert(a@ =~= b@);
    }
    true
}

/// Decides `lex_lt` by mirroring its recursion.
pub fn lex_lt_bytes(a: &[u8], b: &[u8]) -> (r: bool)
    ensures
        r == lex_lt(a@, b@),
    decreases a@.len(),
{
    if b.len() == 0 {
        false
    } else if a.len() == 0 {
        true
    } else if a[0] < b[0] {
        true
    } else if a[0] > b[0] {
        false
    } else {
        let ra = vstd::slice::slice_subrange(a, 1, a.len());
        let rb = vstd::slice::slice_subrange(b, 1, b.len());
        proof {
            assert(ra@ =~= a@.skip(1));
            assert(rb@ =~= b@.skip(1));
        }
        lex_lt_bytes(ra, rb)
    }
}

/// The views of a sequence of byte vectors.
pub open spec fn views(r: Seq<Vec<u8>>) -> Seq<Seq<u8>> {
    r.map_values(|v: Vec<u8>| v@)
}

/// Splitting a byte sequence at every occurrence of `sep`.  The result always
/// has at least one segment; separators are not part of any segment.
pub open spec fn split_sep(s: Seq<u8>, sep: u8) -> Seq<Seq<u8>>
    decreases s.len(),
{
    if s.len() == 0 {
        seq![Seq::<u8>::empty()]
    } else if s[0] == sep {
        seq![Seq::<u8>::empty()].add(split_sep(s.skip(1), sep))
    } else {
        let rest = split_sep(s.skip(1), sep);
        seq![seq![s[0]].add(rest[0])].add(rest.skip(1))
    }
}

pub proof fn lemma_split_sep_pos(s: Seq<u8>, sep: u8)
    ensures
        split_sep(s, sep).len() >= 1,
    decreases s.len(),
{
    if s.len() > 0 && s[0] != sep {
        lemma_split_sep_pos(s.skip(1), sep);
    }
}

/// No segment of a split contains the separator.
pub proof fn lemma_split_sep_free(s: Seq<u8>, sep: u8)
    ensures
        forall|k: int|
            0 <= k < split_sep(s, sep).len() ==> !(#[trigger] split_sep(s, sep)[k]).contains(sep),
    decreases s.len(),
{
    if s.len() == 0 {
        assert forall|k: int|
            0 <= k < split_sep(s, sep).len() implies !(#[trigger] split_sep(s, sep)[k]).contains(
            sep,
        ) by {
            assert(split_sep(s, sep)[k] =~= Seq::<u8>::empty());
        }
    } else if s[0] == sep {
        lemma_split_sep_free(s.skip(1), sep);
        assert forall|k: int|
            0 <= k < split_sep(s, sep).len() implies !(#[trigger] split_sep(s, sep)[k]).contains(
            sep,
        ) by {
            if k == 0 {
                assert(split_sep(s, sep)[0] =~= Seq::<u8>::empty());
            } else {
                assert(split_sep(s, sep)[k] == split_sep(s.skip(1), sep)[k - 1]);
            }
        }
    } else {
        lemma_split_sep_free(s.skip(1), sep);
        lemma_split_sep_pos(s.skip(1), sep);
        let rest = split_sep(s.skip(1), sep);
        assert forall|k: int|
            0 <= k < split_sep(s, sep).len() implies !(#[trigger] split_sep(s, sep)[k]).contains(
            sep,
        ) by {
            if k == 0 {
                assert(split_sep(s, sep)[0] == seq![s[0]].add(rest[0]));
                assert(!rest[0].contains(sep));
                assert forall|j: int| 0 <= j < split_sep(s, sep)[0].len() implies split_sep(
                    s,
                    sep,
                )[0][j] != sep by {
                    if j > 0 {
                        assert(split_sep(s, sep)[0][j] == rest[0][j - 1]);
                        assert(rest[0].contains(sep) <== rest[0][j - 1] == sep);
                    }
                }
            } else {
                assert(split_sep(s, sep)[k] == rest.skip(1)[k - 1]);
                assert(rest.skip(1)[k - 1] == rest[k]);
            }
        }
    }
}

/// Splitting cannot introduce a byte: a segment only holds bytes of `s`.
pub proof fn lemma_split_sep_no_other(s: Seq<u8>, sep: u8, c: u8)
    requires
        !s.contains(c),
    ensures
        forall|k: int|
            0 <= k < split_sep(s, sep).len() ==> !(#[trigger] split_sep(s, sep)[k]).contains(c),
    decreases s.len(),
{
    if s.len() == 0 {
        assert forall|k: int|
            0 <= k < split_sep(s, sep).len() implies !(#[trigger] split_sep(s, sep)[k]).contains(
            c,
        ) by {
            assert(split_sep(s, sep)[k] =~= Seq::<u8>::empty());
        }
    } else {
        assert(!s.skip(1).contains(c)) by {
            assert forall|j: int| 0 <= j < s.skip(1).len() implies s.skip(1)[j] != c by {
                assert(s.skip(1)[j] == s[j + 1]);
            }
        }
        lemma_split_sep_no_other(s.skip(1), sep, c);
        lemma_split_sep_pos(s.skip(1), sep);
        let rest = split_sep(s.skip(1), sep);
        if s[0] == sep {
            assert forall|k: int|
                0 <= k < split_sep(s, sep).len() implies !(#[trigger] split_sep(s, sep)[k]).contains(
                c,
            ) by {
                if k == 0 {
                    assert(split_sep(s, sep)[0] =~= Seq::<u8>::empty());
                } else {
                    assert(split_sep(s, sep)[k] == rest[k - 1]);
                }
            }
        } else {
            assert forall|k: int|
                0 <= k < split_sep(s, sep).len() implies !(#[trigger] split_sep(s, sep)[k]).contains(
                c,
            ) by {
                if k == 0 {
                    assert(split_sep(s, sep)[0] == seq![s[0]].add(rest[0]));
                    assert(s[0] != c);
                    assert(!rest[0].contains(c));
                    assert forall|j: int| 0 <= j < split_sep(s, sep)[0].len() implies split_sep(
                        s,
                        sep,
                    )[0][j] != c by {
                        if j > 0 {
                            assert(split_sep(s, sep)[0][j] == rest[0][j - 1]);
                            assert(rest[0].contains(c) <== rest[0][j - 1] == c);
                        }
                    }
                } else {
                    assert(split_sep(s, sep)[k] == rest.skip(1)[k - 1]);
                    assert(rest.skip(1)[k - 1] == rest[k]);
                }
            }
        }
    }
}

/// Concatenation cannot introduce a byte.
pub proof fn lemma_concat_free(a: Seq<u8>, b: Seq<u8>, c: u8)
    requires
        !a.contains(c),
        !b.contains(c),
    ensures
        !(a + b).contains(c),
{
    assert forall|j: int| 0 <= j < (a + b).len() implies (a + b)[j] != c by {
        if j < a.len() {
            assert((a + b)[j] == a[j]);
            if a[j] == c {
                assert(a.contains(c));
            }
        } else {
            assert((a + b)[j] == b[j - a.len()]);
            if b[j - a.len()] == c {
                assert(b.contains(c));
            }
        }
    }
}

/// A separator-free string splits into itself alone.
pub proof fn lemma_split_no_sep(s: Seq<u8>, sep: u8)
    requires
        !s.contains(sep),
    ensures
        split_sep(s, sep) == seq![s],
    decreases s.len(),
{
    if s.len() == 0 {
        assert(s =~= Seq::<u8>::empty());
        assert(split_sep(s, sep) =~= seq![s]);
    } else {
        assert(s[0] != sep);
        assert(!s.skip(1).contains(sep)) by {
            assert forall|j: int| 0 <= j < s.skip(1).len() implies s.skip(1)[j] != sep by {
                assert(s.skip(1)[j] == s[j + 1]);
            }
        }
        lemma_split_no_sep(s.skip(1), sep);
        assert(split_sep(s.skip(1), sep).skip(1) =~= Seq::<Seq<u8>>::empty());
        assert(split_sep(s.skip(1), sep)[0] == s.skip(1));
        assert(split_sep(s, sep) =~= seq![seq![s[0]].add(s.skip(1))]);
        assert(seq![s[0]].add(s.skip(1)) =~= s);
        assert(split_sep(s, sep) =~= seq![s]);
    }
}

/// Splitting at the first separator: a separator-free prefix becomes the
/// first segment, and the rest splits on its own.
pub proof fn lemma_split_append(l: Seq<u8>, rest: Seq<u8>, sep: u8)
    requires
        !l.contains(sep),
    ensures
        split_sep(l + seq![sep] + rest, sep) == seq![l] + split_sep(rest, sep),
    decreases l.len(),
{
    let s = l + seq![sep] + rest;
    if l.len() == 0 {
        assert(s[0] == sep);
        assert(s.skip(1) =~= rest);
        assert(split_sep(s, sep) =~= seq![Seq::<u8>::empty()] + split_sep(rest, sep));
        assert(l =~= Seq::<u8>::empty());
    } else {
        assert(s[0] == l[0]);
        assert(l[0] != sep);
        assert(!l.skip(1).contains(sep)) by {
            assert forall|j: int| 0 <= j < l.skip(1).len() implies l.skip(1)[j] != sep by {
                assert(l.skip(1)[j] == l[j + 1]);
            }
        }
        lemma_split_append(l.skip(1), rest, sep);
        assert(s.skip(1) =~= l.skip(1) + seq![sep] + rest);
        let r = split_sep(s.skip(1), sep);
        assert(r == seq![l.skip(1)] + split_sep(rest, sep));
        lemma_split_sep_pos(rest, sep);
        assert(r[0] == l.skip(1));
        assert(seq![s[0]].add(r[0]) =~= l);
        assert(r.skip(1) =~= split_sep(rest, sep));
        assert(split_sep(s, sep) =~= seq![l] + split_sep(rest, sep));
    }
}

/// Splits `s` from position `i` on at every occurrence of `sep`.
fn split_from(s: &[u8], i: usize, sep: u8) -> (r: Vec<Vec<u8>>)
    requires
        i <= s@.len(),
    ensures
        views(r@) == split_sep(s@.skip(i as int), sep),
    decreases s@.len() - i,
{
    if i == s.len() {
        let mut r: Vec<Vec<u8>> = Vec::new();
        r.push(Vec::new());
        proof {
            assert(s@.skip(i as int) =~= Seq::<u8>::empty());
            assert(views(r@) =~= seq![Seq::<u8>::empty()]);
        }
        r
    } else if s[i] == sep {
        let mut r = split_from(s, i + 1, sep);
        r.insert(0, Vec::new());
        proof {
            assert(s@.skip(i as int)[0] == sep);
            assert(s@.skip(i as int).skip(1) =~= s@.skip(i as int + 1));
            assert(views(r@) =~= seq![Seq::<u8>::empty()].add(
                split_sep(s@.skip(i as int + 1), sep),
            ));
        }
        r
    } else {
        let mut r = split_from(s, i + 1, sep);
        proof {
            lemma_split_sep_pos(s@.skip(i as int + 1), sep);
        }
        let mut first = r.remove(0);
        first.insert(0, s[i]);
        r.insert(0, first);
        proof {
            let tail = s@.skip(i as int + 1);
            assert(s@.skip(i as int)[0] == s@[i as int]);
            assert(s@.skip(i as int).skip(1) =~= tail);
            assert(first@ =~= seq![s@[i as int]].add(split_sep(tail, sep)[0]));
            assert(views(r@) =~= seq![seq![s@[i as int]].add(split_sep(tail, sep)[0])].add(
                split_sep(tail, sep).skip(1),
            ));
        }
        r
    }
}

/// Splits a byte slice at every occurrence of `sep`.
pub fn split_bytes(s: &[u8], sep: u8) -> (r: Vec<Vec<u8>>)
    ensures
        views(r@) == split_sep(s@, sep),
{
    let r = split_from(s, 0, sep);
    proof {
        assert(s@.skip(0) =~= s@);
    }
    r
}

/// A value carrying a byte-string name that sorting and lookup go by.
pub trait Named: Sized {
    spec fn key(&self) -> Seq<u8>;

    fn name_bytes(&self) -> (r: &[u8])
        ensures
            r@ == self.key(),
    ;
}

/// The ordering used to sort `Named` values.
pub open spec fn key_leq<T: Named>(a: T, b: T) -> bool {
    lex_leq(a.key(), b.key())
}

/// The ordering on `Named` values, as a relation value.
pub open spec fn key_order<T: Named>() -> spec_fn(T, T) -> bool {
    |a: T, b: T| key_leq(a, b)
}

/// Insertion sort, ordering values by their name key.
pub fn sort_by_key<T: Named>(v: &mut Vec<T>)
    ensures
        sorted_by(final(v)@, key_order::<T>()),
        final(v)@.to_multiset() == old(v)@.to_multiset(),
        final(v)@.len() == old(v)@.len(),
{
    let ghost leq = key_order::<T>();
    if v.len() == 0 {
        return ;
    }
    let mut i: usize = 1;
    while i < v.len()
        invariant
            1 <= i <= v@.len(),
            v@.len() == old(v)@.len(),
            sorted_by(v@.take(i as int), leq),
            v@.to_multiset() == old(v)@.to_multiset(),
            leq == key_order::<T>(),
        decreases v@.len() - i,
    {
        let ghost i_ = i as int;
        let mut j: usize = i;
        proof {
            assert(v@.take(i_ + 1).remove(i_) =~= v@.take(i_));
        }
        while j > 0 && lex_lt_bytes(v[j].name_bytes(), v[j - 1].name_bytes())
            invariant
                0 <= j <= i_ < v@.len(),
                v@.len() == old(v)@.len(),
                v@.to_multiset() == old(v)@.to_multiset(),
                leq == key_order::<T>(),
                sorted_by(v@.take(i_ + 1).remove(j as int), leq),
                forall|k: int| j < k <= i_ ==> leq(v@[j as int], #[trigger] v@[k]),
            decreases j,
        {
            let ghost pre = v@;
            proof {
                lemma_lex_asym(pre[j as int].key(), pre[j - 1].key());
            }
            let x = v.remove(j);
            v.insert(j - 1, x);
            proof {
                assert(v@ =~= pre.update(j - 1, pre[j as int]).update(j as int, pre[j - 1]));
                lemma_swap_preserves(pre, j - 1, j as int);
                assert(v@.take(i_ + 1).remove(j - 1) =~= pre.take(i_ + 1).remove(j as int));
                assert forall|k: int| j - 1 < k <= i_ implies leq(v@[j - 1], #[trigger] v@[k]) by {
                    if k == j {
                        assert(v@[k] == pre[j - 1]);
                    } else {
                        assert(v@[k] == pre[k]);
                    }
                }
            }
            j -= 1;
        }
        proof {
            let s = v@.take(i_ + 1);
            let t = s.remove(j as int);
            if j > 0 {
                assert(!lex_lt(v@[j as int].key(), v@[j - 1].key()));
                lemma_lex_total(v@[j as int].key(), v@[j - 1].key());
            }
            assert forall|m: int, n: int| 0 <= m < n < s.len() implies leq(s[m], s[n]) by {
                let jj = j as int;
                assert(t.len() == i_);
                if n < jj {
                    assert(t[m] == s[m] && t[n] == s[n]);
                    assert(leq(t[m], t[n]));
                } else if n == jj {
                    if m == jj - 1 {
                        assert(leq(s[m], s[n]));
                    } else {
                        assert(t[m] == s[m] && t[jj - 1] == s[jj - 1]);
                        assert(leq(t[m], t[jj - 1]));
                        lex_leq_trans(s[m].key(), s[jj - 1].key(), s[jj].key());
                    }
                } else if m == jj {
                    assert(leq(v@[jj], v@[n]));
                } else if m < jj {
                    assert(t[m] == s[m] && t[n - 1] == s[n]);
                    assert(leq(t[m], t[n - 1]));
                } else {
                    assert(t[m - 1] == s[m] && t[n - 1] == s[n]);
                    assert(leq(t[m - 1], t[n - 1]));
                }
            }
            assert(sorted_by(s, leq));
            assert(v@.take(i_ + 1).take(i_ + 1) =~= v@.take(i_ + 1));
        }
        i += 1;
    }
    proof {
        assert(v@.take(v@.len() as int) =~= v@);
    }
}

/// `lex_leq` chains.
pub proof fn lex_leq_trans(a: Seq<u8>, b: Seq<u8>, c: Seq<u8>)
    ensures
        lex_leq(a, b) && lex_leq(b, c) ==> lex_leq(a, c),
{
    lemma_lex_trans(a, b, c);
}

/// `lex_leq` in both directions collapses to equality.
pub proof fn lemma_lex_antisym(a: Seq<u8>, b: Seq<u8>)
    ensures
        lex_leq(a, b) && lex_leq(b, a) ==> a == b,
{
    lemma_lex_asym(a, b);
}

/// No two values in the sequence share a name key.
pub open spec fn unique_keys<T: Named>(s: Seq<T>) -> bool {
    forall|i: int, j: int| 0 <= i < j < s.len() ==> (#[trigger] s[i]).key() != (#[trigger] s[j]).key()
}

/// The keys grow strictly along the sequence.
pub open spec fn strictly_sorted<T: Named>(s: Seq<T>) -> bool {
    forall|i: int, j: int| 0 <= i < j < s.len() ==> lex_lt((#[trigger] s[i]).key(), (#[trigger] s[j]).key())
}

/// A sorted sequence with pairwise distinct keys is strictly sorted.
pub proof fn lemma_sorted_unique_strict<T: Named>(s: Seq<T>)
    requires
        sorted_by(s, key_order::<T>()),
        unique_keys(s),
    ensures
        strictly_sorted(s),
{
    assert forall|i: int, j: int| 0 <= i < j < s.len() implies lex_lt(
        (#[trigger] s[i]).key(),
        (#[trigger] s[j]).key(),
    ) by {
        assert(key_order::<T>()(s[i], s[j]));
    }
}

/// Rearranging a sequence cannot create a repeated key.
pub proof fn lemma_unique_keys_transfer<T: Named>(a: Seq<T>, b: Seq<T>)
    requires
        a.to_multiset() == b.to_multiset(),
        unique_keys(a),
    ensures
        unique_keys(b),
{
    broadcast use vstd::seq_lib::group_to_multiset_ensures;
    broadcast use vstd::multiset::group_multiset_axioms;

    assert forall|i: int, j: int| 0 <= i < j < b.len() implies (#[trigger] b[i]).key() != (
    #[trigger] b[j]).key() by {
        let x = b[i];
        let y = b[j];
        if x == y {
            assert(b.remove(i).to_multiset() == b.to_multiset().remove(x));
            assert(b.remove(i)[j - 1] == y);
            assert(b.remove(i).contains(y));
            assert(b.to_multiset().remove(x).count(x) > 0);
            assert(a.to_multiset().count(x) >= 2);
            assert(a.contains(x));
            let ia = choose|k: int| 0 <= k < a.len() && a[k] == x;
            assert(a.remove(ia).to_multiset() == a.to_multiset().remove(x));
            assert(a.remove(ia).to_multiset().count(x) > 0);
            assert(a.remove(ia).contains(x));
            let ka = choose|k: int| 0 <= k < a.remove(ia).len() && a.remove(ia)[k] == x;
            let ia2 = if ka < ia {
                ka
            } else {
                ka + 1
            };
            assert(a[ia2] == x && ia2 != ia);
            assert(false);
        } else if x.key() == y.key() {
            assert(b.contains(x));
            assert(a.to_multiset().count(x) > 0);
            assert(a.contains(x));
            assert(b.remove(i)[j - 1] == y);
            assert(b.remove(i).contains(y));
            assert(b.to_multiset().remove(x).count(y) > 0);
            assert(a.to_multiset().count(y) > 0);
            assert(a.contains(y));
            let ix = choose|k: int| 0 <= k < a.len() && a[k] == x;
            let iy = choose|k: int| 0 <= k < a.len() && a[k] == y;
            assert(ix != iy);
            assert(false);
        }
    }
}

/// Two sorted arrangements of the same values, with pairwise distinct keys,
/// are one and the same sequence.
pub proof fn lemma_sorted_unique<T: Named>(a: Seq<T>, b: Seq<T>)
    requires
        sorted_by(a, key_order::<T>()),
        sorted_by(b, key_order::<T>()),
        a.to_multiset() == b.to_multiset(),
        unique_keys(a),
    ensures
        a == b,
    decreases a.len(),
{
    broadcast use vstd::seq_lib::group_to_multiset_ensures;
    broadcast use vstd::multiset::group_multiset_axioms;

    assert(a.to_multiset().len() == a.len());
    assert(b.to_multiset().len() == b.len());
    if a.len() == 0 {
        assert(a =~= b);
    } else {
        let x = a[0];
        assert(a.contains(x));
        assert(b.to_multiset().count(x) > 0);
        assert(b.contains(x));
        let jb = choose|k: int| 0 <= k < b.len() && b[k] == x;
        let y = b[0];
        assert(b.contains(y));
        assert(a.to_multiset().count(y) > 0);
        assert(a.contains(y));
        let ja = choose|k: int| 0 <= k < a.len() && a[k] == y;
        if jb > 0 {
            assert(key_order::<T>()(b[0], b[jb]));
        }
        if ja > 0 {
            assert(key_order::<T>()(a[0], a[ja]));
            lemma_lex_antisym(x.key(), y.key());
            assert(x.key() == y.key());
            assert(a[0].key() == a[ja].key() && 0 != ja);
            assert(false);
        }
        assert(b[0] == x);
        let a1 = a.drop_first();
        let b1 = b.drop_first();
        assert(a1 =~= a.remove(0));
        assert(b1 =~= b.remove(0));
        assert(a.remove(0).to_multiset() == a.to_multiset().remove(x));
        assert(b.remove(0).to_multiset() == b.to_multiset().remove(x));
        assert(a1.to_multiset() == b1.to_multiset());
        assert forall|i: int, j: int| 0 <= i < j < a1.len() implies key_order::<T>()(
            #[trigger] a1[i],
            #[trigger] a1[j],
        ) by {
            assert(key_order::<T>()(a[i + 1], a[j + 1]));
        }
        assert forall|i: int, j: int| 0 <= i < j < b1.len() implies key_order::<T>()(
            #[trigger] b1[i],
            #[trigger] b1[j],
        ) by {
            assert(key_order::<T>()(b[i + 1], b[j + 1]));
        }
        assert forall|i: int, j: int| 0 <= i < j < a1.len() implies (#[trigger] a1[i]).key() != (
        #[trigger] a1[j]).key() by {
            assert(a[i + 1].key() != a[j + 1].key());
        }
        lemma_sorted_unique(a1, b1);
        assert forall|k: int| 0 <= k < a.len() implies a[k] == b[k] by {
            if k > 0 {
                assert(a1[k - 1] == a[k]);
                assert(b1[k - 1] == b[k]);
            }
        }
        assert(a =~= b);
    }
}

/// Swapping two positions keeps the multiset of elements.
proof fn lemma_swap_preserves<T>(s: Seq<T>, x: int, y: int)
    requires
        0 <= x < y < s.len(),
    ensures
        s.update(x, s[y]).update(y, s[x]).to_multiset() == s.to_multiset(),
{
    broadcast use vstd::seq_lib::group_to_multiset_ensures;
    broadcast use vstd::multiset::group_multiset_axioms;
    broadcast use vstd::multiset::group_multiset_properties;

    let s1 = s.update(x, s[y]);
    let s2 = s1.update(y, s[x]);
    assert(s1[y] == s[y]);
    assert(s.contains(s[x]));
    assert(s1.contains(s[y]));
    assert(s2.to_multiset() =~= s.to_multiset());
}

/// Placing a value into a key-sorted sequence, before the first key not
/// below its own.
pub open spec fn insert_sorted<T: Named>(x: T, s: Seq<T>) -> Seq<T>
    decreases s.len(),
{
    if s.len() == 0 {
        seq![x]
    } else if lex_leq(x.key(), s[0].key()) {
        seq![x] + s
    } else {
        seq![s[0]] + insert_sorted(x, s.skip(1))
    }
}

/// The canonical key-sorted arrangement of a sequence.
pub open spec fn sort_of<T: Named>(s: Seq<T>) -> Seq<T>
    decreases s.len(),
{
    if s.len() == 0 {
        Seq::empty()
    } else {
        insert_sorted(s[0], sort_of(s.skip(1)))
    }
}

pub proof fn lemma_insert_sorted<T: Named>(x: T, s: Seq<T>)
    requires
        sorted_by(s, key_order::<T>()),
    ensures
        sorted_by(insert_sorted(x, s), key_order::<T>()),
        insert_sorted(x, s).to_multiset() == s.to_multiset().insert(x),
        insert_sorted(x, s).len() == s.len() + 1,
    decreases s.len(),
{
    broadcast use vstd::seq_lib::group_to_multiset_ensures;
    broadcast use vstd::multiset::group_multiset_axioms;

    let leq = key_order::<T>();
    let r = insert_sorted(x, s);
    if s.len() == 0 {
        assert(r =~= Seq::empty().push(x));
        assert(r.to_multiset() =~= s.to_multiset().insert(x));
        assert(sorted_by(r, leq));
    } else if lex_leq(x.key(), s[0].key()) {
        assert(r == seq![x] + s);
        vstd::seq_lib::lemma_multiset_commutative(seq![x], s);
        assert(seq![x] =~= Seq::empty().push(x));
        assert(seq![x].to_multiset() =~= Multiset::empty().insert(x));
        assert(r.to_multiset() =~= s.to_multiset().insert(x));
        assert forall|m: int, n: int| 0 <= m < n < r.len() implies leq(r[m], r[n]) by {
            if m == 0 {
                assert(r[n] == s[n - 1]);
                if n > 1 {
                    assert(leq(s[0], s[n - 1]));
                    lex_leq_trans(x.key(), s[0].key(), s[n - 1].key());
                }
            } else {
                assert(r[m] == s[m - 1] && r[n] == s[n - 1]);
                assert(leq(s[m - 1], s[n - 1]));
            }
        }
    } else {
        lemma_lex_total(x.key(), s[0].key());
        assert(lex_leq(s[0].key(), x.key()));
        assert forall|m: int, n: int| 0 <= m < n < s.skip(1).len() implies leq(
            #[trigger] s.skip(1)[m],
            #[trigger] s.skip(1)[n],
        ) by {
            assert(leq(s[m + 1], s[n + 1]));
        }
        lemma_insert_sorted(x, s.skip(1));
        let t = insert_sorted(x, s.skip(1));
        assert(r == seq![s[0]] + t);
        vstd::seq_lib::lemma_multiset_commutative(seq![s[0]], t);
        assert(seq![s[0]] =~= Seq::empty().push(s[0]));
        assert(seq![s[0]].to_multiset() =~= Multiset::empty().insert(s[0]));
        assert(s =~= seq![s[0]] + s.skip(1));
        vstd::seq_lib::lemma_multiset_commutative(seq![s[0]], s.skip(1));
        assert(r.to_multiset() =~= s.to_multiset().insert(x));
        assert forall|m: int, n: int| 0 <= m < n < r.len() implies leq(r[m], r[n]) by {
            if m > 0 {
                assert(r[m] == t[m - 1] && r[n] == t[n - 1]);
                assert(leq(t[m - 1], t[n - 1]));
            } else {
                assert(r[n] == t[n - 1]);
                assert(t.contains(t[n - 1]));
                assert(t.to_multiset().count(t[n - 1]) > 0);
                if t[n - 1] == x {
                    assert(leq(s[0], r[n]));
                } else {
                    assert(s.skip(1).to_multiset().count(t[n - 1]) > 0);
                    assert(s.skip(1).contains(t[n - 1]));
                    let u = choose|u: int|
                        0 <= u < s.skip(1).len() && s.skip(1)[u] == t[n - 1];
                    assert(leq(s[0], s[u + 1]));
                }
            }
        }
    }
}

pub proof fn lemma_sort_of<T: Named>(s: Seq<T>)
    ensures
        sorted_by(sort_of(s), key_order::<T>()),
        sort_of(s).to_multiset() == s.to_multiset(),
        sort_of(s).len() == s.len(),
    decreases s.len(),
{
    broadcast use vstd::seq_lib::group_to_multiset_ensures;

    if s.len() == 0 {
        assert(sort_of(s) =~= Seq::<T>::empty());
        assert(s =~= Seq::<T>::empty());
        assert(sort_of(s).to_multiset() =~= s.to_multiset());
    } else {
        lemma_sort_of(s.skip(1));
        lemma_insert_sorted(s[0], sort_of(s.skip(1)));
        assert(s =~= seq![s[0]] + s.skip(1));
        vstd::seq_lib::lemma_multiset_commutative(seq![s[0]], s.skip(1));
        assert(seq![s[0]] =~= Seq::<T>::empty().push(s[0]));
        assert(seq![s[0]].to_multiset() =~= Multiset::<T>::empty().insert(s[0]));
        assert(sort_of(s).to_multiset() =~= s.to_multiset());
    }
}

} // verus!
